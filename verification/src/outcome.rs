//! Sequences of steps that may fail.
use crate::obj;
use crate::obj::ObjReloc;
use vstd::prelude::*;

verus! {

/// Whether every step before `k` succeeds.
pub open spec fn reached<B, E>(rs: Seq<Result<B, E>>, k: int) -> bool {
    forall|j: int| 0 <= j < k ==> (#[trigger] rs[j]) is Ok
}

/// Whether step `k` is the first to fail.
pub open spec fn fails_at<B, E>(rs: Seq<Result<B, E>>, k: int) -> bool {
    0 <= k < rs.len() && rs[k] is Err && reached(rs, k)
}

/// What all steps give, or why the first that fails does.
pub open spec fn collected<B, E>(rs: Seq<Result<B, E>>) -> Result<Seq<B>, E> {
    if reached(rs, rs.len() as int) {
        Ok(Seq::new(rs.len(), |k: int| rs[k]->Ok_0))
    } else {
        Err(rs[choose|k: int| fails_at(rs, k)]->Err_0)
    }
}

pub proof fn lemma_collected_ok<B, E>(rs: Seq<Result<B, E>>, v: Seq<B>)
    requires
        rs.len() == v.len(),
        forall|k: int| 0 <= k < rs.len() ==> #[trigger] rs[k] == Ok::<B, E>(v[k]),
    ensures
        collected(rs) == Ok::<Seq<B>, E>(v),
{
    assert(collected(rs)->Ok_0 =~= v);
}

pub proof fn lemma_collected_err<B, E>(rs: Seq<Result<B, E>>, k: int, e: E)
    requires
        0 <= k < rs.len(),
        reached(rs, k),
        rs[k] == Err::<B, E>(e),
    ensures
        collected(rs) == Err::<Seq<B>, E>(e),
{
    assert(fails_at(rs, k));
    let m = choose|m: int| fails_at(rs, m);
    if m < k {
        assert(rs[m] is Ok);
    } else if k < m {
        assert(rs[k] is Ok);
    }
}

/// The elements that are there.
pub open spec fn present<B>(s: Seq<Option<B>>) -> Seq<B>
    decreases s.len(),
{
    if s.len() == 0 {
        Seq::empty()
    } else {
        match s.last() {
            Some(b) => present(s.drop_last()).push(b),
            None => present(s.drop_last()),
        }
    }
}

/// The sequences one after the other.
pub open spec fn concat<B>(s: Seq<Seq<B>>) -> Seq<B>
    decreases s.len(),
{
    if s.len() == 0 {
        Seq::empty()
    } else {
        concat(s.drop_last()) + s.last()
    }
}

/// The elements of `s` that `keep` marks.
pub open spec fn selected<B>(s: Seq<B>, keep: Seq<bool>) -> Seq<B>
    decreases s.len(),
{
    if s.len() == 0 {
        Seq::empty()
    } else if keep[s.len() - 1] {
        selected(s.drop_last(), keep).push(s.last())
    } else {
        selected(s.drop_last(), keep)
    }
}

/// Whether `e` is an element of `s` that `keep` marks.
pub open spec fn is_kept<B>(s: Seq<B>, keep: Seq<bool>, e: B) -> bool {
    exists|i: int| 0 <= i < s.len() && keep[i] && #[trigger] s[i] == e
}

/// What is kept comes from the sequence.
pub proof fn lemma_selected_from<B>(s: Seq<B>, keep: Seq<bool>)
    ensures
        forall|k: int|
            0 <= k < selected(s, keep).len() ==> s.contains(#[trigger] selected(s, keep)[k]),
    decreases s.len(),
{
    if s.len() > 0 {
        let rest = s.drop_last();
        let chosen = selected(s, keep);
        let before = selected(rest, keep);
        lemma_selected_from(rest, keep);
        assert forall|k: int| 0 <= k < chosen.len() implies s.contains(#[trigger] chosen[k]) by {
            if k < before.len() {
                assert(chosen[k] == before[k]);
                let m = choose|m: int| 0 <= m < rest.len() && rest[m] == before[k];
                assert(s[m] == chosen[k]);
            } else {
                assert(s[s.len() - 1] == chosen[k]);
            }
        }
    }
}

/// The relocations that are kept are those marked, in the same order.
pub proof fn lemma_selected(s: Seq<(u32, ObjReloc)>, keep: Seq<bool>)
    requires
        obj::ascending(s),
    ensures
        obj::ascending(selected(s, keep)),
        forall|k: int|
            0 <= k < selected(s, keep).len() ==> is_kept(s, keep, #[trigger] selected(s, keep)[k]),
        forall|i: int|
            0 <= i < s.len() && #[trigger] keep[i] ==> selected(s, keep).contains(s[i]),
    decreases s.len(),
{
    if s.len() > 0 {
        let front = s.drop_last();
        assert(obj::ascending(front)) by {
            assert forall|i: int, j: int| 0 <= i < j < front.len() implies (#[trigger] front[i]).0
                < (#[trigger] front[j]).0 by {
                assert(s[i].0 < s[j].0);
            }
        }
        lemma_selected(front, keep);
        let inner = selected(front, keep);
        let r = selected(s, keep);
        let n = s.len() - 1;
        assert forall|k: int| 0 <= k < r.len() implies is_kept(s, keep, #[trigger] r[k]) by {
            if k < inner.len() {
                assert(is_kept(front, keep, inner[k]));
                let i = choose|i: int|
                    0 <= i < front.len() && keep[i] && #[trigger] front[i] == inner[k];
                assert(s[i] == r[k]);
            } else {
                assert(s[n] == r[k]);
            }
        }
        assert forall|i: int| 0 <= i < s.len() && #[trigger] keep[i] implies r.contains(s[i]) by {
            if i < n {
                assert(inner.contains(front[i]));
                let k = choose|k: int| 0 <= k < inner.len() && inner[k] == front[i];
                assert(r[k] == s[i]);
            } else {
                assert(r[inner.len() as int] == s[i]);
            }
        }
        assert forall|a: int, b: int| 0 <= a < b < r.len() implies (#[trigger] r[a]).0 < (
        #[trigger] r[b]).0 by {
            if b < inner.len() {
                assert(inner[a].0 < inner[b].0);
            } else {
                assert(is_kept(front, keep, inner[a]));
                let i = choose|i: int|
                    0 <= i < front.len() && keep[i] && #[trigger] front[i] == inner[a];
                assert(s[i].0 < s[n].0);
            }
        }
    }
}

} // verus!
