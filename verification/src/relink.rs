//! Opt-in address-ordered link contributions. The objects to be linked are never mutated.
use crate::contribution;
use crate::error::{ErrorModel, RelinkError};
use crate::gaps;
use crate::obj;
use crate::obj::{ObjInfo, ObjModel, ObjSection, SectionModel};
use crate::order;
use crate::order::PositionOrder;
use crate::outcome;
use crate::tokens;
use crate::zero_fill;
use vstd::prelude::*;

verus! {

/// The objects that have sections.
pub open spec fn non_empty(objects: Seq<ObjModel>) -> Seq<ObjModel> {
    outcome::selected(objects, Seq::new(objects.len(), |i: int| objects[i].sections.len() > 0))
}

/// The contributions of an image: those of its objects, then the padding between them.
pub open spec fn contributions(image: ObjModel, defaults: Seq<ObjModel>) -> Result<
    Seq<ObjModel>,
    ErrorModel,
> {
    match tokens::restored(image, non_empty(defaults)) {
        Err(e) => Err(e),
        Ok(restored) => match zero_fill::zero_filled(
            image,
            restored,
            image.sections.len() as int,
        ) {
            Err(e) => Err(e),
            Ok(filled) => match contribution::finished(image, filled) {
                Err(e) => Err(e),
                Ok(finished) => match gaps::all_padding(image.sections) {
                    Err(e) => Err(e),
                    Ok(padding) => Ok(finished + padding),
                },
            },
        },
    }
}

/// Whether each step that is reached can be taken.
pub open spec fn linkable(image: ObjModel, defaults: Seq<ObjModel>) -> bool {
    let n = image.sections.len() as int;
    &&& tokens::restorable(image, non_empty(defaults))
    &&& tokens::restored(image, non_empty(defaults)) matches Ok(restored) ==> {
        &&& zero_fill::zero_fillable(image, restored, n)
        &&& zero_fill::zero_filled(image, restored, n) matches Ok(filled) ==> {
            &&& contribution::finishable(image, filled)
            &&& contribution::finished(image, filled) is Ok ==> gaps::all_paddable(image.sections)
        }
    }
}

/// The lowest address of the sections that have one.
pub open spec fn lowest_address(sections: Seq<SectionModel>) -> Option<u32>
    decreases sections.len(),
{
    if sections.len() == 0 {
        None
    } else {
        match (lowest_address(sections.drop_last()), sections.last().virtual_address) {
            (Some(a), Some(b)) => Some(
                if b < a {
                    b
                } else {
                    a
                },
            ),
            (Some(a), None) => Some(a),
            (None, b) => b,
        }
    }
}

/// Objects by their lowest addresses, those without one first.
pub open spec fn address_le(a: Option<u32>, b: Option<u32>) -> bool {
    match (a, b) {
        (None, _) => true,
        (Some(_), None) => false,
        (Some(a), Some(b)) => a <= b,
    }
}

pub open spec fn object_le(a: ObjModel, b: ObjModel) -> bool {
    address_le(lowest_address(a.sections), lowest_address(b.sections))
}

/// Whether `r` holds the elements of `s` at the places `p`, by ascending address, and those of one
/// address in the order of `s`.
pub open spec fn arranges(s: Seq<ObjModel>, r: Seq<ObjModel>, p: Seq<usize>) -> bool {
    &&& p.len() == s.len()
    &&& r.len() == s.len()
    &&& forall|k: int| 0 <= k < p.len() ==> (#[trigger] p[k]) < s.len() && r[k] == s[p[k] as int]
    &&& forall|i: int, j: int|
        #![trigger p[i], p[j]]
        0 <= i < j < p.len() ==> {
            &&& object_le(s[p[i] as int], s[p[j] as int])
            &&& object_le(s[p[j] as int], s[p[i] as int]) ==> p[i] < p[j]
        }
}

/// Whether `r` is `s` sorted stably by lowest address.
pub open spec fn is_address_sort(s: Seq<ObjModel>, r: Seq<ObjModel>) -> bool {
    exists|p: Seq<usize>| arranges(s, r, p)
}

fn non_empty_objects(defaults: &[ObjInfo]) -> (r: Vec<ObjInfo>)
    ensures
        obj::views(r@) == non_empty(obj::views(defaults@)),
{
    let ghost all = obj::views(defaults@);
    let ghost keep = Seq::new(all.len(), |i: int| all[i].sections.len() > 0);
    let mut r: Vec<ObjInfo> = Vec::new();
    let mut i: usize = 0;
    assert(obj::views(r@) =~= outcome::selected(all.take(0), keep));
    while i < defaults.len()
        invariant
            i <= defaults.len(),
            all == obj::views(defaults@),
            keep == Seq::new(all.len(), |i: int| all[i].sections.len() > 0),
            obj::views(r@) == outcome::selected(all.take(i as int), keep),
        decreases defaults.len() - i,
    {
        let ghost before = r@;
        assert(all.take(i + 1).drop_last() =~= all.take(i as int));
        assert(all[i as int] == defaults@[i as int]@);
        if defaults[i].sections.len() > 0 {
            let copy = defaults[i].clone();
            r.push(copy);
            assert(obj::views(r@) =~= obj::views(before).push(copy@));
        }
        i = i + 1;
    }
    assert(all.take(i as int) =~= all);
    r
}

fn lowest(sections: &Vec<ObjSection>) -> (r: Option<u32>)
    ensures
        r == lowest_address(obj::views(sections@)),
{
    let ghost all = obj::views(sections@);
    let mut r: Option<u32> = None;
    let mut i: usize = 0;
    while i < sections.len()
        invariant
            i <= sections.len(),
            all == obj::views(sections@),
            r == lowest_address(all.take(i as int)),
        decreases sections.len() - i,
    {
        proof {
            assert(all.take(i + 1).drop_last() =~= all.take(i as int));
            assert(all.take(i + 1).last() == sections@[i as int]@);
        }
        if let Some(b) = sections[i].virtual_address {
            r = match r {
                Some(a) => Some(
                    if b < a {
                        b
                    } else {
                        a
                    },
                ),
                None => Some(b),
            };
        }
        i = i + 1;
    }
    assert(all.take(i as int) =~= all);
    r
}

struct AddressOrder {
    keys: Vec<Option<u32>>,
}

impl PositionOrder for AddressOrder {
    closed spec fn count(&self) -> nat {
        self.keys@.len()
    }

    closed spec fn le(&self, a: int, b: int) -> bool {
        address_le(self.keys@[a], self.keys@[b])
    }

    proof fn lemma_total(&self, a: int, b: int) {
    }

    proof fn lemma_transitive(&self, a: int, b: int, c: int) {
    }

    fn at_most(&self, a: usize, b: usize) -> (r: bool) {
        match self.keys[a] {
            None => true,
            Some(x) => match self.keys[b] {
                None => false,
                Some(y) => x <= y,
            },
        }
    }
}

/// Sorts objects by their lowest addresses. Objects that share one stay in order.
fn sort_by_address(objects: Vec<ObjInfo>) -> (r: Vec<ObjInfo>)
    ensures
        is_address_sort(obj::views(objects@), obj::views(r@)),
{
    let ghost all = obj::views(objects@);
    let mut keys: Vec<Option<u32>> = Vec::new();
    let mut i: usize = 0;
    while i < objects.len()
        invariant
            i <= objects.len(),
            all == obj::views(objects@),
            keys.len() == i,
            forall|j: int|
                0 <= j < i ==> #[trigger] keys@[j] == lowest_address(all[j].sections),
        decreases objects.len() - i,
    {
        keys.push(lowest(&objects[i].sections));
        i = i + 1;
    }
    let by_address = AddressOrder { keys };
    let positions = order::sorted_positions(&by_address, objects.len());
    let mut slots: Vec<Option<ObjInfo>> = Vec::new();
    let mut rest = objects;
    let count: usize = rest.len();
    while rest.len() > 0
        invariant
            rest.len() + slots.len() == count,
            count == all.len(),
            forall|j: int| 0 <= j < rest.len() ==> (#[trigger] rest@[j])@ == all[j],
            forall|j: int|
                0 <= j < slots.len() ==> (#[trigger] slots@[j]) is Some && slots@[j]->0@ == all[count
                    - 1 - j],
        decreases rest.len(),
    {
        let last = rest.pop();
        slots.push(last);
    }
    let mut r: Vec<ObjInfo> = Vec::new();
    let mut k: usize = 0;
    proof {
        assert forall|j: int| 0 <= j < count implies (#[trigger] positions@[j]) < count
            && slots@[count - 1 - positions@[j]] is Some && slots@[count - 1 - positions@[j]]->0@
            == all[positions@[j] as int] by {
            assert(positions@.contains(positions@[j]));
            assert(slots@[count - 1 - positions@[j]] is Some);
        }
    }
    while k < positions.len()
        invariant
            k <= positions.len(),
            count == all.len(),
            count == slots.len(),
            positions.len() == count,
            r.len() == k,
            order::is_sorted_range(&by_address, positions@, 0, count as int),
            forall|j: int| 0 <= j < k ==> (#[trigger] r@[j])@ == all[positions@[j] as int],
            forall|j: int|
                k <= j < count ==> (#[trigger] positions@[j]) < count && slots@[count - 1
                    - positions@[j]] is Some && slots@[count - 1 - positions@[j]]->0@
                    == all[positions@[j] as int],
        decreases positions.len() - k,
    {
        let place: usize = count - 1 - positions[k];
        let ghost before = slots@;
        let mut taken: Option<ObjInfo> = None;
        core::mem::swap(&mut taken, &mut slots[place]);
        proof {
            assert forall|j: int| k + 1 <= j < count implies (#[trigger] positions@[j]) < count
                && slots@[count - 1 - positions@[j]] is Some && slots@[count - 1 - positions@[j]]->0@
                == all[positions@[j] as int] by {
                assert(order::precedes(
                    &by_address,
                    positions@[k as int] as int,
                    positions@[j] as int,
                ));
                assert(positions@[j] != positions@[k as int]);
                assert(slots@[count - 1 - positions@[j]] == before[count - 1 - positions@[j]]);
            }
        }
        r.push(taken.unwrap());
        k = k + 1;
    }
    proof {
        assert(arranges(all, obj::views(r@), positions@)) by {
            assert forall|a: int| 0 <= a < positions.len() implies (#[trigger] positions@[a])
                < all.len() by {
                assert(positions@.contains(positions@[a]));
            }
            assert forall|a: int, b: int|
                #![trigger positions@[a], positions@[b]]
                0 <= a < b < positions.len() implies {
                &&& object_le(all[positions@[a] as int], all[positions@[b] as int])
                &&& object_le(all[positions@[b] as int], all[positions@[a] as int]) ==> positions@[a]
                    < positions@[b]
            } by {
                assert(order::precedes(&by_address, positions@[a] as int, positions@[b] as int));
            }
        }
    }
    r
}

/// The link contributions of an image, by address, from the objects that it was split into. `None`
/// where some step cannot be taken.
pub fn try_link_objects(image: &ObjInfo, defaults: &[ObjInfo]) -> (r: Option<
    Result<Vec<ObjInfo>, RelinkError>,
>)
    ensures
        r is Some <==> linkable(image@, obj::views(defaults@)),
        match r {
            None => true,
            Some(Ok(objects)) => contributions(image@, obj::views(defaults@)) matches Ok(all)
                && is_address_sort(all, obj::views(objects@)),
            Some(Err(e)) => contributions(image@, obj::views(defaults@)) == Err::<
                Seq<ObjModel>,
                ErrorModel,
            >(e@),
        },
{
    let chosen = non_empty_objects(defaults);
    let restored = match tokens::restore_objects(image, chosen) {
        None => {
            return None;
        },
        Some(Ok(objects)) => objects,
        Some(Err(e)) => {
            return Some(Err(e));
        },
    };
    let filled = match zero_fill::split_zero_fill(image, restored) {
        None => {
            return None;
        },
        Some(Ok(objects)) => objects,
        Some(Err(e)) => {
            return Some(Err(e));
        },
    };
    let mut objects = match contribution::finish_objects(image, filled) {
        None => {
            return None;
        },
        Some(Ok(objects)) => objects,
        Some(Err(e)) => {
            return Some(Err(e));
        },
    };
    let ghost finished = obj::views(objects@);
    let mut padding = match gaps::pad_sections(image) {
        None => {
            return None;
        },
        Some(Ok(padding)) => padding,
        Some(Err(e)) => {
            return Some(Err(e));
        },
    };
    let ghost between = obj::views(padding@);
    objects.append(&mut padding);
    assert(obj::views(objects@) =~= finished + between);
    Some(Ok(sort_by_address(objects)))
}

/// The link contributions of an image, by address, from the objects that it was split into.
pub fn link_objects(image: &ObjInfo, defaults: &[ObjInfo]) -> (r: Result<Vec<ObjInfo>, RelinkError>)
    requires
        linkable(image@, obj::views(defaults@)),
    ensures
        match r {
            Ok(objects) => contributions(image@, obj::views(defaults@)) matches Ok(all)
                && is_address_sort(all, obj::views(objects@)),
            Err(e) => contributions(image@, obj::views(defaults@)) == Err::<
                Seq<ObjModel>,
                ErrorModel,
            >(e@),
        },
{
    try_link_objects(image, defaults).unwrap()
}

} // verus!
