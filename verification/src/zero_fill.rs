//! The boundary between initialized bytes and zero fill.
//!
//! What an image stores of a section ends at its raw size. Storage is never inferred from byte
//! values: opaque sections can contain long runs of zeros.
use crate::error::{ErrorModel, RelinkError};
use crate::obj;
use crate::obj::{
    ObjInfo, ObjModel, ObjRelocations, ObjSection, ObjSectionKind, ObjSymbol, SectionModel,
    SymbolModel,
};
use crate::outcome;
use vstd::prelude::*;
use vstd::string::StringExecFns;

verus! {

/// The address after the last byte that the image stores of a section.
pub open spec fn initialized_end(original: SectionModel) -> int {
    original.address + original.original_raw_size->0
}

/// Whether the image stores less of a section than its size.
pub open spec fn has_zero_fill(original: SectionModel) -> bool {
    &&& original.original_raw_size is Some
    &&& initialized_end(original) < original.address + original.size
}

/// Whether a part of an image section reaches into the zero fill of `original`.
pub open spec fn reaches_zero_fill(original: SectionModel, s: SectionModel) -> bool {
    s.name == original.name && s.virtual_address->0 + s.size > initialized_end(original)
}

/// How many bytes of a part stand before the zero fill.
pub open spec fn cut(original: SectionModel, s: SectionModel) -> u32 {
    let start = s.virtual_address->0;
    if initialized_end(original) > start {
        (initialized_end(original) - start) as u32
    } else {
        0
    }
}

/// Section flags with uninitialized in place of initialized data.
pub open spec fn uninitialized_flags(flags: Option<u32>) -> Option<u32> {
    match flags {
        Some(flags) => Some((flags & !0x40u32) | 0x80u32),
        None => None,
    }
}

/// A section as zero fill.
pub open spec fn as_zero_fill(s: SectionModel) -> SectionModel {
    SectionModel {
        kind: ObjSectionKind::Bss,
        name: s.name.push('z'),
        original_flags: uninitialized_flags(s.original_flags),
        data: Seq::empty(),
        ..s
    }
}

/// The initialized part of a section that is cut.
pub open spec fn head(s: SectionModel, n: u32) -> SectionModel {
    SectionModel {
        size: n,
        data: if n <= s.data.len() {
            s.data.take(n as int)
        } else {
            s.data
        },
        ..s
    }
}

/// The zero fill of a section that is cut.
pub open spec fn tail(s: SectionModel, n: u32) -> SectionModel {
    SectionModel {
        size: (s.size - n) as u32,
        virtual_address: Some((s.virtual_address->0 + n) as u32),
        relocations: Seq::empty(),
        ..as_zero_fill(s)
    }
}

/// A section with what is initialized apart from its zero fill: what stays in its place, and what
/// becomes a section of its own.
pub open spec fn split_section(original: SectionModel, s: SectionModel) -> Result<
    (SectionModel, Option<SectionModel>),
    ErrorModel,
> {
    let n = cut(original, s);
    if !reaches_zero_fill(original, s) {
        Ok((s, None))
    } else if exists|i: int|
        0 <= i < s.relocations.len() && (#[trigger] s.relocations[i]).0 >= n {
        Err(ErrorModel::RelocationInZeroFill)
    } else if n == 0 {
        Ok((as_zero_fill(s), None))
    } else {
        Ok((head(s, n), Some(tail(s, n))))
    }
}

/// Whether a part of an image section has an address, and ends in the address space.
pub open spec fn splittable_section(original: SectionModel, s: SectionModel) -> bool {
    &&& s.virtual_address is Some
    &&& s.name == original.name ==> s.virtual_address->0 + s.size <= u32::MAX
}

pub open spec fn split_sections(original: SectionModel, sections: Seq<SectionModel>) -> Seq<
    Result<(SectionModel, Option<SectionModel>), ErrorModel>,
> {
    Seq::new(sections.len(), |i: int| split_section(original, sections[i]))
}

pub open spec fn heads(parts: Seq<(SectionModel, Option<SectionModel>)>) -> Seq<SectionModel> {
    Seq::new(parts.len(), |i: int| parts[i].0)
}

pub open spec fn tails(parts: Seq<(SectionModel, Option<SectionModel>)>) -> Seq<SectionModel> {
    outcome::present(Seq::new(parts.len(), |i: int| parts[i].1))
}

/// A symbol of an object whose sections were cut. It moves with the zero fill that it stands in.
pub open spec fn moved(parts: Seq<(SectionModel, Option<SectionModel>)>, s: SymbolModel) -> SymbolModel {
    match s.section {
        Some(i) => if i < parts.len() && parts[i as int].1 is Some && s.address
            >= parts[i as int].0.size {
            SymbolModel {
                section: Some((parts.len() + tails(parts.take(i as int)).len()) as usize),
                address: (s.address - parts[i as int].0.size) as u32,
                ..s
            }
        } else {
            s
        },
        None => s,
    }
}

/// An object whose sections were cut: the zero fill follows the sections that were there.
pub open spec fn with_parts(o: ObjModel, parts: Seq<(SectionModel, Option<SectionModel>)>) -> ObjModel {
    ObjModel {
        sections: heads(parts) + tails(parts),
        symbols: Seq::new(o.symbols.len(), |i: int| moved(parts, o.symbols[i])),
        ..o
    }
}

pub open spec fn split_object(original: SectionModel, o: ObjModel) -> Result<ObjModel, ErrorModel> {
    match outcome::collected(split_sections(original, o.sections)) {
        Ok(parts) => Ok(with_parts(o, parts)),
        Err(e) => Err(e),
    }
}

/// Whether each section that is reached can be split.
pub open spec fn splittable_object(original: SectionModel, o: ObjModel) -> bool {
    forall|i: int|
        0 <= i < o.sections.len() && outcome::reached(split_sections(original, o.sections), i)
            ==> splittable_section(original, #[trigger] o.sections[i])
}

pub open spec fn split_objects(original: SectionModel, objects: Seq<ObjModel>) -> Seq<
    Result<ObjModel, ErrorModel>,
> {
    Seq::new(objects.len(), |i: int| split_object(original, objects[i]))
}

/// The objects with the zero fill of one image section apart.
pub open spec fn zero_fill_step(original: SectionModel, objects: Seq<ObjModel>) -> Result<
    Seq<ObjModel>,
    ErrorModel,
> {
    if has_zero_fill(original) {
        outcome::collected(split_objects(original, objects))
    } else {
        Ok(objects)
    }
}

/// Whether an image section ends in the address space, and each object that is reached can be
/// split.
pub open spec fn step_defined(original: SectionModel, objects: Seq<ObjModel>) -> bool {
    &&& original.original_raw_size matches Some(raw_size) ==> original.address + raw_size
        <= u32::MAX && original.address + original.size <= u32::MAX
    &&& has_zero_fill(original) ==> forall|i: int|
        0 <= i < objects.len() && outcome::reached(split_objects(original, objects), i)
            ==> splittable_object(original, #[trigger] objects[i])
}

/// The objects with the zero fill of the first `n` image sections apart.
pub open spec fn zero_filled(image: ObjModel, objects: Seq<ObjModel>, n: int) -> Result<
    Seq<ObjModel>,
    ErrorModel,
>
    decreases n,
{
    if n <= 0 {
        Ok(objects)
    } else {
        match zero_filled(image, objects, n - 1) {
            Ok(objects) => zero_fill_step(image.sections[n - 1], objects),
            Err(e) => Err(e),
        }
    }
}

/// Whether each of the first `n` image sections that is reached can be split off.
pub open spec fn zero_fillable(image: ObjModel, objects: Seq<ObjModel>, n: int) -> bool
    decreases n,
{
    n > 0 ==> {
        &&& zero_fillable(image, objects, n - 1)
        &&& zero_filled(image, objects, n - 1) matches Ok(before) ==> step_defined(
            image.sections[n - 1],
            before,
        )
    }
}

pub open spec fn opt_section(s: Option<ObjSection>) -> Option<SectionModel> {
    match s {
        Some(s) => Some(s@),
        None => None,
    }
}

/// Turns a section into zero fill.
pub fn make_zero_fill(section: &mut ObjSection)
    ensures
        final(section)@ == as_zero_fill(old(section)@),
{
    section.kind = ObjSectionKind::Bss;
    let mut name = section.name.clone();
    proof {
        reveal_strlit("z");
    }
    name.append("z");
    assert(name@ =~= section.name@.push('z'));
    section.name = name;
    section.original_flags = match section.original_flags {
        Some(flags) => Some((flags & !0x40u32) | 0x80u32),
        None => None,
    };
    section.data = Vec::new();
    assert(section@ =~= as_zero_fill(old(section)@));
}

fn cut_section(original: &ObjSection, end: u32, section: &mut ObjSection) -> (r: Option<
    Result<Option<ObjSection>, RelinkError>,
>)
    requires
        original.original_raw_size is Some,
        end == initialized_end(original@),
    ensures
        r is Some <==> splittable_section(original@, old(section)@),
        match r {
            None => true,
            Some(Ok(t)) => split_section(original@, old(section)@) == Ok::<
                (SectionModel, Option<SectionModel>),
                ErrorModel,
            >((final(section)@, opt_section(t))),
            Some(Err(e)) => split_section(original@, old(section)@) == Err::<
                (SectionModel, Option<SectionModel>),
                ErrorModel,
            >(e@),
        },
{
    let ghost before = section@;
    let start: u32 = match section.virtual_address {
        Some(start) => start,
        None => {
            return None;
        },
    };
    if section.name != original.name {
        return Some(Ok(None));
    }
    if section.size > u32::MAX - start {
        return None;
    }
    if start + section.size <= end {
        return Some(Ok(None));
    }
    let n: u32 = if end > start {
        end - start
    } else {
        0
    };
    let entries = section.relocations.entries();
    let mut i: usize = 0;
    while i < entries.len()
        invariant
            i <= entries.len(),
            entries@ == before.relocations,
            section@ == before,
            n == cut(original@, before),
            reaches_zero_fill(original@, before),
            splittable_section(original@, before),
            before == old(section)@,
            forall|j: int| 0 <= j < i ==> (#[trigger] before.relocations[j]).0 < n,
        decreases entries.len() - i,
    {
        assert(before.relocations[i as int] == entries@[i as int]);
        if entries[i].0 >= n {
            return Some(Err(RelinkError::RelocationInZeroFill));
        }
        i = i + 1;
    }
    if n == 0 {
        make_zero_fill(section);
        return Some(Ok(None));
    }
    let mut rest = section.clone();
    rest.size = section.size - n;
    rest.virtual_address = Some(start + n);
    rest.relocations = ObjRelocations::default();
    make_zero_fill(&mut rest);
    section.size = n;
    if (n as usize) < section.data.len() {
        section.data.truncate(n as usize);
    }
    proof {
        assert(section@ =~= head(before, n));
        assert(rest@ =~= tail(before, n));
    }
    Some(Ok(Some(rest)))
}

/// Where the symbols of a section that was cut go: the section of its zero fill, and the cut.
type Move = Option<(usize, u32)>;

fn move_symbols(symbols: &mut Vec<ObjSymbol>, moves: &Vec<Move>, Ghost(parts): Ghost<
    Seq<(SectionModel, Option<SectionModel>)>,
>)
    requires
        moves.len() == parts.len(),
        forall|i: int|
            0 <= i < moves.len() ==> (match #[trigger] moves@[i] {
                Some(m) => parts[i].1 is Some && m.0 == parts.len() + tails(parts.take(i)).len()
                    && m.1 == parts[i].0.size,
                None => parts[i].1 is None,
            }),
    ensures
        obj::views(final(symbols)@) == Seq::new(
            old(symbols)@.len(),
            |i: int| moved(parts, old(symbols)@[i]@),
        ),
{
    let ghost before = symbols@;
    let mut i: usize = 0;
    while i < symbols.len()
        invariant
            i <= symbols.len(),
            symbols.len() == before.len(),
            moves.len() == parts.len(),
            forall|j: int|
                0 <= j < moves.len() ==> (match #[trigger] moves@[j] {
                    Some(m) => parts[j].1 is Some && m.0 == parts.len() + tails(parts.take(j)).len()
                        && m.1 == parts[j].0.size,
                    None => parts[j].1 is None,
                }),
            forall|j: int|
                0 <= j < symbols.len() ==> (#[trigger] symbols@[j])@ == (if j < i {
                    moved(parts, before[j]@)
                } else {
                    before[j]@
                }),
        decreases symbols.len() - i,
    {
        let section = symbols[i].section;
        let address: u32 = symbols[i].address;
        assert(symbols@[i as int]@ == before[i as int]@);
        if let Some(k) = section {
            if k < moves.len() {
                if let Some(to) = moves[k] {
                    if address >= to.1 {
                        let mut symbol = symbols[i].clone();
                        symbol.section = Some(to.0);
                        symbol.address = address - to.1;
                        symbols.set(i, symbol);
                    }
                }
            }
        }
        i = i + 1;
    }
    assert(obj::views(symbols@) =~= Seq::new(before.len(), |j: int| moved(parts, before[j]@)));
}

pub proof fn lemma_tails_push(parts: Seq<(SectionModel, Option<SectionModel>)>, n: int)
    requires
        0 <= n < parts.len(),
    ensures
        tails(parts.take(n + 1)) == (match parts[n].1 {
            Some(t) => tails(parts.take(n)).push(t),
            None => tails(parts.take(n)),
        }),
{
    let longer = parts.take(n + 1);
    let all = Seq::new(longer.len(), |i: int| longer[i].1);
    let shorter = parts.take(n);
    assert(all.drop_last() =~= Seq::new(shorter.len(), |i: int| shorter[i].1));
    assert(all.last() == parts[n].1);
}

fn cut_object(original: &ObjSection, end: u32, object: &mut ObjInfo) -> (r: Option<
    Result<(), RelinkError>,
>)
    requires
        original.original_raw_size is Some,
        end == initialized_end(original@),
    ensures
        r is Some <==> splittable_object(original@, old(object)@),
        match r {
            None => true,
            Some(Ok(_)) => split_object(original@, old(object)@) == Ok::<ObjModel, ErrorModel>(
                final(object)@,
            ),
            Some(Err(e)) => split_object(original@, old(object)@) == Err::<ObjModel, ErrorModel>(e@),
        },
{
    let ghost before = object@;
    let ghost rs = split_sections(original@, before.sections);
    let ghost mut parts: Seq<(SectionModel, Option<SectionModel>)> = Seq::empty();
    let count: usize = object.sections.len();
    let mut cuts: Vec<Option<ObjSection>> = Vec::new();
    let mut i: usize = 0;
    while i < count
        invariant
            i <= count,
            count == object.sections.len(),
            count == before.sections.len(),
            original.original_raw_size is Some,
            end == initialized_end(original@),
            before == old(object)@,
            rs == split_sections(original@, before.sections),
            forall|j: int|
                0 <= j < i ==> splittable_section(original@, #[trigger] before.sections[j]),
            object.kind == old(object).kind,
            object.name == old(object).name,
            object.symbols@ == old(object).symbols@,
            parts.len() == i,
            cuts.len() == i,
            forall|j: int|
                0 <= j < i ==> #[trigger] rs[j] == Ok::<
                    (SectionModel, Option<SectionModel>),
                    ErrorModel,
                >(parts[j]),
            forall|j: int| 0 <= j < i ==> (#[trigger] object.sections@[j])@ == parts[j].0,
            forall|j: int|
                i <= j < count ==> (#[trigger] object.sections@[j])@ == before.sections[j],
            forall|j: int| 0 <= j < i ==> opt_section(#[trigger] cuts@[j]) == parts[j].1,
        decreases count - i,
    {
        assert(outcome::reached(rs, i as int));
        assert(object.sections@[i as int]@ == before.sections[i as int]);
        assert(rs[i as int] == split_section(original@, before.sections[i as int]));
        let ghost seen = object.sections@;
        let t = match cut_section(original, end, &mut object.sections[i]) {
            None => {
                return None;
            },
            Some(Ok(t)) => t,
            Some(Err(e)) => {
                proof {
                    outcome::lemma_collected_err(rs, i as int, e@);
                    assert forall|j: int|
                        0 <= j < before.sections.len() && outcome::reached(
                            rs,
                            j,
                        ) implies splittable_section(original@, #[trigger] before.sections[j]) by {
                        if j > i {
                            assert(rs[i as int] is Ok);
                        }
                    }
                }
                return Some(Err(e));
            },
        };
        proof {
            parts = parts.push((object.sections@[i as int]@, opt_section(t)));
            assert forall|j: int| 0 <= j < count && j != i implies #[trigger] object.sections@[j]
                == seen[j] by {}
        }
        cuts.push(t);
        i = i + 1;
    }
    assert(splittable_object(original@, before));
    let mut moves: Vec<Move> = Vec::new();
    let mut k: usize = 0;
    proof {
        assert(tails(parts.take(0)) =~= Seq::<SectionModel>::empty());
        assert(obj::views(object.sections@) =~= heads(parts) + tails(parts.take(0)));
    }
    while k < count
        invariant
            k <= count,
            parts.len() == count,
            cuts.len() == count,
            moves.len() == k,
            object.kind == old(object).kind,
            object.name == old(object).name,
            object.symbols@ == old(object).symbols@,
            obj::views(object.sections@) == heads(parts) + tails(parts.take(k as int)),
            forall|j: int| k <= j < count ==> opt_section(#[trigger] cuts@[j]) == parts[j].1,
            forall|j: int|
                0 <= j < moves.len() ==> (match #[trigger] moves@[j] {
                    Some(m) => parts[j].1 is Some && m.0 == count + tails(parts.take(j)).len()
                        && m.1 == parts[j].0.size,
                    None => parts[j].1 is None,
                }),
        decreases count - k,
    {
        let ghost seen = object.sections@;
        let ghost earlier = cuts@;
        let mut t: Option<ObjSection> = None;
        core::mem::swap(&mut t, &mut cuts[k]);
        assert(opt_section(earlier[k as int]) == parts[k as int].1);
        proof {
            lemma_tails_push(parts, k as int);
            assert(obj::views(seen)[k as int] == parts[k as int].0);
            assert(seen.len() == obj::views(seen).len());
        }
        match t {
            Some(t) => {
                let new_index: usize = object.sections.len();
                moves.push(Some((new_index, object.sections[k].size)));
                object.sections.push(t);
                assert(obj::views(object.sections@) =~= obj::views(seen).push(t@));
                assert(obj::views(object.sections@) =~= heads(parts) + tails(parts.take(k + 1)));
            },
            None => {
                moves.push(None);
            },
        }
        k = k + 1;
    }
    move_symbols(&mut object.symbols, &moves, Ghost(parts));
    proof {
        outcome::lemma_collected_ok(rs, parts);
        assert(parts.take(count as int) =~= parts);
        let model = with_parts(before, parts);
        assert(object@.symbols =~= model.symbols);
        assert(object@ =~= model);
    }
    Some(Ok(()))
}

/// Sets the zero fill of one image section apart in the objects. `None` where the section or a
/// part of it does not end in the address space.
fn split_one(original: &ObjSection, objects: Vec<ObjInfo>) -> (r: Option<
    Result<Vec<ObjInfo>, RelinkError>,
>)
    ensures
        r is Some <==> step_defined(original@, obj::views(objects@)),
        match r {
            None => true,
            Some(Ok(v)) => zero_fill_step(original@, obj::views(objects@)) == Ok::<
                Seq<ObjModel>,
                ErrorModel,
            >(obj::views(v@)),
            Some(Err(e)) => zero_fill_step(original@, obj::views(objects@)) == Err::<
                Seq<ObjModel>,
                ErrorModel,
            >(e@),
        },
{
    let mut linked = objects;
    let raw_size: u32 = match original.original_raw_size {
        Some(raw_size) => raw_size,
        None => {
            return Some(Ok(linked));
        },
    };
    if raw_size > u32::MAX - original.address || original.size > u32::MAX - original.address {
        return None;
    }
    let end: u32 = original.address + raw_size;
    if end >= original.address + original.size {
        return Some(Ok(linked));
    }
    let ghost before = obj::views(linked@);
    let ghost rs = split_objects(original@, before);
    let mut i: usize = 0;
    while i < linked.len()
        invariant
            i <= linked.len(),
            before == obj::views(objects@),
            original.original_raw_size is Some,
            end == initialized_end(original@),
            has_zero_fill(original@),
            end <= u32::MAX,
            original.address + original.size <= u32::MAX,
            rs == split_objects(original@, before),
            linked.len() == before.len(),
            forall|j: int| 0 <= j < i ==> splittable_object(original@, #[trigger] before[j]),
            forall|j: int|
                0 <= j < i ==> #[trigger] rs[j] == Ok::<ObjModel, ErrorModel>(linked@[j]@),
            forall|j: int| i <= j < linked.len() ==> (#[trigger] linked@[j])@ == before[j],
        decreases linked.len() - i,
    {
        assert(outcome::reached(rs, i as int));
        assert(linked@[i as int]@ == before[i as int]);
        assert(rs[i as int] == split_object(original@, before[i as int]));
        let ghost seen = linked@;
        match cut_object(original, end, &mut linked[i]) {
            None => {
                return None;
            },
            Some(Ok(_)) => {},
            Some(Err(e)) => {
                proof {
                    outcome::lemma_collected_err(rs, i as int, e@);
                    assert forall|j: int|
                        0 <= j < before.len() && outcome::reached(rs, j) implies splittable_object(
                        original@,
                        #[trigger] before[j],
                    ) by {
                        if j > i {
                            assert(rs[i as int] is Ok);
                        }
                    }
                }
                return Some(Err(e));
            },
        }
        proof {
            assert forall|j: int| 0 <= j < linked.len() && j != i implies #[trigger] linked@[j]
                == seen[j] by {}
        }
        i = i + 1;
    }
    proof {
        outcome::lemma_collected_ok(rs, obj::views(linked@));
    }
    Some(Ok(linked))
}

/// Sets the zero fill of the image sections apart in the objects. `None` where a section does not
/// end in the address space, or has no address.
pub fn split_zero_fill(image: &ObjInfo, objects: Vec<ObjInfo>) -> (r: Option<
    Result<Vec<ObjInfo>, RelinkError>,
>)
    ensures
        r is Some <==> zero_fillable(
            image@,
            obj::views(objects@),
            image.sections.len() as int,
        ),
        match r {
            None => true,
            Some(Ok(v)) => zero_filled(
                image@,
                obj::views(objects@),
                image.sections.len() as int,
            ) == Ok::<Seq<ObjModel>, ErrorModel>(obj::views(v@)),
            Some(Err(e)) => zero_filled(
                image@,
                obj::views(objects@),
                image.sections.len() as int,
            ) == Err::<Seq<ObjModel>, ErrorModel>(e@),
        },
{
    let ghost start = obj::views(objects@);
    let ghost total = image.sections.len() as int;
    let mut linked = objects;
    let mut n: usize = 0;
    while n < image.sections.len()
        invariant
            n <= image.sections.len(),
            start == obj::views(objects@),
            total == image.sections.len(),
            zero_fillable(image@, start, n as int),
            zero_filled(image@, start, n as int) == Ok::<Seq<ObjModel>, ErrorModel>(
                obj::views(linked@),
            ),
        decreases image.sections.len() - n,
    {
        let original = &image.sections[n];
        assert(image@.sections[n as int] == original@);
        let ghost before = obj::views(linked@);
        assert(zero_filled(image@, start, n + 1) == zero_fill_step(original@, before));
        assert(zero_fillable(image@, start, n + 1) == step_defined(original@, before));
        match split_one(original, linked) {
            None => {
                proof {
                    if zero_fillable(image@, start, total) {
                        lemma_zero_fillable_before(image@, start, n + 1, total);
                    }
                }
                return None;
            },
            Some(Ok(v)) => {
                linked = v;
            },
            Some(Err(e)) => {
                proof {
                    lemma_zero_filled_err(image@, start, n + 1, total);
                }
                return Some(Err(e));
            },
        }
        n = n + 1;
    }
    Some(Ok(linked))
}

proof fn lemma_zero_fillable_before(image: ObjModel, objects: Seq<ObjModel>, m: int, n: int)
    requires
        0 <= m <= n,
        zero_fillable(image, objects, n),
    ensures
        zero_fillable(image, objects, m),
    decreases n - m,
{
    if m < n {
        lemma_zero_fillable_before(image, objects, m, n - 1);
    }
}

proof fn lemma_zero_filled_err(image: ObjModel, objects: Seq<ObjModel>, m: int, n: int)
    requires
        0 <= m <= n,
        zero_filled(image, objects, m) is Err,
    ensures
        zero_filled(image, objects, n) == zero_filled(image, objects, m),
        zero_fillable(image, objects, m) ==> zero_fillable(image, objects, n),
    decreases n - m,
{
    if m < n {
        lemma_zero_filled_err(image, objects, m, n - 1);
    }
}

} // verus!
