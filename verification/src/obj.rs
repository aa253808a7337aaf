//! The split image and its objects: sections, symbols, relocations and splits, and their models.
use crate::error::RelinkError;
use crate::order;
use crate::outcome;
use vstd::prelude::*;
use vstd::slice::{slice_subrange, slice_to_vec};

verus! {

/// The models of a sequence of values.
pub open spec fn views<T: View>(s: Seq<T>) -> Seq<T::V> {
    Seq::new(s.len(), |i: int| s[i]@)
}

/// The position of a symbol in its object.
pub type SymbolIndex = usize;

/// The position of a section in its object.
pub type SectionIndex = usize;

#[derive(Clone, Copy, Debug, PartialEq, Eq, Structural)]
pub enum ObjKind {
    /// Fully linked; addresses are absolute.
    Executable,
    /// Relocatable; addresses are offsets into a section.
    Relocatable,
}

#[derive(Clone, Copy, Debug, PartialEq, Eq, Structural)]
pub enum ObjSectionKind {
    Code,
    Data,
    ReadOnlyData,
    Bss,
}

#[derive(Clone, Copy, Debug, PartialEq, Eq, Structural)]
pub enum ObjSymbolKind {
    Unknown,
    Function,
    Object,
    Section,
}

#[derive(Clone, Copy, Debug, PartialEq, Eq, Structural)]
pub enum ObjRelocKind {
    Absolute,
    PpcAddr16Hi,
    PpcAddr16Ha,
    PpcAddr16Lo,
    PpcRel24,
    PpcRel14,
    PpcEmbSda21,
}

#[derive(Clone, Copy, Debug, PartialEq, Eq, Structural)]
pub enum ObjSymbolScope {
    Unknown,
    Global,
    Weak,
    Local,
}

/// What a bit of an [`ObjSymbolFlagSet`] stands for.
#[derive(Clone, Copy, Debug, PartialEq, Eq, Structural)]
pub enum ObjSymbolFlags {
    Global,
    Local,
    Weak,
    Common,
    Hidden,
    /// Defined as a COFF external, whatever its kind.
    CoffExternal,
}

/// A set of symbol flags, one bit each. Bits without a name are carried along.
#[derive(Clone, Copy, Debug, PartialEq, Eq, Structural)]
pub struct ObjSymbolFlagSet(pub u32);

impl ObjSymbolFlags {
    pub open spec fn mask(self) -> u32 {
        match self {
            ObjSymbolFlags::Global => 0x1,
            ObjSymbolFlags::Local => 0x2,
            ObjSymbolFlags::Weak => 0x4,
            ObjSymbolFlags::Common => 0x8,
            ObjSymbolFlags::Hidden => 0x10,
            ObjSymbolFlags::CoffExternal => 0x8000_0000,
        }
    }

    /// The bit of this flag.
    pub fn bit(self) -> (r: u32)
        ensures
            r == self.mask(),
    {
        match self {
            ObjSymbolFlags::Global => 0x1,
            ObjSymbolFlags::Local => 0x2,
            ObjSymbolFlags::Weak => 0x4,
            ObjSymbolFlags::Common => 0x8,
            ObjSymbolFlags::Hidden => 0x10,
            ObjSymbolFlags::CoffExternal => 0x8000_0000,
        }
    }
}

impl ObjSymbolFlagSet {
    pub open spec fn has(self, flag: ObjSymbolFlags) -> bool {
        self.0 & flag.mask() != 0
    }

    pub open spec fn with(self, flag: ObjSymbolFlags) -> ObjSymbolFlagSet {
        ObjSymbolFlagSet(self.0 | flag.mask())
    }

    /// This set with `scope` as its only scope flag.
    pub open spec fn scoped(self, scope: ObjSymbolScope) -> ObjSymbolFlagSet {
        let rest = ObjSymbolFlagSet(self.0 & !0x7u32);
        match scope {
            ObjSymbolScope::Unknown => rest,
            ObjSymbolScope::Global => rest.with(ObjSymbolFlags::Global),
            ObjSymbolScope::Weak => rest.with(ObjSymbolFlags::Weak),
            ObjSymbolScope::Local => rest.with(ObjSymbolFlags::Local),
        }
    }

    pub fn contains(&self, flag: ObjSymbolFlags) -> (r: bool)
        ensures
            r == self.has(flag),
    {
        self.0 & flag.bit() != 0
    }

    pub fn insert(&mut self, flag: ObjSymbolFlags)
        ensures
            *final(self) == old(self).with(flag),
    {
        self.0 = self.0 | flag.bit();
    }

    pub fn is_local(&self) -> (r: bool)
        ensures
            r == self.has(ObjSymbolFlags::Local),
    {
        self.contains(ObjSymbolFlags::Local)
    }

    /// Makes `scope` the only scope flag.
    pub fn set_scope(&mut self, scope: ObjSymbolScope)
        ensures
            *final(self) == old(self).scoped(scope),
    {
        self.0 = self.0 & !0x7u32;
        match scope {
            ObjSymbolScope::Unknown => {},
            ObjSymbolScope::Global => {
                self.insert(ObjSymbolFlags::Global);
            },
            ObjSymbolScope::Weak => {
                self.insert(ObjSymbolFlags::Weak);
            },
            ObjSymbolScope::Local => {
                self.insert(ObjSymbolFlags::Local);
            },
        }
    }
}

impl Default for ObjSymbolFlagSet {
    fn default() -> (r: Self)
        ensures
            r == ObjSymbolFlagSet(0),
    {
        ObjSymbolFlagSet(0)
    }
}

/// A named place in an object.
#[derive(Debug)]
pub struct ObjSymbol {
    pub name: String,
    pub demangled_name: Option<String>,
    pub address: u32,
    pub section: Option<SectionIndex>,
    pub size: u32,
    pub size_known: bool,
    pub flags: ObjSymbolFlagSet,
    pub kind: ObjSymbolKind,
}

#[verifier::ext_equal]
pub struct SymbolModel {
    pub name: Seq<char>,
    pub demangled_name: Option<Seq<char>>,
    pub address: u32,
    pub section: Option<SectionIndex>,
    pub size: u32,
    pub size_known: bool,
    pub flags: ObjSymbolFlagSet,
    pub kind: ObjSymbolKind,
}

pub open spec fn opt_text(s: Option<String>) -> Option<Seq<char>> {
    match s {
        Some(s) => Some(s@),
        None => None,
    }
}

impl View for ObjSymbol {
    type V = SymbolModel;

    open spec fn view(&self) -> SymbolModel {
        SymbolModel {
            name: self.name@,
            demangled_name: opt_text(self.demangled_name),
            address: self.address,
            section: self.section,
            size: self.size,
            size_known: self.size_known,
            flags: self.flags,
            kind: self.kind,
        }
    }
}

impl Clone for ObjSymbol {
    fn clone(&self) -> (r: Self)
        ensures
            r@ == self@,
    {
        let demangled_name = match &self.demangled_name {
            Some(s) => Some(s.clone()),
            None => None,
        };
        ObjSymbol {
            name: self.name.clone(),
            demangled_name,
            address: self.address,
            section: self.section,
            size: self.size,
            size_known: self.size_known,
            flags: self.flags,
            kind: self.kind,
        }
    }
}

impl Default for ObjSymbol {
    fn default() -> (r: Self)
        ensures
            r@ == (SymbolModel {
                name: Seq::empty(),
                demangled_name: None,
                address: 0,
                section: None,
                size: 0,
                size_known: false,
                flags: ObjSymbolFlagSet(0),
                kind: ObjSymbolKind::Unknown,
            }),
    {
        ObjSymbol {
            name: String::new(),
            demangled_name: None,
            address: 0,
            section: None,
            size: 0,
            size_known: false,
            flags: ObjSymbolFlagSet(0),
            kind: ObjSymbolKind::Unknown,
        }
    }
}

/// A reference to a symbol that the linker resolves.
#[derive(Clone, Copy, Debug, PartialEq, Eq)]
pub struct ObjReloc {
    pub kind: ObjRelocKind,
    pub target_symbol: SymbolIndex,
    pub addend: i64,
    pub module: Option<u32>,
}

/// The relocations of a section, at most one at each address, in ascending order.
#[derive(Debug)]
pub struct ObjRelocations {
    entries: Vec<(u32, ObjReloc)>,
}

/// Whether the addresses rise strictly.
pub open spec fn ascending(s: Seq<(u32, ObjReloc)>) -> bool {
    forall|i: int, j: int| 0 <= i < j < s.len() ==> (#[trigger] s[i]).0 < (#[trigger] s[j]).0
}

/// Whether no two entries share an address.
pub open spec fn distinct_addresses(s: Seq<(u32, ObjReloc)>) -> bool {
    forall|i: int, j: int| 0 <= i < j < s.len() ==> (#[trigger] s[i]).0 != (#[trigger] s[j]).0
}

impl View for ObjRelocations {
    type V = Seq<(u32, ObjReloc)>;

    closed spec fn view(&self) -> Seq<(u32, ObjReloc)> {
        self.entries@
    }
}

/// Inserts an entry at its place, unless its address is taken.
fn insert_entry(entries: &mut Vec<(u32, ObjReloc)>, address: u32, reloc: ObjReloc) -> (inserted: bool)
    requires
        ascending(old(entries)@),
    ensures
        ascending(final(entries)@),
        inserted <==> forall|i: int|
            0 <= i < old(entries).len() ==> (#[trigger] old(entries)@[i]).0 != address,
        !inserted ==> final(entries)@ == old(entries)@,
        inserted ==> final(entries).len() == old(entries).len() + 1,
        inserted ==> forall|e: (u32, ObjReloc)| #[trigger]
            final(entries)@.contains(e) <==> old(entries)@.contains(e) || e == (address, reloc),
{
    let mut at: usize = entries.len();
    while at > 0 && entries[at - 1].0 >= address
        invariant
            at <= entries.len(),
            entries@ == old(entries)@,
            ascending(old(entries)@),
            forall|i: int| at <= i < entries.len() ==> (#[trigger] entries@[i]).0 > address,
        decreases at,
    {
        if entries[at - 1].0 == address {
            return false;
        }
        at = at - 1;
    }
    let ghost before = entries@;
    entries.insert(at, (address, reloc));
    proof {
        let after = entries@;
        assert forall|i: int, j: int| 0 <= i < j < after.len() implies (#[trigger] after[i]).0 < (
        #[trigger] after[j]).0 by {
            if i < at && at > 0 {
                assert(before[i].0 <= before[at - 1].0) by {
                    if i < at - 1 {
                        assert(before[i].0 < before[at - 1].0);
                    }
                }
            }
        }
        assert forall|e: (u32, ObjReloc)| #[trigger] after.contains(e) <==> before.contains(e) || e
            == (address, reloc) by {
            if before.contains(e) {
                let i = choose|i: int| 0 <= i < before.len() && before[i] == e;
                if i < at {
                    assert(after[i] == e);
                } else {
                    assert(after[i + 1] == e);
                }
            }
            if e == (address, reloc) {
                assert(after[at as int] == e);
            }
            if after.contains(e) {
                let i = choose|i: int| 0 <= i < after.len() && after[i] == e;
                if i < at {
                    assert(before[i] == e);
                } else if i > at {
                    assert(before[i - 1] == e);
                }
            }
        }
    }
    true
}

impl ObjRelocations {
    #[verifier::type_invariant]
    closed spec fn wf(self) -> bool {
        ascending(self.entries@)
    }

    /// Arranges relocations by address. Refuses two at one address.
    pub fn new(relocations: Vec<(u32, ObjReloc)>) -> (r: Result<ObjRelocations, RelinkError>)
        ensures
            r is Ok <==> distinct_addresses(relocations@),
            match r {
                Ok(o) => {
                    &&& ascending(o@)
                    &&& o@.len() == relocations.len()
                    &&& forall|e: (u32, ObjReloc)| #[trigger]
                        o@.contains(e) <==> relocations@.contains(e)
                    &&& ascending(relocations@) ==> o@ == relocations@
                },
                Err(e) => e matches RelinkError::DuplicateRelocation(a) && exists|i: int, j: int|
                    0 <= i < j < relocations.len() && (#[trigger] relocations@[i]).0 == a && (
                    #[trigger] relocations@[j]).0 == a,
            },
    {
        let mut entries: Vec<(u32, ObjReloc)> = Vec::new();
        let mut i: usize = 0;
        while i < relocations.len()
            invariant
                i <= relocations.len(),
                ascending(entries@),
                entries.len() == i,
                distinct_addresses(relocations@.take(i as int)),
                forall|e: (u32, ObjReloc)| #[trigger]
                    entries@.contains(e) <==> relocations@.take(i as int).contains(e),
            decreases relocations.len() - i,
        {
            let (address, reloc) = relocations[i];
            let ghost before = entries@;
            let ghost seen = relocations@.take(i as int);
            let ghost next = relocations@.take(i + 1);
            let inserted = insert_entry(&mut entries, address, reloc);
            if !inserted {
                proof {
                    let k = choose|k: int| 0 <= k < before.len() && (#[trigger] before[k]).0 == address;
                    assert(before.contains(before[k]));
                    let m = choose|m: int| 0 <= m < seen.len() && seen[m] == before[k];
                    assert(relocations@[m].0 == address && relocations@[i as int].0 == address);
                }
                return Err(RelinkError::DuplicateRelocation(address));
            }
            proof {
                assert(next =~= seen.push((address, reloc)));
                assert forall|k: int, m: int| 0 <= k < m < next.len() implies (#[trigger] next[k]).0
                    != (#[trigger] next[m]).0 by {
                    assert(seen.contains(next[k]));
                    if m == i {
                        assert(before.contains(next[k]));
                        let q = choose|q: int| 0 <= q < before.len() && before[q] == next[k];
                        assert(before[q].0 != address);
                    } else {
                        assert(seen[k].0 != seen[m].0);
                    }
                }
                assert forall|e: (u32, ObjReloc)| #[trigger]
                    entries@.contains(e) <==> next.contains(e) by {
                    if seen.contains(e) {
                        let q = choose|q: int| 0 <= q < seen.len() && seen[q] == e;
                        assert(next[q] == e);
                    }
                    if e == (address, reloc) {
                        assert(next[i as int] == e);
                    }
                    if next.contains(e) {
                        let q = choose|q: int| 0 <= q < next.len() && next[q] == e;
                        if q < i {
                            assert(seen[q] == e);
                        }
                    }
                }
            }
            i = i + 1;
        }
        proof {
            assert(relocations@.take(relocations.len() as int) =~= relocations@);
            if ascending(relocations@) {
                order::lemma_strictly_sorted_unique(
                    relocations@,
                    entries@,
                    |x: (u32, ObjReloc), y: (u32, ObjReloc)| x.0 < y.0,
                );
            }
        }
        Ok(ObjRelocations { entries })
    }

    /// Adds a relocation. Refuses an address that has one.
    pub fn insert(&mut self, address: u32, reloc: ObjReloc) -> (r: Result<(), RelinkError>)
        ensures
            match r {
                Ok(_) => {
                    &&& forall|i: int| 0 <= i < old(self)@.len() ==> (#[trigger] old(self)@[i]).0 != address
                    &&& ascending(final(self)@)
                    &&& final(self)@.len() == old(self)@.len() + 1
                    &&& forall|e: (u32, ObjReloc)| #[trigger]
                        final(self)@.contains(e) <==> old(self)@.contains(e) || e == (address, reloc)
                },
                Err(e) => {
                    &&& e == RelinkError::DuplicateRelocation(address)
                    &&& exists|i: int| 0 <= i < old(self)@.len() && (#[trigger] old(self)@[i]).0 == address
                    &&& final(self)@ == old(self)@
                },
            },
    {
        proof {
            use_type_invariant(&*self);
        }
        let mut entries: Vec<(u32, ObjReloc)> = Vec::new();
        core::mem::swap(&mut entries, &mut self.entries);
        let inserted = insert_entry(&mut entries, address, reloc);
        self.entries = entries;
        if inserted {
            Ok(())
        } else {
            Err(RelinkError::DuplicateRelocation(address))
        }
    }

    /// The relocations that `keep` marks.
    pub fn select(&self, keep: &Vec<bool>) -> (r: ObjRelocations)
        requires
            keep.len() == self@.len(),
        ensures
            r@ == outcome::selected(self@, keep@),
    {
        proof {
            use_type_invariant(self);
            outcome::lemma_selected(self.entries@, keep@);
        }
        let mut entries: Vec<(u32, ObjReloc)> = Vec::new();
        let mut i: usize = 0;
        while i < self.entries.len()
            invariant
                i <= self.entries.len(),
                keep.len() == self.entries.len(),
                entries@ == outcome::selected(self.entries@.take(i as int), keep@),
            decreases self.entries.len() - i,
        {
            proof {
                assert(self.entries@.take(i + 1).drop_last() =~= self.entries@.take(i as int));
            }
            if keep[i] {
                entries.push(self.entries[i]);
            }
            i = i + 1;
        }
        assert(self.entries@.take(i as int) =~= self.entries@);
        ObjRelocations { entries }
    }

    /// The relocations by ascending address.
    pub fn entries(&self) -> (r: &Vec<(u32, ObjReloc)>)
        ensures
            r@ == self@,
            ascending(r@),
    {
        proof {
            use_type_invariant(self);
        }
        &self.entries
    }
}

impl Default for ObjRelocations {
    fn default() -> (r: Self)
        ensures
            r@ == Seq::<(u32, ObjReloc)>::empty(),
    {
        ObjRelocations { entries: Vec::new() }
    }
}

impl Clone for ObjRelocations {
    fn clone(&self) -> (r: Self)
        ensures
            r@ == self@,
    {
        proof {
            use_type_invariant(self);
        }
        let mut entries: Vec<(u32, ObjReloc)> = Vec::new();
        let mut i: usize = 0;
        while i < self.entries.len()
            invariant
                i <= self.entries.len(),
                entries@ == self.entries@.take(i as int),
            decreases self.entries.len() - i,
        {
            entries.push(self.entries[i]);
            i = i + 1;
        }
        assert(entries@ =~= self.entries@);
        ObjRelocations { entries }
    }
}

/// A range of a section that belongs to one unit.
#[derive(Debug)]
pub struct ObjSplit {
    pub unit: String,
    /// The address after the last of the range.
    pub end: u32,
    pub align: Option<u32>,
    pub common: bool,
    pub autogenerated: bool,
    /// Left out of the objects.
    pub skip: bool,
}

#[verifier::ext_equal]
pub struct SplitModel {
    pub unit: Seq<char>,
    pub end: u32,
    pub align: Option<u32>,
    pub common: bool,
    pub autogenerated: bool,
    pub skip: bool,
}

impl View for ObjSplit {
    type V = SplitModel;

    open spec fn view(&self) -> SplitModel {
        SplitModel {
            unit: self.unit@,
            end: self.end,
            align: self.align,
            common: self.common,
            autogenerated: self.autogenerated,
            skip: self.skip,
        }
    }
}

impl Clone for ObjSplit {
    fn clone(&self) -> (r: Self)
        ensures
            r@ == self@,
    {
        ObjSplit {
            unit: self.unit.clone(),
            end: self.end,
            align: self.align,
            common: self.common,
            autogenerated: self.autogenerated,
            skip: self.skip,
        }
    }
}

impl Default for ObjSplit {
    fn default() -> (r: Self)
        ensures
            r@ == (SplitModel {
                unit: Seq::empty(),
                end: 0,
                align: None,
                common: false,
                autogenerated: false,
                skip: false,
            }),
    {
        ObjSplit {
            unit: String::new(),
            end: 0,
            align: None,
            common: false,
            autogenerated: false,
            skip: false,
        }
    }
}

/// The splits of a section by ascending start, those that share a start as they were added.
#[derive(Debug)]
pub struct ObjSplits {
    entries: Vec<(u32, ObjSplit)>,
}

/// Whether the starts never fall.
pub open spec fn rising(s: Seq<(u32, SplitModel)>) -> bool {
    forall|i: int, j: int| 0 <= i < j < s.len() ==> (#[trigger] s[i]).0 <= (#[trigger] s[j]).0
}

pub open spec fn split_views(s: Seq<(u32, ObjSplit)>) -> Seq<(u32, SplitModel)> {
    Seq::new(s.len(), |i: int| (s[i].0, s[i].1@))
}

/// The split that owns `address`: the last that starts at or before it, if it reaches past it.
pub open spec fn owner(s: Seq<(u32, SplitModel)>, address: u32) -> Option<(u32, SplitModel)>
    decreases s.len(),
{
    if s.len() == 0 {
        None
    } else if s.last().0 <= address {
        if s.last().1.end > address {
            Some(s.last())
        } else {
            None
        }
    } else {
        owner(s.drop_last(), address)
    }
}

impl View for ObjSplits {
    type V = Seq<(u32, SplitModel)>;

    closed spec fn view(&self) -> Seq<(u32, SplitModel)> {
        split_views(self.entries@)
    }
}

impl ObjSplits {
    #[verifier::type_invariant]
    closed spec fn wf(self) -> bool {
        rising(split_views(self.entries@))
    }

    /// Adds a split after those that start at or before `address`.
    pub fn push(&mut self, address: u32, split: ObjSplit)
        ensures
            exists|p: int|
                {
                    &&& 0 <= p <= old(self)@.len()
                    &&& final(self)@ == #[trigger] old(self)@.insert(p, (address, split@))
                    &&& forall|i: int| 0 <= i < p ==> (#[trigger] old(self)@[i]).0 <= address
                    &&& forall|i: int| p <= i < old(self)@.len() ==> (#[trigger] old(self)@[i]).0 > address
                },
    {
        proof {
            use_type_invariant(&*self);
        }
        let mut entries: Vec<(u32, ObjSplit)> = Vec::new();
        core::mem::swap(&mut entries, &mut self.entries);
        let ghost before = entries@;
        let mut at: usize = entries.len();
        while at > 0 && entries[at - 1].0 > address
            invariant
                at <= entries.len(),
                entries@ == before,
                forall|i: int| at <= i < entries.len() ==> (#[trigger] entries@[i]).0 > address,
            decreases at,
        {
            at = at - 1;
        }
        entries.insert(at, (address, split));
        proof {
            let views = split_views(before);
            let after = split_views(entries@);
            assert(rising(views));
            assert forall|i: int| 0 <= i < at implies (#[trigger] views[i]).0 <= address by {
                if i < at - 1 {
                    assert(views[i].0 <= views[at - 1].0);
                }
            }
            assert(after =~= views.insert(at as int, (address, split@)));
            assert forall|i: int, j: int| 0 <= i < j < after.len() implies (#[trigger] after[i]).0
                <= (#[trigger] after[j]).0 by {
                if j != at && i != at {
                    let i0 = if i < at { i } else { i - 1 };
                    let j0 = if j < at { j } else { j - 1 };
                    assert(views[i0].0 <= views[j0].0);
                } else if j == at {
                    assert(views[i].0 <= address);
                } else {
                    assert(views[j - 1].0 > address) by {
                        assert(before[j - 1].0 > address);
                    }
                }
            }
            assert forall|i: int| at <= i < views.len() implies (#[trigger] views[i]).0 > address by {
                assert(before[i].0 > address);
            }
        }
        self.entries = entries;
        assert(self@ == old(self)@.insert(at as int, (address, split@)));
    }

    /// The split that owns `address`.
    pub fn for_address(&self, address: u32) -> (r: Option<(u32, &ObjSplit)>)
        ensures
            match r {
                Some(s) => owner(self@, address) == Some((s.0, s.1@)),
                None => owner(self@, address) is None,
            },
    {
        let ghost views = split_views(self.entries@);
        let mut n: usize = self.entries.len();
        assert(views.take(n as int) =~= views);
        while n > 0
            invariant
                n <= self.entries.len(),
                views == split_views(self.entries@),
                owner(views.take(n as int), address) == owner(views, address),
            decreases n,
        {
            assert(views.take(n as int).last() == views[n - 1]);
            assert(views.take(n as int).drop_last() =~= views.take(n - 1));
            if self.entries[n - 1].0 <= address {
                if self.entries[n - 1].1.end > address {
                    return Some((self.entries[n - 1].0, &self.entries[n - 1].1));
                }
                return None;
            }
            n = n - 1;
        }
        None
    }

    pub fn len(&self) -> (r: usize)
        ensures
            r == self@.len(),
    {
        self.entries.len()
    }

    /// The split at position `i`, with its start.
    pub fn get(&self, i: usize) -> (r: (u32, &ObjSplit))
        requires
            i < self@.len(),
        ensures
            (r.0, r.1@) == self@[i as int],
    {
        (self.entries[i].0, &self.entries[i].1)
    }
}

impl Default for ObjSplits {
    fn default() -> (r: Self)
        ensures
            r@ == Seq::<(u32, SplitModel)>::empty(),
    {
        let r = ObjSplits { entries: Vec::new() };
        assert(r@ =~= Seq::<(u32, SplitModel)>::empty());
        r
    }
}

impl Clone for ObjSplits {
    fn clone(&self) -> (r: Self)
        ensures
            r@ == self@,
    {
        proof {
            use_type_invariant(self);
        }
        let mut entries: Vec<(u32, ObjSplit)> = Vec::new();
        let mut i: usize = 0;
        while i < self.entries.len()
            invariant
                i <= self.entries.len(),
                split_views(entries@) == split_views(self.entries@).take(i as int),
            decreases self.entries.len() - i,
        {
            let ghost before = entries@;
            entries.push((self.entries[i].0, self.entries[i].1.clone()));
            assert(split_views(entries@) =~= split_views(before).push(
                split_views(self.entries@)[i as int],
            ));
            assert(split_views(self.entries@).take(i + 1) =~= split_views(self.entries@).take(
                i as int,
            ).push(split_views(self.entries@)[i as int]));
            i = i + 1;
        }
        assert(split_views(self.entries@).take(i as int) =~= split_views(self.entries@));
        ObjSplits { entries }
    }
}

/// A section of an image, or a part of one in an object.
#[derive(Debug)]
pub struct ObjSection {
    pub name: String,
    pub kind: ObjSectionKind,
    pub address: u32,
    pub size: u32,
    pub data: Vec<u8>,
    pub align: u32,
    pub relocations: ObjRelocations,
    /// Where a part of an image section stands in the image.
    pub virtual_address: Option<u32>,
    pub splits: ObjSplits,
    /// The bytes before analysis rewrote them.
    pub original_data: Option<Vec<u8>>,
    /// How many bytes of the section the image stores; the rest is zero fill.
    pub original_raw_size: Option<u32>,
    /// The section flags of the image.
    pub original_flags: Option<u32>,
}

#[verifier::ext_equal]
pub struct SectionModel {
    pub name: Seq<char>,
    pub kind: ObjSectionKind,
    pub address: u32,
    pub size: u32,
    pub data: Seq<u8>,
    pub align: u32,
    pub relocations: Seq<(u32, ObjReloc)>,
    pub virtual_address: Option<u32>,
    pub splits: Seq<(u32, SplitModel)>,
    pub original_data: Option<Seq<u8>>,
    pub original_raw_size: Option<u32>,
    pub original_flags: Option<u32>,
}

pub open spec fn opt_bytes(s: Option<Vec<u8>>) -> Option<Seq<u8>> {
    match s {
        Some(s) => Some(s@),
        None => None,
    }
}

impl View for ObjSection {
    type V = SectionModel;

    open spec fn view(&self) -> SectionModel {
        SectionModel {
            name: self.name@,
            kind: self.kind,
            address: self.address,
            size: self.size,
            data: self.data@,
            align: self.align,
            relocations: self.relocations@,
            virtual_address: self.virtual_address,
            splits: self.splits@,
            original_data: opt_bytes(self.original_data),
            original_raw_size: self.original_raw_size,
            original_flags: self.original_flags,
        }
    }
}

/// The section that holds nothing.
pub open spec fn empty_section() -> SectionModel {
    SectionModel {
        name: Seq::empty(),
        kind: ObjSectionKind::Code,
        address: 0,
        size: 0,
        data: Seq::empty(),
        align: 0,
        relocations: Seq::empty(),
        virtual_address: None,
        splits: Seq::empty(),
        original_data: None,
        original_raw_size: None,
        original_flags: None,
    }
}

impl SectionModel {
    /// Whether the section holds `address`.
    pub open spec fn holds(self, address: u32) -> bool {
        self.address <= address < self.address + self.size
    }

    /// Whether the section holds the addresses from `start` to `end`.
    pub open spec fn holds_range(self, start: u32, end: u32) -> bool {
        self.address <= start <= end <= self.address + self.size
    }
}

fn copy_bytes(data: &Vec<u8>) -> (r: Vec<u8>)
    ensures
        r@ == data@,
{
    slice_to_vec(data.as_slice())
}

impl Clone for ObjSection {
    fn clone(&self) -> (r: Self)
        ensures
            r@ == self@,
    {
        let original_data = match &self.original_data {
            Some(d) => Some(copy_bytes(d)),
            None => None,
        };
        ObjSection {
            name: self.name.clone(),
            kind: self.kind,
            address: self.address,
            size: self.size,
            data: copy_bytes(&self.data),
            align: self.align,
            relocations: self.relocations.clone(),
            virtual_address: self.virtual_address,
            splits: self.splits.clone(),
            original_data,
            original_raw_size: self.original_raw_size,
            original_flags: self.original_flags,
        }
    }
}

impl Default for ObjSection {
    fn default() -> (r: Self)
        ensures
            r@ == empty_section(),
    {
        ObjSection {
            name: String::new(),
            kind: ObjSectionKind::Code,
            address: 0,
            size: 0,
            data: Vec::new(),
            align: 0,
            relocations: ObjRelocations::default(),
            virtual_address: None,
            splits: ObjSplits::default(),
            original_data: None,
            original_raw_size: None,
            original_flags: None,
        }
    }
}

impl ObjSection {
    /// The bytes from address `start` to address `end`.
    pub fn data_range(&self, start: u32, end: u32) -> (r: Result<&[u8], RelinkError>)
        requires
            self@.holds_range(start, end) ==> end - self.address <= self.data.len(),
        ensures
            match r {
                Ok(bytes) => {
                    &&& self@.holds_range(start, end)
                    &&& bytes@ == self.data@.subrange(start - self.address, end - self.address)
                },
                Err(e) => {
                    &&& !self@.holds_range(start, end)
                    &&& e == RelinkError::RangeOutsideSection(start, end)
                },
            },
    {
        if start < self.address || end < start || end - self.address > self.size {
            return Err(RelinkError::RangeOutsideSection(start, end));
        }
        Ok(
            slice_subrange(
                self.data.as_slice(),
                (start - self.address) as usize,
                (end - self.address) as usize,
            ),
        )
    }
}

/// An image, or an object split from one.
#[derive(Debug)]
pub struct ObjInfo {
    pub kind: ObjKind,
    pub name: String,
    pub symbols: Vec<ObjSymbol>,
    pub sections: Vec<ObjSection>,
}

#[verifier::ext_equal]
pub struct ObjModel {
    pub kind: ObjKind,
    pub name: Seq<char>,
    pub symbols: Seq<SymbolModel>,
    pub sections: Seq<SectionModel>,
}

impl View for ObjInfo {
    type V = ObjModel;

    open spec fn view(&self) -> ObjModel {
        ObjModel {
            kind: self.kind,
            name: self.name@,
            symbols: views(self.symbols@),
            sections: views(self.sections@),
        }
    }
}

fn copy_symbols(symbols: &Vec<ObjSymbol>) -> (r: Vec<ObjSymbol>)
    ensures
        views(r@) == views(symbols@),
{
    let mut r: Vec<ObjSymbol> = Vec::new();
    let mut i: usize = 0;
    while i < symbols.len()
        invariant
            i <= symbols.len(),
            r.len() == i,
            forall|k: int| 0 <= k < i ==> (#[trigger] r@[k])@ == symbols@[k]@,
        decreases symbols.len() - i,
    {
        r.push(symbols[i].clone());
        i = i + 1;
    }
    assert(views(r@) =~= views(symbols@));
    r
}

fn copy_sections(sections: &Vec<ObjSection>) -> (r: Vec<ObjSection>)
    ensures
        views(r@) == views(sections@),
{
    let mut r: Vec<ObjSection> = Vec::new();
    let mut i: usize = 0;
    while i < sections.len()
        invariant
            i <= sections.len(),
            r.len() == i,
            forall|k: int| 0 <= k < i ==> (#[trigger] r@[k])@ == sections@[k]@,
        decreases sections.len() - i,
    {
        r.push(sections[i].clone());
        i = i + 1;
    }
    assert(views(r@) =~= views(sections@));
    r
}

impl Clone for ObjInfo {
    fn clone(&self) -> (r: Self)
        ensures
            r@ == self@,
    {
        ObjInfo {
            kind: self.kind,
            name: self.name.clone(),
            symbols: copy_symbols(&self.symbols),
            sections: copy_sections(&self.sections),
        }
    }
}

/// The first section, from position `from` on, that holds `address`.
pub open spec fn section_at(sections: Seq<SectionModel>, address: u32, from: int) -> Option<int>
    decreases sections.len() - from,
{
    if from < 0 || from >= sections.len() {
        None
    } else if sections[from].holds(address) {
        Some(from)
    } else {
        section_at(sections, address, from + 1)
    }
}

impl ObjInfo {
    pub fn new(kind: ObjKind, name: String, symbols: Vec<ObjSymbol>, sections: Vec<ObjSection>) -> (r:
        ObjInfo)
        ensures
            r@ == (ObjModel {
                kind,
                name: name@,
                symbols: views(symbols@),
                sections: views(sections@),
            }),
    {
        ObjInfo { kind, name, symbols, sections }
    }

    /// The first section that holds `address`.
    pub fn section_at_address(&self, address: u32) -> (r: Result<SectionIndex, RelinkError>)
        ensures
            match r {
                Ok(i) => section_at(self@.sections, address, 0) == Some(i as int) && i
                    < self.sections.len(),
                Err(e) => section_at(self@.sections, address, 0) is None && e
                    == RelinkError::NoSectionAt(address),
            },
    {
        let mut i: usize = 0;
        while i < self.sections.len()
            invariant
                i <= self.sections.len(),
                section_at(self@.sections, address, i as int) == section_at(
                    self@.sections,
                    address,
                    0,
                ),
            decreases self.sections.len() - i,
        {
            let section = &self.sections[i];
            assert(self@.sections[i as int] == section@);
            if section.address <= address && address - section.address < section.size {
                return Ok(i);
            }
            i = i + 1;
        }
        Err(RelinkError::NoSectionAt(address))
    }
}

} // verus!
