//! The layout of a COFF object file, as far as its symbol table and relocations go.
use vstd::prelude::*;

verus! {

/// The size of a symbol table record, auxiliary records included.
pub const SYMBOL_SIZE: usize = 18;

pub const FILE_HEADER_SIZE: usize = 20;

pub const SECTION_HEADER_SIZE: usize = 40;

pub const RELOCATION_SIZE: usize = 10;

/// The storage class of a symbol that other objects see.
pub const CLASS_EXTERNAL: u8 = 2;

/// The number that two bytes spell, the low byte first.
pub open spec fn le16(d: Seq<u8>, o: int) -> int {
    d[o] + 0x100 * d[o + 1]
}

/// The number that four bytes spell, the low byte first.
pub open spec fn le32(d: Seq<u8>, o: int) -> int {
    d[o] + 0x100 * d[o + 1] + 0x1_0000 * d[o + 2] + 0x100_0000 * d[o + 3]
}

/// The four bytes of a number, the low byte first.
pub open spec fn le_bytes(v: u32) -> Seq<u8> {
    seq![
        (v % 0x100) as u8,
        (v / 0x100 % 0x100) as u8,
        (v / 0x1_0000 % 0x100) as u8,
        (v / 0x100_0000) as u8,
    ]
}

/// `d` with `bytes` in place of those from `o` on.
pub open spec fn overwritten(d: Seq<u8>, o: int, bytes: Seq<u8>) -> Seq<u8> {
    d.take(o) + bytes + d.skip(o + bytes.len())
}

/// Where the symbol table starts.
pub open spec fn table_start(d: Seq<u8>) -> int {
    le32(d, 8)
}

/// How many records the symbol table has, auxiliary records included.
pub open spec fn table_count(d: Seq<u8>) -> int {
    le32(d, 12)
}

/// Where record `i` of the symbol table stands.
pub open spec fn record_at(d: Seq<u8>, i: int) -> int {
    table_start(d) + SYMBOL_SIZE * i
}

/// How many auxiliary records follow record `i`.
pub open spec fn aux_count(d: Seq<u8>, i: int) -> nat {
    d[record_at(d, i) + 17] as nat
}

/// The records from `from` on that are symbols, and not auxiliary to one.
pub open spec fn record_starts(d: Seq<u8>, from: int) -> Seq<int>
    decreases
            (if from < table_count(d) {
                table_count(d) - from
            } else {
                0
            }),
{
    if from >= table_count(d) {
        Seq::empty()
    } else {
        seq![from] + record_starts(d, from + 1 + aux_count(d, from))
    }
}

pub open spec fn section_count(d: Seq<u8>) -> int {
    le16(d, 2)
}

/// Where the header of section `s` stands.
pub open spec fn section_header(d: Seq<u8>, s: int) -> int {
    FILE_HEADER_SIZE + le16(d, 16) + SECTION_HEADER_SIZE * s
}

/// Whether the count in the header at `h` stands in the first relocation instead, which then is no
/// reference to a symbol.
pub open spec fn count_overflows(d: Seq<u8>, h: int) -> bool {
    le16(d, h + 32) == 0xFFFF && le32(d, h + 36) / 0x100_0000 % 2 == 1
}

pub open spec fn first_relocation(d: Seq<u8>, h: int) -> int {
    if count_overflows(d, h) {
        1
    } else {
        0
    }
}

pub open spec fn relocation_count(d: Seq<u8>, h: int) -> int {
    if count_overflows(d, h) {
        le32(d, le32(d, h + 24))
    } else {
        le16(d, h + 32)
    }
}

/// Where relocation `k` of the section with the header at `h` names its symbol.
pub open spec fn relocation_site(d: Seq<u8>, h: int, k: int) -> int {
    le32(d, h + 24) + RELOCATION_SIZE * k + 4
}

/// Where the relocations of section `s` name their symbols.
pub open spec fn section_sites(d: Seq<u8>, s: int) -> Seq<int> {
    let h = section_header(d, s);
    let first = first_relocation(d, h);
    let n = relocation_count(d, h) - first;
    Seq::new(
        if n > 0 {
            n as nat
        } else {
            0
        },
        |k: int| relocation_site(d, h, first + k),
    )
}

/// Where the relocations of the first `n` sections name their symbols.
pub open spec fn relocation_sites(d: Seq<u8>, n: int) -> Seq<int>
    decreases n,
{
    if n <= 0 {
        Seq::empty()
    } else {
        relocation_sites(d, n - 1) + section_sites(d, n - 1)
    }
}

pub fn read16(d: &Vec<u8>, o: usize) -> (r: u32)
    requires
        o + 2 <= d.len(),
    ensures
        r == le16(d@, o as int),
        r <= 0xFFFF,
{
    d[o] as u32 + 0x100 * (d[o + 1] as u32)
}

pub fn read32(d: &Vec<u8>, o: usize) -> (r: u32)
    requires
        o + 4 <= d.len(),
    ensures
        r == le32(d@, o as int),
{
    d[o] as u32 + 0x100 * (d[o + 1] as u32) + 0x1_0000 * (d[o + 2] as u32) + 0x100_0000 * (d[o
        + 3] as u32)
}

pub fn write32(d: &mut Vec<u8>, o: usize, v: u32)
    requires
        o + 4 <= old(d).len(),
    ensures
        final(d)@ == overwritten(old(d)@, o as int, le_bytes(v)),
{
    d.set(o, (v % 0x100) as u8);
    d.set(o + 1, (v / 0x100 % 0x100) as u8);
    d.set(o + 2, (v / 0x1_0000 % 0x100) as u8);
    d.set(o + 3, (v / 0x100_0000) as u8);
    assert(d@ =~= overwritten(old(d)@, o as int, le_bytes(v)));
}

/// A number is read back from its bytes.
pub proof fn lemma_le_bytes(v: u32)
    ensures
        le_bytes(v).len() == 4,
        le32(le_bytes(v), 0) == v,
{
    let b = le_bytes(v);
    assert(b[0] == v % 0x100 && b[1] == v / 0x100 % 0x100 && b[2] == v / 0x1_0000 % 0x100 && b[3] == v
        / 0x100_0000);
}

} // verus!
