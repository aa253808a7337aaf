//! Size records in small object files.
use jeff::coff_table::{
    CLASS_EXTERNAL, FILE_HEADER_SIZE, RELOCATION_SIZE, SECTION_HEADER_SIZE, SYMBOL_SIZE,
};
use jeff::error::RelinkError;
use jeff::function_sizes::{add_function_sizes, add_sizes_for, try_add_function_sizes};
use jeff::obj::{ObjInfo, ObjKind, ObjSymbol, ObjSymbolFlags, ObjSymbolKind};
use object::{Object, ObjectSection, ObjectSymbol, RelocationTarget};

/// A symbol table record: name, value, section, type, class and auxiliary records.
type Record = (&'static str, u32, u16, u16, u8, u8);

const STATIC_SECTION: Record = (".text", 0, 1, 0, 3, 1);
const FUNCTION: Record = ("f", 0, 1, 0x20, 3, 0);
const LABEL: Record = ("label", 4, 1, 0, 2, 0);
const OTHER: Record = ("other", 0, 0, 0x20, 2, 0);

/// A file with one section of eight bytes, relocations to the given indices, the given records,
/// and a string table.
fn file(records: &[Record], relocations: &[u32]) -> Vec<u8> {
    let mut count = 0u32;
    let mut table = vec![];
    for (name, value, section, kind, class, aux) in records {
        let mut field = [0u8; 8];
        field[..name.len()].copy_from_slice(name.as_bytes());
        table.extend_from_slice(&field);
        table.extend_from_slice(&value.to_le_bytes());
        table.extend_from_slice(&section.to_le_bytes());
        table.extend_from_slice(&kind.to_le_bytes());
        table.push(*class);
        table.push(*aux);
        for k in 0..*aux {
            table.extend_from_slice(&[0xA0 + k; 18]);
        }
        count += 1 + *aux as u32;
    }
    let relocations_at = 20 + 40 + 8u32;
    let table_at = relocations_at + 10 * relocations.len() as u32;
    let mut bytes = vec![];
    bytes.extend_from_slice(&0x01F2u16.to_le_bytes());
    bytes.extend_from_slice(&1u16.to_le_bytes());
    bytes.extend_from_slice(&0u32.to_le_bytes());
    bytes.extend_from_slice(&table_at.to_le_bytes());
    bytes.extend_from_slice(&count.to_le_bytes());
    bytes.extend_from_slice(&[0; 4]);
    bytes.extend_from_slice(b".text\0\0\0");
    for field in [0u32, 0, 8, 60, relocations_at, 0] {
        bytes.extend_from_slice(&field.to_le_bytes());
    }
    bytes.extend_from_slice(&(relocations.len() as u16).to_le_bytes());
    bytes.extend_from_slice(&[0; 2]);
    bytes.extend_from_slice(&0x6000_0020u32.to_le_bytes());
    bytes.extend_from_slice(&[1, 2, 3, 4, 5, 6, 7, 8]);
    for (k, index) in relocations.iter().enumerate() {
        bytes.extend_from_slice(&(4 * k as u32).to_le_bytes());
        bytes.extend_from_slice(&index.to_le_bytes());
        bytes.extend_from_slice(&6u16.to_le_bytes());
    }
    bytes.extend(table);
    bytes.extend_from_slice(&8u32.to_le_bytes());
    bytes.extend_from_slice(b"end\0");
    bytes
}

fn function(name: &str, address: u32, size: u32) -> ObjSymbol {
    ObjSymbol {
        name: name.into(),
        address,
        section: Some(0),
        kind: ObjSymbolKind::Function,
        size,
        size_known: true,
        ..Default::default()
    }
}

fn external_label(address: u32) -> ObjSymbol {
    let mut symbol = ObjSymbol {
        name: "label".into(),
        address,
        section: Some(0),
        ..Default::default()
    };
    symbol.flags.insert(ObjSymbolFlags::CoffExternal);
    symbol
}

fn object_with(symbols: Vec<ObjSymbol>) -> ObjInfo {
    ObjInfo::new(ObjKind::Relocatable, "o".into(), symbols, vec![])
}

fn sized(bytes: Vec<u8>, symbols: Vec<ObjSymbol>) -> Result<Vec<u8>, RelinkError> {
    try_add_function_sizes(bytes, &object_with(symbols)).unwrap()
}

#[test]
fn a_size_record_moves_later_symbols() {
    let before = file(
        &[STATIC_SECTION, FUNCTION, LABEL, OTHER],
        &[2, 4, 3, 0],
    );
    let after = sized(before.clone(), vec![function("f", 0, 8), external_label(4)]).unwrap();
    assert_eq!(after.len(), before.len() + SYMBOL_SIZE);
    let coff = object::File::parse(after.as_slice()).unwrap();
    let symbols: Vec<_> = coff
        .symbols()
        .map(|s| (s.index().0, s.name().unwrap().to_owned(), s.size()))
        .collect();
    assert_eq!(
        symbols,
        [
            (0, ".text".to_owned(), 0xA0A0A0A0),
            (2, "f".to_owned(), 8),
            (4, "label".to_owned(), 0),
            (5, "other".to_owned(), 0),
        ]
    );
    let section = coff.sections().next().unwrap();
    assert_eq!(section.data().unwrap(), [1, 2, 3, 4, 5, 6, 7, 8]);
    let targets: Vec<_> = section
        .relocations()
        .map(|(_, reloc)| match reloc.target() {
            RelocationTarget::Symbol(index) => {
                coff.symbol_by_index(index).unwrap().name().unwrap().to_owned()
            }
            _ => panic!("not a symbol"),
        })
        .collect();
    assert_eq!(targets, ["f", "other", "label", ".text"]);
    // Nothing else changes: the count, the indices of the relocations, and the table differ.
    assert_eq!(after[..12], before[..12]);
    assert_eq!(after[12..16], 6u32.to_le_bytes());
    assert_eq!(after[16..72], before[16..72]);
    assert_eq!(after[after.len() - 8..], before[before.len() - 8..]);
    let table = u32::from_le_bytes(before[8..12].try_into().unwrap()) as usize;
    let record = table + 2 * SYMBOL_SIZE;
    assert_eq!(after[record..record + 16], before[record..record + 16]);
    assert_eq!(after[record + 16..record + 18], [CLASS_EXTERNAL, 1]);
    assert_eq!(
        after[record + 18..record + 36],
        [0, 0, 0, 0, 8, 0, 0, 0, 0, 0, 0, 0, 0, 0, 0, 0, 0, 0]
    );
}

#[test]
fn files_without_labels_stay() {
    let before = file(&[FUNCTION, LABEL], &[0]);
    let mut local = external_label(4);
    local.flags = Default::default();
    for symbols in [
        vec![],
        vec![function("f", 0, 8)],
        vec![function("f", 0, 8), local],
        vec![function("f", 0, 4), external_label(4)],
        vec![function("f", 0, 0), external_label(0)],
        vec![function("unknown", 0, 8), external_label(4)],
        vec![function("f", 8, 8), external_label(4)],
    ] {
        assert_eq!(sized(before.clone(), symbols).unwrap(), before);
    }
}

#[test]
fn a_label_counts_in_the_section_of_the_function_only() {
    let before = file(&[FUNCTION, LABEL], &[]);
    let mut elsewhere = external_label(4);
    elsewhere.section = Some(1);
    let symbols = vec![function("f", 0, 8), elsewhere];
    assert_eq!(sized(before.clone(), symbols).unwrap(), before);
    let mut inner = function("inner", 4, 4);
    inner.flags.insert(ObjSymbolFlags::CoffExternal);
    let symbols = vec![function("f", 0, 8), inner];
    assert_eq!(sized(before.clone(), symbols).unwrap(), before);
    let symbols = vec![function("f", 0, 8), external_label(0)];
    assert_ne!(sized(before.clone(), symbols).unwrap(), before);
}

#[test]
fn functions_with_auxiliary_records_are_refused() {
    let with_aux: Record = ("f", 0, 1, 0x20, 2, 1);
    let error = sized(
        file(&[with_aux, LABEL], &[]),
        vec![function("f", 0, 8), external_label(4)],
    )
    .unwrap_err();
    assert!(matches!(error, RelinkError::UnexpectedAuxRecord));
    assert_eq!(
        error.message().unwrap(),
        "Unexpected existing COFF function auxiliary record"
    );
}

#[test]
fn relocations_outside_the_table_are_refused() {
    let error = sized(
        file(&[FUNCTION, LABEL], &[1, 17]),
        vec![function("f", 0, 8), external_label(4)],
    )
    .unwrap_err();
    assert!(matches!(error, RelinkError::InvalidRelocationSymbol(17)));
    assert_eq!(
        error.message().unwrap(),
        "Invalid COFF relocation symbol index 17"
    );
}

#[test]
fn other_files_are_refused() {
    let error = add_function_sizes(vec![0; 64], &object_with(vec![])).unwrap_err();
    assert!(matches!(error, RelinkError::Parse(_)));
    assert_eq!(error.message(), None);
}

#[test]
fn functions_past_the_address_space_are_left_alone() {
    let before = file(&[FUNCTION, LABEL], &[]);
    let symbols = vec![function("f", 0xFFFF_FFFF, 8), external_label(4)];
    assert!(try_add_function_sizes(before, &object_with(symbols)).is_none());
}

#[test]
fn sizes_go_to_the_named_indices() {
    let before = file(&[FUNCTION, LABEL], &[1, 0]);
    let image = object_with(vec![function("f", 0, 8), external_label(4)]);
    let names = vec![
        (0usize, Some("f".to_owned())),
        (1, Some("label".to_owned())),
    ];
    let direct = add_sizes_for(before.clone(), &image, &names).unwrap();
    assert_eq!(direct, add_function_sizes(before.clone(), &image).unwrap());
    // A symbol whose name cannot be read gets no size.
    let nameless = vec![(0usize, None), (1, Some("label".to_owned()))];
    assert_eq!(
        add_sizes_for(before.clone(), &image, &nameless).unwrap(),
        before
    );
}

#[test]
fn relocation_counts_may_overflow() {
    // The count stands in the first relocation, which names no symbol.
    let mut before = file(&[FUNCTION, LABEL], &[99, 1, 0]);
    let header = FILE_HEADER_SIZE;
    before[header + 32..header + 34].copy_from_slice(&[0xFF, 0xFF]);
    before[header + 39] |= 1;
    let relocations = header + SECTION_HEADER_SIZE + 8;
    before[relocations..relocations + 4].copy_from_slice(&3u32.to_le_bytes());
    let image = object_with(vec![function("f", 0, 8), external_label(4)]);
    let names = vec![(0usize, Some("f".to_owned()))];
    let after = add_sizes_for(before.clone(), &image, &names).unwrap();
    let index = |k: usize| {
        let at = relocations + k * RELOCATION_SIZE + 4;
        u32::from_le_bytes(after[at..at + 4].try_into().unwrap())
    };
    assert_eq!([index(0), index(1), index(2)], [99, 2, 0]);
}

#[test]
fn sizes_are_those_of_the_format() {
    assert_eq!(SYMBOL_SIZE, size_of::<object::pe::ImageSymbol>());
    assert_eq!(FILE_HEADER_SIZE, size_of::<object::pe::ImageFileHeader>());
    assert_eq!(
        SECTION_HEADER_SIZE,
        size_of::<object::pe::ImageSectionHeader>()
    );
    assert_eq!(RELOCATION_SIZE, size_of::<object::pe::ImageRelocation>());
    assert_eq!(CLASS_EXTERNAL, object::pe::IMAGE_SYM_CLASS_EXTERNAL);
    assert_eq!(object::pe::IMAGE_SCN_LNK_NRELOC_OVFL, 0x0100_0000);
}

#[test]
fn sizes_are_added_once() {
    let image = || object_with(vec![function("f", 0, 8), external_label(4)]);
    let once = try_add_function_sizes(file(&[FUNCTION, LABEL], &[1, 0]), &image())
        .unwrap()
        .unwrap();
    assert!(matches!(
        try_add_function_sizes(once.clone(), &image()),
        Some(Err(RelinkError::UnexpectedAuxRecord))
    ));
    // A file that needs no sizes stays, as often as it is asked for.
    let without = || object_with(vec![function("f", 0, 8)]);
    let same = try_add_function_sizes(once.clone(), &without()).unwrap().unwrap();
    assert_eq!(same, once);
}
