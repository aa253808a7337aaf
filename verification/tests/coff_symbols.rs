//! Symbol identities of a small image with two functions of one name, a label and an entry of the
//! C runtime that other units refer to, and one unwind record for each function.
use std::collections::BTreeMap;

use jeff::coff_symbols::{has_resolved_relocations, original_name, prepare_coff_symbols};
use jeff::duplicates::duplicate_names;
use jeff::function_sizes::try_add_function_sizes;
use jeff::obj::{
    ObjInfo, ObjKind, ObjReloc, ObjRelocKind, ObjRelocations, ObjSection, ObjSectionKind, ObjSplit,
    ObjSplits, ObjSymbol, ObjSymbolFlagSet, ObjSymbolFlags, ObjSymbolKind,
};
use jeff::relink::{link_objects, try_link_objects};
use object::{Object, ObjectSection, ObjectSymbol, RelocationTarget};

const NAME: &str = "?Duplicate@Fixture@@QAAXXZ";

fn reloc(target_symbol: usize, kind: ObjRelocKind) -> ObjReloc {
    ObjReloc {
        target_symbol,
        kind,
        addend: 0,
        module: None,
    }
}

fn split_to(unit: &str, end: u32) -> ObjSplit {
    ObjSplit {
        unit: unit.into(),
        end,
        ..Default::default()
    }
}

fn fixture() -> ObjInfo {
    let mut text = ObjSection {
        name: ".text".into(),
        address: 0x82001000,
        size: 32,
        data: [0x60000000u32.to_be_bytes(); 8].concat(),
        align: 4,
        ..Default::default()
    };
    for (start, end, unit) in [(0x82001000, 0x82001010, "a"), (0x82001010, 0x82001020, "b")] {
        text.splits.push(start, split_to(unit, end));
    }
    let mut pdata = ObjSection {
        name: ".pdata".into(),
        address: 0x82002000,
        kind: ObjSectionKind::ReadOnlyData,
        size: 16,
        data: [0x82001000u32, 0x80000004, 0x82001010, 0x80000004]
            .into_iter()
            .flat_map(u32::to_be_bytes)
            .collect(),
        align: 4,
        ..Default::default()
    };
    pdata.splits.push(0x82002000, split_to("pdata", 0x82002010));
    // In reverse address order: neither insertion nor relocation order may select the duplicate
    // that keeps its name.
    let function = |address| ObjSymbol {
        name: NAME.into(),
        address,
        section: Some(0),
        kind: ObjSymbolKind::Function,
        size: 16,
        size_known: true,
        ..Default::default()
    };
    let label = |name: &str, address| ObjSymbol {
        name: name.into(),
        address,
        section: Some(0),
        ..Default::default()
    };
    let symbols = vec![
        function(0x82001010),
        function(0x82001000),
        label("$LNfixture", 0x82001018),
        label("__restgprlr_20", 0x8200101C),
    ];
    let (second, first, label, crt) = (0, 1, 2, 3);
    let mut image = ObjInfo::new(
        ObjKind::Executable,
        "fixture".into(),
        symbols,
        vec![text, pdata],
    );
    image.sections[0].relocations = ObjRelocations::new(vec![
        (0x82001000, reloc(label, ObjRelocKind::PpcRel24)),
        (0x82001004, reloc(second, ObjRelocKind::PpcRel24)),
        (0x82001008, reloc(crt, ObjRelocKind::PpcRel24)),
        (0x82001010, reloc(first, ObjRelocKind::PpcRel24)),
    ])
    .unwrap();
    image.sections[1].relocations = ObjRelocations::new(vec![
        (0x82002000, reloc(first, ObjRelocKind::Absolute)),
        (0x82002008, reloc(second, ObjRelocKind::Absolute)),
    ])
    .unwrap();
    image
}

fn prepare(image: &mut ObjInfo) {
    assert!(has_resolved_relocations(image));
    prepare_coff_symbols(image).unwrap();
}

/// One object for each unit, with the ranges of the unit as sections.
fn split(image: &ObjInfo, units: &[&str]) -> Vec<ObjInfo> {
    units.iter().map(|unit| split_unit(image, unit)).collect()
}

fn split_unit(image: &ObjInfo, unit: &str) -> ObjInfo {
    let mut object = ObjInfo::new(ObjKind::Relocatable, unit.into(), vec![], vec![]);
    let mut indices = BTreeMap::new();
    let mut ranges = vec![];
    for (section_index, section) in image.sections.iter().enumerate() {
        for k in 0..section.splits.len() {
            let (start, split) = section.splits.get(k);
            if split.unit != unit {
                continue;
            }
            let local = ranges.len();
            for (index, symbol) in image.symbols.iter().enumerate() {
                if symbol.section == Some(section_index)
                    && (start..split.end).contains(&symbol.address)
                {
                    let mut symbol = symbol.clone();
                    symbol.section = Some(local);
                    symbol.address -= start;
                    indices.insert(index, object.symbols.len());
                    object.symbols.push(symbol);
                }
            }
            ranges.push((section_index, start, split.end));
        }
    }
    for (section_index, start, end) in ranges {
        let section = &image.sections[section_index];
        let mut relocations = vec![];
        for (address, reloc) in section.relocations.entries() {
            if !(start..end).contains(address) {
                continue;
            }
            let target = *indices.entry(reloc.target_symbol).or_insert_with(|| {
                let mut symbol = image.symbols[reloc.target_symbol].clone();
                symbol.section = None;
                symbol.address = 0;
                object.symbols.push(symbol);
                object.symbols.len() - 1
            });
            let mut reloc = *reloc;
            reloc.target_symbol = target;
            relocations.push((*address - start, reloc));
        }
        object.sections.push(ObjSection {
            name: section.name.clone(),
            kind: section.kind,
            size: end - start,
            data: section.data_range(start, end).unwrap().to_vec(),
            align: section.align,
            relocations: ObjRelocations::new(relocations).unwrap(),
            virtual_address: Some(start),
            original_flags: section.original_flags,
            ..Default::default()
        });
    }
    object
}

fn put16(bytes: &mut Vec<u8>, value: u16) {
    bytes.extend_from_slice(&value.to_le_bytes());
}

fn put32(bytes: &mut Vec<u8>, value: u32) {
    bytes.extend_from_slice(&value.to_le_bytes());
}

fn put_name(bytes: &mut Vec<u8>, strings: &mut Vec<u8>, name: &str, section: bool) {
    let mut field = [0u8; 8];
    if name.len() <= 8 {
        field[..name.len()].copy_from_slice(name.as_bytes());
    } else {
        let offset = strings.len() as u32 + 4;
        strings.extend_from_slice(name.as_bytes());
        strings.push(0);
        if section {
            let text = format!("/{offset}");
            field[..text.len()].copy_from_slice(text.as_bytes());
        } else {
            field[4..].copy_from_slice(&offset.to_le_bytes());
        }
    }
    bytes.extend_from_slice(&field);
}

/// An object file with the sections, relocations and symbols of an object, in order.
fn coff_without_sizes(obj: &ObjInfo) -> Vec<u8> {
    let mut strings = vec![];
    let mut headers = vec![];
    let mut contents = vec![];
    let base = 20 + 40 * obj.sections.len() as u32;
    for section in &obj.sections {
        let entries = section.relocations.entries();
        let data_at = base + contents.len() as u32;
        contents.extend_from_slice(&section.data);
        let relocations_at = base + contents.len() as u32;
        for (offset, reloc) in entries {
            put32(&mut contents, *offset);
            put32(&mut contents, reloc.target_symbol as u32);
            let kind = match reloc.kind {
                ObjRelocKind::PpcRel24 => 6,
                ObjRelocKind::PpcRel14 => 7,
                _ => 2,
            };
            put16(&mut contents, kind);
        }
        put_name(&mut headers, &mut strings, &section.name, true);
        put32(&mut headers, 0);
        put32(&mut headers, 0);
        put32(&mut headers, section.size);
        put32(&mut headers, if section.data.is_empty() { 0 } else { data_at });
        put32(&mut headers, relocations_at);
        put32(&mut headers, 0);
        put16(&mut headers, entries.len() as u16);
        put16(&mut headers, 0);
        put32(&mut headers, if section.data.is_empty() { 0x80 } else { 0x40 });
    }
    let mut records = vec![];
    for symbol in &obj.symbols {
        put_name(&mut records, &mut strings, &symbol.name, false);
        put32(&mut records, symbol.address);
        put16(&mut records, symbol.section.map_or(0, |index| index as u16 + 1));
        let function = symbol.kind == ObjSymbolKind::Function;
        put16(&mut records, if function { 0x20 } else { 0 });
        let external =
            symbol.section.is_none() || symbol.flags.contains(ObjSymbolFlags::CoffExternal);
        records.push(if external { 2 } else { 3 });
        records.push(0);
    }
    let mut bytes = vec![];
    put16(&mut bytes, object::pe::IMAGE_FILE_MACHINE_POWERPCBE);
    put16(&mut bytes, obj.sections.len() as u16);
    put32(&mut bytes, 0);
    put32(&mut bytes, base + contents.len() as u32);
    put32(&mut bytes, obj.symbols.len() as u32);
    put16(&mut bytes, 0);
    put16(&mut bytes, 0);
    bytes.extend(headers);
    bytes.extend(contents);
    bytes.extend(records);
    put32(&mut bytes, strings.len() as u32 + 4);
    bytes.extend(strings);
    bytes
}

fn coff(obj: &ObjInfo) -> Vec<u8> {
    try_add_function_sizes(coff_without_sizes(obj), obj)
        .unwrap()
        .unwrap()
}

#[test]
fn duplicate_functions_cross_object_label_and_pdata() {
    let mut image = fixture();
    prepare(&mut image);
    let objects = split(&image, &["a", "b", "pdata"]);
    let bytes: Vec<_> = objects.iter().map(coff).collect();
    let mut definitions = BTreeMap::new();
    let mut targets = BTreeMap::new();
    for (obj, data) in objects.iter().zip(&bytes) {
        let coff = object::File::parse(data.as_slice()).unwrap();
        if obj.name == "b" {
            let function = coff
                .symbols()
                .find(|s| s.name().ok() == Some(&format!("{NAME}_82001010")))
                .unwrap();
            assert_eq!(
                function.size(),
                16,
                "external labels must not truncate the function"
            );
        }
        for symbol in coff
            .symbols()
            .filter(|s| s.is_definition() && s.is_global())
        {
            let section = &obj.sections[symbol.section_index().unwrap().0 - 1];
            let address = section.virtual_address.unwrap() as u64 + symbol.address();
            assert!(
                definitions
                    .insert(symbol.name().unwrap().to_owned(), address)
                    .is_none(),
                "duplicate external {}",
                symbol.name().unwrap()
            );
        }
        for section in coff.sections() {
            let va = obj.sections[section.index().0 - 1].virtual_address.unwrap();
            for (offset, reloc) in section.relocations() {
                let RelocationTarget::Symbol(index) = reloc.target() else {
                    panic!("not a symbol")
                };
                targets.insert(
                    va as u64 + offset,
                    coff.symbol_by_index(index).unwrap().name().unwrap().to_owned(),
                );
            }
        }
    }
    assert_eq!(definitions[NAME], 0x82001000);
    assert_eq!(definitions[&format!("{NAME}_82001010")], 0x82001010);
    assert_eq!(definitions["$LNfixture"], 0x82001018);
    assert_eq!(definitions["__restgprlr_20"], 0x8200101C);
    for (site, address) in [
        (0x82001000, 0x82001018),
        (0x82001004, 0x82001010),
        (0x82001008, 0x8200101C),
        (0x82001010, 0x82001000),
        (0x82002000, 0x82001000),
        (0x82002008, 0x82001010),
    ] {
        assert_eq!(
            definitions[&targets[&site]], address,
            "relocation at {site:X}"
        );
    }
    // Names that are written and read back, by address and without flags that the writer sets,
    // must reach a fixed point.
    let mut reloaded = fixture();
    reloaded.symbols = image.symbols.clone();
    reloaded.symbols.sort_by_key(|s| s.address);
    for symbol in &mut reloaded.symbols {
        symbol.flags = ObjSymbolFlagSet(symbol.flags.0 & 0x7FFF_FFFF);
    }
    for section in &mut reloaded.sections {
        section.relocations = Default::default();
    }
    let written: Vec<_> = spelled(&reloaded);
    prepare(&mut reloaded);
    assert_eq!(written, spelled(&reloaded));
}

fn spelled(image: &ObjInfo) -> Vec<(String, u32)> {
    image
        .symbols
        .iter()
        .map(|s| (s.name.clone(), s.address))
        .collect()
}

#[test]
fn link_contributions_preserve_identity_order_and_padding() {
    let mut image = fixture();
    image.sections[0].size = 48;
    image.sections[0].data = [
        0x48000018u32,
        0x4800000C,
        0x48000014,
        0x4182000C,
        0x4BFFFFF0,
        0x60000000,
        0x4E800020,
        0x4E800020,
        0x3C608201,
        0x38639004,
        0x60000000,
        0x4E800020,
    ]
    .into_iter()
    .flat_map(u32::to_be_bytes)
    .collect();
    image.sections[0]
        .splits
        .push(0x82001020, split_to("a", 0x82001030));
    image.sections[0]
        .relocations
        .insert(0x8200100C, reloc(2, ObjRelocKind::PpcRel14))
        .unwrap();
    for (address, kind) in [
        (0x82001020, ObjRelocKind::PpcAddr16Ha),
        (0x82001024, ObjRelocKind::PpcAddr16Lo),
    ] {
        image.sections[0]
            .relocations
            .insert(
                address,
                ObjReloc {
                    target_symbol: 1,
                    kind,
                    addend: 0x8004,
                    module: None,
                },
            )
            .unwrap();
    }
    image.sections[1].splits = ObjSplits::default();
    for (start, end, unit) in [(0x82002000, 0x82002008, "a"), (0x82002008, 0x82002010, "b")] {
        image.sections[1].splits.push(start, split_to(unit, end));
    }
    let mut rdata = ObjSection {
        name: ".rdata".into(),
        kind: ObjSectionKind::ReadOnlyData,
        address: 0x82003000,
        size: 12,
        data: vec![1, 2, 3, 4, 0, 0, 0, 0, 5, 6, 7, 8],
        align: 4,
        ..Default::default()
    };
    for (start, end, unit) in [(0x82003000, 0x82003004, "a"), (0x82003008, 0x8200300C, "b")] {
        rdata.splits.push(
            start,
            ObjSplit {
                unit: unit.into(),
                end,
                align: Some(4),
                ..Default::default()
            },
        );
    }
    image.sections.push(rdata);
    prepare(&mut image);
    let defaults = split(&image, &["a", "b", "pdata"]);
    let before: Vec<_> = defaults.iter().map(coff).collect();
    assert!(try_link_objects(&image, &defaults).is_some());
    let linked = link_objects(&image, &defaults).unwrap();
    assert_eq!(before, defaults.iter().map(coff).collect::<Vec<_>>());
    let mut contributions = BTreeMap::new();
    for obj in &linked {
        let bytes = coff_without_sizes(obj);
        let coff = object::File::parse(bytes.as_slice()).unwrap();
        for section in coff.sections() {
            contributions.insert(section.name().unwrap().to_owned(), section.size());
        }
    }
    assert_eq!(contributions[".text$82001000"], 16);
    assert_eq!(contributions[".text$82001010"], 16);
    assert_eq!(contributions[".text$82001020"], 16);
    assert_eq!(contributions[".pdata$82002000"], 8);
    assert_eq!(contributions[".pdata$82002008"], 8);
    assert_eq!(contributions[".rdata$82003004"], 4);
    // Addends are retained, and the objects come by address.
    let a = linked.iter().find(|obj| obj.name == "a").unwrap();
    let parts = &a.sections[1];
    assert_eq!(parts.name, ".text$82001020");
    let entries = parts.relocations.entries();
    assert_eq!(entries.len(), 2);
    assert_eq!(entries[0].1.addend, 0x8004);
    assert_eq!(entries[0].1.kind, ObjRelocKind::PpcAddr16Ha);
    assert_eq!(entries[1].1.addend, 0x8004);
    let names: Vec<_> = linked.iter().map(|obj| obj.name.as_str()).collect();
    assert_eq!(names, ["a", "b", "padding_82003004"]);
    assert_eq!(linked[2].sections[0].data, [0, 0, 0, 0]);
}

#[test]
fn link_mode_retains_original_xex_import_tokens() {
    let mut image = fixture();
    let mut original = image.sections[0].data.clone();
    original[..8]
        .copy_from_slice(&[0x010001A4u32.to_be_bytes(), 0x020001A4u32.to_be_bytes()].concat());
    image.sections[0].original_data = Some(original.clone());
    prepare(&mut image);
    let defaults = split(&image, &["a", "b", "pdata"]);
    assert!(try_link_objects(&image, &defaults).is_some());
    let linked = link_objects(&image, &defaults).unwrap();
    let section = &linked.iter().find(|obj| obj.name == "a").unwrap().sections[0];
    assert_eq!(&section.data[..8], &original[..8]);
    assert!(section
        .relocations
        .entries()
        .iter()
        .all(|(offset, _)| *offset >= 8));
    assert_eq!(section.relocations.entries().len(), 1);
    assert_ne!(&defaults[0].sections[0].data[..8], &original[..8]);
}

#[test]
fn generated_names_do_not_collide_with_input_names() {
    let mut image = fixture();
    image.symbols.push(ObjSymbol {
        name: format!("{NAME}_82001010"),
        address: 0x8200100C,
        section: Some(0),
        ..Default::default()
    });
    prepare(&mut image);
    assert_eq!(image.symbols[0].name, format!("{NAME}_82001010_1"));
}

#[test]
fn counters_rise_until_a_name_is_free() {
    let mut image = fixture();
    for suffix in ["_82001010", "_82001010_1", "_82001010_2"] {
        image.symbols.push(ObjSymbol {
            name: format!("{NAME}{suffix}"),
            ..Default::default()
        });
    }
    prepare(&mut image);
    assert_eq!(image.symbols[0].name, format!("{NAME}_82001010_3"));
    assert_eq!(image.symbols[1].name, NAME);
    assert_eq!(original_name(&image.symbols[0].name, 0x82001010), NAME);
}

#[test]
fn aliases_at_one_address_share_the_new_name() {
    let mut image = fixture();
    image.symbols.push(ObjSymbol {
        name: NAME.into(),
        demangled_name: Some("Fixture::Duplicate".into()),
        address: 0x82001010,
        section: Some(0),
        ..Default::default()
    });
    prepare(&mut image);
    assert_eq!(image.symbols[0].name, format!("{NAME}_82001010"));
    assert_eq!(image.symbols[4].name, image.symbols[0].name);
    assert_eq!(image.symbols[4].demangled_name, None);
}

#[test]
fn imports_and_sections_are_no_duplicates() {
    let mut image = fixture();
    image.symbols.push(ObjSymbol {
        name: "$LNfixture".into(),
        address: 0x10,
        ..Default::default()
    });
    image.symbols.push(ObjSymbol {
        name: "$LNfixture".into(),
        address: 0x20,
        section: Some(0),
        kind: ObjSymbolKind::Section,
        ..Default::default()
    });
    prepare(&mut image);
    assert_eq!(image.symbols[2].name, "$LNfixture");
    assert_eq!(image.symbols[4].name, "$LNfixture");
    assert_eq!(image.symbols[5].name, "$LNfixture");
}

#[test]
fn preparing_twice_changes_nothing() {
    let mut image = fixture();
    prepare(&mut image);
    let once = format!("{:?}", image.symbols);
    prepare(&mut image);
    assert_eq!(once, format!("{:?}", image.symbols));
}

#[test]
fn cross_unit_targets_and_runtime_entries_become_external() {
    let mut image = fixture();
    image.symbols[2].flags.insert(ObjSymbolFlags::Local);
    image.symbols[2].flags.insert(ObjSymbolFlags::Hidden);
    // Nothing refers to these: one is an entry of the runtime, the others are not numbered or
    // not labels.
    for (name, kind) in [
        ("__savevmx_127", ObjSymbolKind::Unknown),
        ("__savevmx_x", ObjSymbolKind::Unknown),
        ("__savevmx_", ObjSymbolKind::Unknown),
        ("__savefpr_14", ObjSymbolKind::Object),
    ] {
        image.symbols.push(ObjSymbol {
            name: name.into(),
            address: 0x8200100C,
            section: Some(0),
            kind,
            ..Default::default()
        });
    }
    prepare(&mut image);
    let external: Vec<_> = image
        .symbols
        .iter()
        .map(|s| s.flags.contains(ObjSymbolFlags::CoffExternal))
        .collect();
    assert_eq!(
        external,
        [true, true, true, true, true, false, false, false]
    );
    let label = &image.symbols[2].flags;
    assert!(!label.is_local());
    assert!(label.contains(ObjSymbolFlags::Global));
    assert!(label.contains(ObjSymbolFlags::Hidden));
    assert_eq!(label.0, 0x8000_0011);
}

#[test]
fn skipped_splits_need_no_externals() {
    let mut image = fixture();
    image.sections[0].splits = ObjSplits::default();
    image.sections[0]
        .splits
        .push(0x82001000, split_to("a", 0x82001010));
    image.sections[0].splits.push(
        0x82001010,
        ObjSplit {
            unit: "b".into(),
            end: 0x82001020,
            skip: true,
            ..Default::default()
        },
    );
    image.sections[1].relocations = Default::default();
    prepare(&mut image);
    assert!(!image.symbols[2].flags.contains(ObjSymbolFlags::CoffExternal));
    assert!(!image.symbols[0].flags.contains(ObjSymbolFlags::CoffExternal));
}

#[test]
fn unresolved_relocations_are_told() {
    let mut image = fixture();
    assert!(has_resolved_relocations(&image));
    image.symbols[3].section = Some(7);
    assert!(!has_resolved_relocations(&image));
    image.symbols.pop();
    assert!(!has_resolved_relocations(&image));
}

#[test]
fn layout_names_drop_the_address() {
    assert_eq!(original_name("f", 0x82001010), "f");
    assert_eq!(original_name("f_82001010", 0x82001010), "f");
    assert_eq!(original_name("f_82001010_12", 0x82001010), "f");
    assert_eq!(original_name("f_82001010_+12", 0x82001010), "f");
    assert_eq!(original_name("f_82001010", 0x82001014), "f_82001010");
    assert_eq!(original_name("f_82001010_x", 0x82001010), "f_82001010_x");
    assert_eq!(original_name("f_82001010_", 0x82001010), "f_82001010_");
    assert_eq!(
        original_name("f_82001010_4294967295", 0x82001010),
        "f"
    );
    assert_eq!(
        original_name("f_82001010_4294967296", 0x82001010),
        "f_82001010_4294967296"
    );
    assert_eq!(original_name("f_8200ABCD", 0x8200ABCD), "f");
    assert_eq!(original_name("f_8200abcd", 0x8200ABCD), "f_8200abcd");
    assert_eq!(original_name("_0000000A", 10), "");
    assert_eq!(original_name("\u{e9}_0000000A", 10), "\u{e9}");
    assert_eq!(original_name("", 0), "");
}

#[test]
fn duplicates_are_reported_once_with_every_address() {
    let mut image = fixture();
    image.symbols.push(ObjSymbol {
        name: NAME.into(),
        address: 0x8200100C,
        section: Some(0),
        ..Default::default()
    });
    let report = duplicate_names(&image);
    assert_eq!(report.len(), 1);
    assert_eq!(report[0].name, NAME);
    assert_eq!(report[0].addresses, [0x82001000, 0x8200100C, 0x82001010]);
    assert_eq!(
        report[0].warning(),
        format!("Duplicate COFF name {NAME}: 0x82001000, 0x8200100C, 0x82001010")
    );
    prepare(&mut image);
    assert!(duplicate_names(&image).is_empty());
}

#[test]
fn the_order_of_symbols_does_not_matter() {
    let mut forward = fixture();
    let mut backward = fixture();
    for image in [&mut forward, &mut backward] {
        for address in [0x82001004, 0x82001008] {
            image.symbols.push(ObjSymbol {
                name: NAME.into(),
                address,
                section: Some(0),
                ..Default::default()
            });
        }
        for section in &mut image.sections {
            section.relocations = Default::default();
        }
    }
    backward.symbols.reverse();
    prepare(&mut forward);
    prepare(&mut backward);
    backward.symbols.reverse();
    assert_eq!(spelled(&forward), spelled(&backward));
    assert_eq!(forward.symbols[4].name, format!("{NAME}_82001004"));
}

#[test]
fn only_spellings_and_flags_change() {
    let before = fixture();
    let mut after = fixture();
    prepare(&mut after);
    assert_eq!(
        format!("{:?}", before.sections),
        format!("{:?}", after.sections)
    );
    assert_eq!(before.symbols.len(), after.symbols.len());
    for (old, new) in before.symbols.iter().zip(&after.symbols) {
        assert_eq!(old.address, new.address);
        assert_eq!(old.section, new.section);
        assert_eq!(old.size, new.size);
        assert_eq!(old.kind, new.kind);
    }
}

#[test]
fn runtime_entries_at_a_second_address_are_exported() {
    let mut image = fixture();
    for section in &mut image.sections {
        section.relocations = Default::default();
    }
    image.symbols.push(ObjSymbol {
        name: "__restgprlr_20".into(),
        address: 0x82001008,
        section: Some(0),
        ..Default::default()
    });
    prepare(&mut image);
    assert_eq!(image.symbols[4].name, "__restgprlr_20");
    assert_eq!(image.symbols[3].name, "__restgprlr_20_8200101C");
    for symbol in &image.symbols[3..] {
        assert!(symbol.flags.contains(ObjSymbolFlags::CoffExternal));
    }
    let once = format!("{:?}", image.symbols);
    prepare(&mut image);
    assert_eq!(once, format!("{:?}", image.symbols));
}

#[test]
fn runtime_entries_are_told_by_new_spellings_too() {
    let mut image = fixture();
    for address in [0x82001004, 0x82001008] {
        image.symbols.push(ObjSymbol {
            name: "__savefpr".into(),
            address,
            section: Some(0),
            ..Default::default()
        });
    }
    prepare(&mut image);
    assert_eq!(image.symbols[5].name, "__savefpr_82001008");
    assert!(!image.symbols[4].flags.contains(ObjSymbolFlags::CoffExternal));
    assert!(image.symbols[5].flags.contains(ObjSymbolFlags::CoffExternal));
}
