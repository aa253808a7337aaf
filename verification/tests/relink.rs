//! Link contributions of small images.
use jeff::contribution::{finish_objects, with_address};
use jeff::error::RelinkError;
use jeff::gaps::padding;
use jeff::obj::{
    ObjInfo, ObjKind, ObjReloc, ObjRelocKind, ObjRelocations, ObjSection, ObjSectionKind, ObjSplit,
    ObjSymbol, ObjSymbolKind,
};
use jeff::relink::{link_objects, try_link_objects};

fn object_with(name: &str, sections: Vec<ObjSection>, symbols: Vec<ObjSymbol>) -> ObjInfo {
    ObjInfo::new(ObjKind::Relocatable, name.into(), symbols, sections)
}

fn image_with(sections: Vec<ObjSection>) -> ObjInfo {
    ObjInfo::new(ObjKind::Executable, "image".into(), vec![], sections)
}

/// A section at `address` with `size` bytes that count up.
fn section(name: &str, address: u32, size: u32) -> ObjSection {
    ObjSection {
        name: name.into(),
        kind: ObjSectionKind::Data,
        address,
        size,
        data: (0..size).map(|i| i as u8).collect(),
        align: 4,
        ..Default::default()
    }
}

/// The part of a section from `start` to `end`, as an object holds it.
fn part(section: &ObjSection, start: u32, end: u32) -> ObjSection {
    ObjSection {
        name: section.name.clone(),
        kind: section.kind,
        size: end - start,
        data: section.data_range(start, end).unwrap().to_vec(),
        align: section.align,
        virtual_address: Some(start),
        original_flags: section.original_flags,
        ..Default::default()
    }
}

fn split_to(unit: &str, end: u32) -> ObjSplit {
    ObjSplit {
        unit: unit.into(),
        end,
        ..Default::default()
    }
}

fn reloc(target_symbol: usize, kind: ObjRelocKind, addend: i64) -> ObjReloc {
    ObjReloc {
        kind,
        target_symbol,
        addend,
        module: None,
    }
}

fn symbol(name: &str, section: Option<usize>, address: u32) -> ObjSymbol {
    ObjSymbol {
        name: name.into(),
        address,
        section,
        ..Default::default()
    }
}

fn link(image: &ObjInfo, defaults: &[ObjInfo]) -> Result<Vec<ObjInfo>, RelinkError> {
    assert!(try_link_objects(image, defaults).is_some());
    link_objects(image, defaults)
}

#[test]
fn pe_raw_boundary_preserves_initialized_zeros_and_bss_symbols() {
    let mut section = ObjSection {
        name: ".data".into(),
        kind: ObjSectionKind::Data,
        address: 0x1000,
        size: 0x400,
        data: vec![0; 0x400],
        align: 4,
        original_raw_size: Some(0x200),
        original_flags: Some(0xC0000040),
        ..Default::default()
    };
    section.splits.push(0x1000, split_to("data", 0x1400));
    let zero_array = ObjSymbol {
        name: "zero_array".into(),
        address: 0x300,
        section: Some(0),
        kind: ObjSymbolKind::Object,
        size: 0x100,
        size_known: true,
        ..Default::default()
    };
    let defaults = [object_with(
        "data",
        vec![part(&section, 0x1000, 0x1400)],
        vec![zero_array],
    )];
    let image = image_with(vec![section]);
    let before = format!("{defaults:?}");
    let linked = link(&image, &defaults).unwrap();
    assert_eq!(before, format!("{defaults:?}"));
    let object = &linked[0];
    assert_eq!(object.sections[0].size, 0x200);
    assert_eq!(object.sections[1].name, ".dataz$00001200");
    assert_eq!(object.symbols[0].address, 0x100);
    assert_eq!(object.symbols[0].section, Some(1));
    assert_eq!(object.sections[0].data.len(), 0x200);
    assert_eq!(object.sections[1].size, 0x200);
    assert!(object.sections[1].data.is_empty());
    assert_eq!(object.sections[0].original_flags, Some(0xC0000040));
    assert_eq!(object.sections[1].original_flags, Some(0xC0000080));
    assert_eq!(object.sections[1].kind, ObjSectionKind::Bss);
    assert_eq!(linked.len(), 1);
}

#[test]
fn zero_fill_from_the_start_stays_one_section() {
    let mut data = section(".data", 0x1000, 0x20);
    data.original_raw_size = Some(0x10);
    data.splits.push(0x1000, split_to("a", 0x1010));
    data.splits.push(0x1010, split_to("b", 0x1020));
    let defaults = [
        object_with("a", vec![part(&data, 0x1000, 0x1010)], vec![]),
        object_with("b", vec![part(&data, 0x1010, 0x1020)], vec![]),
    ];
    let linked = link(&image_with(vec![data]), &defaults).unwrap();
    assert_eq!(linked[0].sections.len(), 1);
    assert_eq!(linked[0].sections[0].name, ".data$00001000");
    assert_eq!(linked[1].sections.len(), 1);
    assert_eq!(linked[1].sections[0].name, ".dataz$00001010");
    assert_eq!(linked[1].sections[0].size, 0x10);
    assert!(linked[1].sections[0].data.is_empty());
}

#[test]
fn relocation_in_zero_fill_is_refused() {
    let mut data = section(".data", 0x1000, 0x20);
    data.original_raw_size = Some(0x10);
    data.splits.push(0x1000, split_to("a", 0x1020));
    let mut whole = part(&data, 0x1000, 0x1020);
    whole.relocations =
        ObjRelocations::new(vec![(0x10, reloc(0, ObjRelocKind::Absolute, 0))]).unwrap();
    let defaults = [object_with(
        "a",
        vec![whole],
        vec![symbol("target", None, 0)],
    )];
    let error = link(&image_with(vec![data]), &defaults).unwrap_err();
    assert!(matches!(error, RelinkError::RelocationInZeroFill));
    assert_eq!(
        error.message().unwrap(),
        "Relocation in zero-fill tail"
    );
}

#[test]
fn local_branches_stay_resolved() {
    let mut text = section(".text", 0x2000, 0x20);
    text.splits.push(0x2000, split_to("a", 0x2020));
    let mut whole = part(&text, 0x2000, 0x2020);
    whole.relocations = ObjRelocations::new(vec![
        (0x0, reloc(0, ObjRelocKind::PpcRel24, 0)),
        (0x4, reloc(0, ObjRelocKind::PpcRel14, 0x18)),
        (0x8, reloc(0, ObjRelocKind::PpcRel14, -8)),
        (0xC, reloc(0, ObjRelocKind::Absolute, 0)),
        (0x10, reloc(1, ObjRelocKind::PpcRel24, 0)),
        (0x14, reloc(0, ObjRelocKind::PpcRel24, 0x17)),
    ])
    .unwrap();
    let symbols = vec![symbol("here", Some(0), 8), symbol("there", None, 0)];
    let defaults = [object_with("a", vec![whole], symbols)];
    let linked = link(&image_with(vec![text]), &defaults).unwrap();
    let kept: Vec<_> = linked[0].sections[0]
        .relocations
        .entries()
        .iter()
        .map(|(offset, _)| *offset)
        .collect();
    assert_eq!(kept, [0x4, 0xC, 0x10]);
    assert_eq!(linked[0].sections[0].align, 1);
}

#[test]
fn metadata_sections_keep_their_names() {
    let mut reloc_section = section(".reloc", 0x3000, 8);
    reloc_section.splits.push(0x3000, split_to("a", 0x3008));
    let mut edata = section(".edata", 0x4000, 8);
    edata.splits.push(0x4000, split_to("a", 0x4008));
    let mut first = part(&reloc_section, 0x3000, 0x3008);
    first.relocations =
        ObjRelocations::new(vec![(0, reloc(0, ObjRelocKind::Absolute, 0))]).unwrap();
    let defaults = [object_with(
        "a",
        vec![first, part(&edata, 0x4000, 0x4008)],
        vec![symbol("target", None, 0)],
    )];
    let mut image = image_with(vec![reloc_section, edata]);
    let linked = link(&image, &defaults).unwrap();
    assert_eq!(linked[0].sections[0].name, ".reloc");
    assert!(linked[0].sections[0].relocations.entries().is_empty());
    assert_eq!(linked[0].sections[1].name, ".edata");
    let mut xbld = section(".XBLD", 0x5000, 4);
    xbld.splits.push(0x5000, split_to("x", 0x5004));
    image.sections.push(xbld);
    let linked = link(&image, &defaults).unwrap();
    assert_eq!(linked[0].sections[0].name, ".XBLD$00003000");
    assert!(linked[0].sections[0].relocations.entries().is_empty());
}

#[test]
fn gaps_become_padding_in_address_order() {
    let mut rdata = section(".rdata", 0x1000, 0x20);
    rdata.original_flags = Some(0x40000040);
    rdata.splits.push(0x1004, split_to("a", 0x1008));
    rdata.splits.push(0x1010, split_to("b", 0x1014));
    // In reverse order: contributions come by address.
    let defaults = [
        object_with("b", vec![part(&rdata, 0x1010, 0x1014)], vec![]),
        object_with("none", vec![], vec![]),
        object_with("a", vec![part(&rdata, 0x1004, 0x1008)], vec![]),
    ];
    let linked = link(&image_with(vec![rdata]), &defaults).unwrap();
    let found: Vec<_> = linked
        .iter()
        .map(|obj| {
            let s = &obj.sections[0];
            (
                obj.name.as_str(),
                s.name.as_str(),
                s.virtual_address.unwrap(),
                s.data.clone(),
            )
        })
        .collect();
    assert_eq!(
        found,
        [
            ("padding_00001000", ".rdata$00001000", 0x1000, vec![0, 1, 2, 3]),
            ("a", ".rdata$00001004", 0x1004, vec![4, 5, 6, 7]),
            (
                "padding_00001008",
                ".rdata$00001008",
                0x1008,
                (8..16).collect()
            ),
            ("b", ".rdata$00001010", 0x1010, vec![16, 17, 18, 19]),
            (
                "padding_00001014",
                ".rdata$00001014",
                0x1014,
                (20..32).collect()
            ),
        ]
    );
    assert_eq!(linked[0].sections[0].original_flags, Some(0x40000040));
    assert_eq!(linked[0].sections[0].align, 1);
}

#[test]
fn padding_of_zero_fill_has_no_bytes() {
    let mut bss = section(".bss", 0x1000, 0x10);
    bss.kind = ObjSectionKind::Bss;
    bss.data = vec![];
    let object = padding(&bss, 0x1004, 0x1010).unwrap();
    assert_eq!(object.name, "padding_00001004");
    assert_eq!(object.sections[0].size, 12);
    assert!(object.sections[0].data.is_empty());
    assert_eq!(object.sections[0].kind, ObjSectionKind::Bss);
}

#[test]
fn padding_outside_the_section_is_refused() {
    let data = section(".data", 0x1000, 0x10);
    let error = padding(&data, 0x1008, 0x1018).unwrap_err();
    assert!(matches!(
        error,
        RelinkError::RangeOutsideSection(0x1008, 0x1018)
    ));
    assert_eq!(
        error.message().unwrap(),
        "Section does not contain range 0x00001008-0x00001018"
    );
}

#[test]
fn splits_must_be_concrete() {
    for (skip, common) in [(true, false), (false, true)] {
        let mut data = section(".data", 0x1000, 0x10);
        data.splits.push(
            0x1000,
            ObjSplit {
                unit: "left_out".into(),
                end: 0x1010,
                skip,
                common,
                ..Default::default()
            },
        );
        let error = link(&image_with(vec![data]), &[]).unwrap_err();
        assert!(matches!(&error, RelinkError::NotConcrete(unit) if unit == "left_out"));
        assert_eq!(
            error.message().unwrap(),
            "Link mode requires concrete contributions: left_out"
        );
    }
}

#[test]
fn sections_must_stand_in_the_image() {
    let data = section(".data", 0x1000, 0x10);
    let stray = section(".data", 0x9000, 0x10);
    let defaults = [object_with("a", vec![part(&stray, 0x9000, 0x9010)], vec![])];
    let error = link(&image_with(vec![data]), &defaults).unwrap_err();
    assert!(matches!(error, RelinkError::NoSectionAt(0x9000)));
    assert_eq!(
        error.message().unwrap(),
        "No section at address 0x00009000"
    );
}

#[test]
fn sections_without_an_address_cannot_be_linked() {
    let data = section(".data", 0x1000, 0x10);
    let mut without = part(&data, 0x1000, 0x1010);
    without.virtual_address = None;
    let image = image_with(vec![data]);
    let defaults = [object_with("a", vec![without], vec![])];
    assert!(try_link_objects(&image, &defaults).is_none());
}

#[test]
fn what_cannot_be_linked_is_not_looked_at_behind_an_error() {
    let data = section(".data", 0x1000, 0x10);
    let stray = section(".data", 0x9000, 0x10);
    let mut without = part(&data, 0x1000, 0x1010);
    without.virtual_address = None;
    let image = image_with(vec![data]);
    let defaults = [object_with(
        "a",
        vec![part(&stray, 0x9000, 0x9010), without],
        vec![],
    )];
    assert!(matches!(
        try_link_objects(&image, &defaults),
        Some(Err(RelinkError::NoSectionAt(0x9000)))
    ));
}

#[test]
fn large_addends_and_short_sections_link_where_nothing_needs_them() {
    let mut data = section(".data", 0x1000, 0x10);
    data.splits.push(0x1000, split_to("a", 0x1010));
    let mut whole = part(&data, 0x1000, 0x1010);
    whole.relocations =
        ObjRelocations::new(vec![(0, reloc(0, ObjRelocKind::Absolute, i64::MAX))]).unwrap();
    data.data.truncate(4);
    let image = image_with(vec![data]);
    let mut defaults = [object_with(
        "a",
        vec![whole],
        vec![symbol("target", Some(0), 8)],
    )];
    let linked = link(&image, &defaults).unwrap();
    let entries = linked[0].sections[0].relocations.entries();
    assert_eq!(entries[0].1.addend, i64::MAX);
    // A branch into the section to a place past 64 bits, and one to no symbol.
    for branch in [
        reloc(0, ObjRelocKind::PpcRel24, i64::MAX),
        reloc(1, ObjRelocKind::Absolute, 0),
    ] {
        defaults[0].sections[0].relocations = ObjRelocations::new(vec![(0, branch)]).unwrap();
        assert!(try_link_objects(&image, &defaults).is_none());
    }
}

#[test]
fn contributions_need_an_address() {
    let data = section(".data", 0x1000, 0x10);
    let mut without = part(&data, 0x1000, 0x1010);
    without.virtual_address = None;
    let image = image_with(vec![data]);
    let objects = vec![object_with("a", vec![without], vec![])];
    let error = finish_objects(&image, objects).unwrap().unwrap_err();
    assert!(matches!(error, RelinkError::MissingAddress));
    assert_eq!(error.message().unwrap(), "Missing contribution VA");
}

#[test]
fn contributions_keep_contents_and_places() {
    let mut data = section(".data", 0x1000, 0x20);
    data.original_raw_size = Some(0x18);
    data.splits.push(0x1000, split_to("a", 0x1010));
    data.splits.push(0x1010, split_to("a", 0x1020));
    let symbols = vec![
        symbol("first", Some(0), 4),
        symbol("second", Some(1), 4),
        symbol("third", Some(1), 8),
        symbol("fourth", Some(1), 12),
        symbol("import", None, 0),
    ];
    let defaults = [object_with(
        "a",
        vec![part(&data, 0x1000, 0x1010), part(&data, 0x1010, 0x1020)],
        symbols,
    )];
    let linked = link(&image_with(vec![data]), &defaults).unwrap();
    assert_eq!(linked.len(), 1);
    let object = &linked[0];
    let sections: Vec<_> = object
        .sections
        .iter()
        .map(|s| (s.name.as_str(), s.virtual_address.unwrap(), s.size, s.data.len()))
        .collect();
    assert_eq!(
        sections,
        [
            (".data$00001000", 0x1000, 16, 16),
            (".data$00001010", 0x1010, 8, 8),
            (".dataz$00001018", 0x1018, 8, 0),
        ]
    );
    assert_eq!(object.sections[1].data, [16, 17, 18, 19, 20, 21, 22, 23]);
    let places: Vec<_> = object
        .symbols
        .iter()
        .map(|s| {
            let start = s.section.map(|i| object.sections[i].virtual_address.unwrap());
            (s.name.as_str(), start.map(|start| start + s.address))
        })
        .collect();
    assert_eq!(
        places,
        [
            ("first", Some(0x1004)),
            ("second", Some(0x1014)),
            ("third", Some(0x1018)),
            ("fourth", Some(0x101C)),
            ("import", None),
        ]
    );
}

#[test]
fn relocations_share_no_address() {
    let error = ObjRelocations::new(vec![
        (8, reloc(0, ObjRelocKind::Absolute, 0)),
        (4, reloc(0, ObjRelocKind::Absolute, 0)),
        (8, reloc(1, ObjRelocKind::Absolute, 0)),
    ])
    .unwrap_err();
    assert!(matches!(error, RelinkError::DuplicateRelocation(8)));
    assert_eq!(
        error.message().unwrap(),
        "Duplicate relocation at 0x00000008"
    );
    let mut relocations = ObjRelocations::new(vec![
        (8, reloc(0, ObjRelocKind::Absolute, 0)),
        (4, reloc(0, ObjRelocKind::Absolute, 0)),
    ])
    .unwrap();
    assert!(relocations
        .insert(4, reloc(1, ObjRelocKind::Absolute, 0))
        .is_err());
    assert!(relocations
        .insert(6, reloc(1, ObjRelocKind::Absolute, 0))
        .is_ok());
    let offsets: Vec<_> = relocations.entries().iter().map(|e| e.0).collect();
    assert_eq!(offsets, [4, 6, 8]);
}

#[test]
fn names_sort_as_addresses_do() {
    let mut names: Vec<_> = [0x82001010u32, 0x8200FFFF, 0x82001000, 0xA, 0xFFFF_FFFF]
        .iter()
        .map(|a| with_address(".data", *a))
        .collect();
    names.push(with_address(".dataz", 0));
    names.push(".data".into());
    names.sort();
    assert_eq!(
        names,
        [
            ".data",
            ".data$0000000A",
            ".data$82001000",
            ".data$82001010",
            ".data$8200FFFF",
            ".data$FFFFFFFF",
            ".dataz$00000000",
        ]
    );
}

/// The sections of all objects: name, kind, address, size, and how many bytes they hold.
fn listed(linked: &[ObjInfo]) -> Vec<(&str, ObjSectionKind, u32, u32, usize)> {
    linked
        .iter()
        .flat_map(|obj| &obj.sections)
        .map(|s| {
            (
                s.name.as_str(),
                s.kind,
                s.virtual_address.unwrap(),
                s.size,
                s.data.len(),
            )
        })
        .collect()
}

#[test]
fn gaps_past_the_boundary_are_zero_fill() {
    let mut data = ObjSection {
        name: ".data".into(),
        kind: ObjSectionKind::Data,
        address: 0x1000,
        size: 0x400,
        data: vec![0; 0x400],
        original_raw_size: Some(0x200),
        original_flags: Some(0xC0000040),
        ..Default::default()
    };
    data.splits.push(0x1000, split_to("data", 0x1300));
    let defaults = [object_with(
        "data",
        vec![part(&data, 0x1000, 0x1300)],
        vec![],
    )];
    let linked = link(&image_with(vec![data]), &defaults).unwrap();
    assert_eq!(
        listed(&linked),
        [
            (".data$00001000", ObjSectionKind::Data, 0x1000, 0x200, 0x200),
            (".dataz$00001200", ObjSectionKind::Bss, 0x1200, 0x100, 0),
            (".dataz$00001300", ObjSectionKind::Bss, 0x1300, 0x100, 0),
        ]
    );
    assert_eq!(linked[1].name, "padding_00001300");
    assert_eq!(linked[1].sections[0].original_flags, Some(0xC0000080));
}

#[test]
fn gaps_across_the_boundary_have_a_head_and_a_tail() {
    let mut data = section(".data", 0x1000, 0x20);
    data.original_raw_size = Some(0xC);
    data.original_flags = Some(0xC0000040);
    data.splits.push(0x1000, split_to("a", 0x1008));
    data.splits.push(0x1018, split_to("b", 0x1020));
    let defaults = [
        object_with("a", vec![part(&data, 0x1000, 0x1008)], vec![]),
        object_with("b", vec![part(&data, 0x1018, 0x1020)], vec![]),
    ];
    let linked = link(&image_with(vec![data]), &defaults).unwrap();
    assert_eq!(
        listed(&linked),
        [
            (".data$00001000", ObjSectionKind::Data, 0x1000, 8, 8),
            (".data$00001008", ObjSectionKind::Data, 0x1008, 4, 4),
            (".dataz$0000100C", ObjSectionKind::Bss, 0x100C, 12, 0),
            (".dataz$00001018", ObjSectionKind::Bss, 0x1018, 8, 0),
        ]
    );
    let names: Vec<_> = linked.iter().map(|obj| obj.name.as_str()).collect();
    assert_eq!(names, ["a", "padding_00001008", "b"]);
    assert_eq!(linked[1].sections[0].data, [8, 9, 10, 11]);
    assert_eq!(linked[1].sections[0].original_flags, Some(0xC0000040));
    assert_eq!(linked[1].sections[1].original_flags, Some(0xC0000080));
    // By name they come as by address, and together they are the section.
    let mut sorted = listed(&linked);
    sorted.sort_by_key(|s| s.0);
    assert_eq!(sorted, listed(&linked));
    let mut next = 0x1000;
    for (_, _, start, size, _) in sorted {
        assert_eq!(start, next);
        next = start + size;
    }
    assert_eq!(next, 0x1020);
}

#[test]
fn gaps_hold_original_bytes() {
    let mut data = section(".data", 0x1000, 4);
    data.data = vec![9, 9, 9, 9];
    data.original_data = Some(vec![1, 0, 1, 0xA4]);
    let linked = link(&image_with(vec![data]), &[]).unwrap();
    assert_eq!(linked[0].sections[0].data, [1, 0, 1, 0xA4]);
    // Where the original bytes end before the gap, the others stay.
    let mut data = section(".data", 0x1000, 4);
    data.data = vec![9, 9, 9, 9];
    data.original_data = Some(vec![1, 0]);
    let linked = link(&image_with(vec![data]), &[]).unwrap();
    assert_eq!(linked[0].sections[0].data, [1, 0, 9, 9]);
    // Where neither reaches as far, there is nothing to link.
    let mut data = section(".data", 0x1000, 4);
    data.data = vec![9, 9];
    assert!(try_link_objects(&image_with(vec![data]), &[]).is_none());
}
