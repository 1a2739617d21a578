use libixx::{hash, searched_options, Index, IxxError, Label, Reference, SearchedOption};

fn sample() -> Index {
    let mut index = Index::new(100);
    index.push(0, "home.enableDebugInfo");
    index.push(0, "home.enableNixpkgsReleaseCheck");
    index.push(0, "home.file.<name>.enable");
    index.push(0, "home.language.measurement");
    index.push(0, "home.pointerCursor.gtk.enable");
    index.push(0, "home.pointerCursor.x11.enable");
    index.push(0, "programs.home-manager.enable");
    index.push(0, "services.home-manager.autoUpgrade.enable");
    index.push(0, "services.home-manager.autoUpgrade.frequency");
    index.push(1, "home.enableDebugInfo");
    index
}

fn small_bytes() -> Vec<u8> {
    vec![
        0x69, 0x78, 0x78, 0x30, 0x31, // magic
        0x64, 0x00, 0x00, 0x00, // chunk size
        0x01, // scope count
        0x73, 0x00, // "s"
        0x02, 0x00, 0x00, 0x00, // entry count
        0x00, 0x02, 0x00, // scope 0, two labels
        0x30, 0x61, 0x00, // in place "a"
        0x30, 0x62, 0x00, // in place "b"
        0x00, 0x02, 0x00, // scope 0, two labels
        0x31, 0x00, 0x00, 0x00, // reference to (0, 0)
        0x30, 0x63, 0x00, // in place "c"
    ]
}

#[test]
fn test() {
    // chunk_size does not really matter here currently
    let mut index = Index::new(100);

    index.push(0, "home.enableDebugInfo");
    index.push(0, "home.enableNixpkgsReleaseCheck");
    index.push(0, "home.file.<name>.enable");
    index.push(0, "home.language.measurement");
    index.push(0, "home.pointerCursor.gtk.enable");
    index.push(0, "home.pointerCursor.x11.enable");
    index.push(0, "programs.home-manager.enable");
    index.push(0, "services.home-manager.autoUpgrade.enable");
    index.push(0, "services.home-manager.autoUpgrade.frequency");
    index.push(1, "home.enableDebugInfo");

    assert_eq!(
        index.search(None, "ho*auto", 10).unwrap(),
        vec![
            (7, 0, "services.home-manager.autoUpgrade.enable".to_string()),
            (
                8,
                0,
                "services.home-manager.autoUpgrade.frequency".to_string()
            )
        ]
    );

    assert_eq!(
        index.search(None, "ho*auto*ena", 10).unwrap(),
        vec![(7, 0, "services.home-manager.autoUpgrade.enable".to_string())]
    );

    assert_eq!(
        index.search(None, "ho*en*Nix", 10).unwrap(),
        vec![(1, 0, "home.enableNixpkgsReleaseCheck".to_string())]
    );

    assert_eq!(
        index.search(None, "ho*en*Nix*Rel*Che", 10).unwrap(),
        vec![(1, 0, "home.enableNixpkgsReleaseCheck".to_string())]
    );

    assert_eq!(
        index.search(None, "enablenixpkgsreleasecheck", 10).unwrap(),
        vec![(1, 0, "home.enableNixpkgsReleaseCheck".to_string())]
    );

    // TEST scopes
    assert_eq!(
        index
            .search(Some(0), "enablenixpkgsreleasecheck", 10)
            .unwrap(),
        vec![(1, 0, "home.enableNixpkgsReleaseCheck".to_string())]
    );
    assert_eq!(
        index
            .search(Some(1), "enablenixpkgsreleasecheck", 10)
            .unwrap(),
        vec![]
    );

    // TEST options with same name in different scopes
    assert_eq!(
        index.search(None, "ho*debug", 10).unwrap(),
        vec![
            (0, 0, "home.enableDebugInfo".to_string()),
            (9, 1, "home.enableDebugInfo".to_string())
        ]
    );

    assert_eq!(
        index.get_idx_by_name(Some(0), "home.enableDebugInfo").unwrap(),
        Some(0)
    );

    assert_eq!(
        index.get_idx_by_name(Some(1), "home.enableDebugInfo").unwrap(),
        Some(9)
    );
}

#[test]
fn new_index_is_empty() {
    let index = Index::new(7);
    assert_eq!(index.chunk_size(), 7);
    assert_eq!(index.meta().chunk_size, 7);
    assert!(index.meta().scopes.is_empty());
    assert!(index.entries().is_empty());
    assert_eq!(index.search(None, "", 10).unwrap(), vec![]);
    assert_eq!(index.get_idx_by_name(None, "a").unwrap(), None);
}

#[test]
fn push_splits_at_every_dot() {
    let mut index = Index::new(1);
    index.push(3, "a..b.");
    let entries = index.entries();
    assert_eq!(entries.len(), 1);
    assert_eq!(entries[0].scope_id, 3);
    assert_eq!(
        entries[0].labels,
        vec![
            Label::InPlace(b"a".to_vec()),
            Label::InPlace(b"".to_vec()),
            Label::InPlace(b"b".to_vec()),
            Label::InPlace(b"".to_vec()),
        ]
    );
    index.push(3, "");
    assert_eq!(
        index.entries()[1].labels,
        vec![Label::Reference(Reference { option_idx: 0, label_idx: 1 })]
    );
}

#[test]
fn second_name_references_first_literal() {
    let mut index = Index::new(1);
    index.push(0, "A.B");
    index.push(0, "A.C");
    let entries = index.entries();
    assert_eq!(
        entries[0].labels,
        vec![Label::InPlace(b"A".to_vec()), Label::InPlace(b"B".to_vec())]
    );
    assert_eq!(
        entries[1].labels,
        vec![
            Label::Reference(Reference { option_idx: 0, label_idx: 0 }),
            Label::InPlace(b"C".to_vec()),
        ]
    );
}

#[test]
fn segments_are_matched_case_sensitively() {
    let mut index = Index::new(1);
    index.push(0, "A.b");
    index.push(0, "a.B");
    assert_eq!(
        index.entries()[1].labels,
        vec![Label::InPlace(b"a".to_vec()), Label::InPlace(b"B".to_vec())]
    );
}

#[test]
fn siblings_are_not_deduplicated() {
    let mut index = Index::new(1);
    index.push(0, "a.a");
    assert_eq!(
        index.entries()[0].labels,
        vec![Label::InPlace(b"a".to_vec()), Label::InPlace(b"a".to_vec())]
    );
    index.push(0, "a");
    assert_eq!(
        index.entries()[1].labels,
        vec![Label::Reference(Reference { option_idx: 0, label_idx: 0 })]
    );
    // the second literal of the first entry is not the first occurrence of its text
    assert_eq!(index.get_idx_by_name(None, "a.a").unwrap(), None);
    assert_eq!(index.get_idx_by_name(None, "a").unwrap(), Some(1));
}

#[test]
fn references_never_point_forward() {
    let index = sample();
    for (i, entry) in index.entries().iter().enumerate() {
        for label in entry.labels.iter() {
            if let Label::Reference(r) = label {
                assert!((r.option_idx as usize) < i);
            }
        }
    }
}

#[test]
fn references_resolve_to_the_pushed_segments() {
    let index = sample();
    let names = [
        "home.enableDebugInfo",
        "home.enableNixpkgsReleaseCheck",
        "home.file.<name>.enable",
        "home.language.measurement",
        "home.pointerCursor.gtk.enable",
        "home.pointerCursor.x11.enable",
        "programs.home-manager.enable",
        "services.home-manager.autoUpgrade.enable",
        "services.home-manager.autoUpgrade.frequency",
        "home.enableDebugInfo",
    ];
    for (i, entry) in index.entries().iter().enumerate().rev() {
        let segments: Vec<&str> = names[i].split('.').collect();
        assert_eq!(entry.labels.len(), segments.len());
        for (j, label) in entry.labels.iter().enumerate() {
            let text = match label {
                Label::InPlace(text) => text.clone(),
                Label::Reference(r) => index.resolve_reference(r).unwrap().clone(),
            };
            assert_eq!(text, segments[j].as_bytes().to_vec());
        }
    }
}

#[test]
fn resolve_fails_out_of_bounds() {
    let index = sample();
    assert_eq!(
        index.resolve_reference(&Reference { option_idx: 10, label_idx: 0 }),
        Err(IxxError::ReferenceOutOfBounds)
    );
    assert_eq!(
        index.resolve_reference(&Reference { option_idx: 0, label_idx: 2 }),
        Err(IxxError::ReferenceOutOfBounds)
    );
    assert_eq!(
        index.resolve_reference(&Reference { option_idx: 0, label_idx: 1 }),
        Ok(&b"enableDebugInfo".to_vec())
    );
}

#[test]
fn resolve_fails_on_reference_to_reference() {
    let index = sample();
    // the first label of the second entry is a reference to `home`
    assert_eq!(
        index.resolve_reference(&Reference { option_idx: 1, label_idx: 0 }),
        Err(IxxError::RecursiveReference)
    );
}

#[test]
fn search_fails_on_corrupt_references() {
    let mut bytes = small_bytes();
    // let the reference of the second entry point at itself
    bytes[29] = 0x01;
    let index = Index::read(&bytes).unwrap();
    assert_eq!(index.search(None, "", 10), Err(IxxError::RecursiveReference));
    assert_eq!(index.search(None, "", 1).unwrap(), vec![(0, 0, "a.b".to_string())]);
    bytes[29] = 0x02;
    let index = Index::read(&bytes).unwrap();
    assert_eq!(index.search(None, "", 10), Err(IxxError::ReferenceOutOfBounds));
    bytes[29] = 0x00;
    bytes[31] = 0x02;
    let index = Index::read(&bytes).unwrap();
    assert_eq!(index.search(None, "", 10), Err(IxxError::ReferenceOutOfBounds));
    // a scope filter that leaves the corrupt entry out leaves the error out
    assert_eq!(index.search(Some(1), "", 10).unwrap(), vec![]);
}

#[test]
fn search_fails_on_invalid_utf8() {
    let mut bytes = small_bytes();
    bytes[20] = 0xff;
    let index = Index::read(&bytes).unwrap();
    assert_eq!(index.search(None, "b", 10), Err(IxxError::InvalidUtf8));
}

#[test]
fn search_keeps_insertion_order() {
    let index = sample();
    assert_eq!(
        index.search(None, "ho*auto", 10).unwrap(),
        vec![
            (7, 0, "services.home-manager.autoUpgrade.enable".to_string()),
            (8, 0, "services.home-manager.autoUpgrade.frequency".to_string()),
        ]
    );
    assert_eq!(
        index.search(None, "ho*auto*ena", 10).unwrap(),
        vec![(7, 0, "services.home-manager.autoUpgrade.enable".to_string())]
    );
}

#[test]
fn search_ignores_case() {
    let index = sample();
    let expected = vec![(1, 0, "home.enableNixpkgsReleaseCheck".to_string())];
    assert_eq!(index.search(None, "ho*en*Nix", 10).unwrap(), expected);
    assert_eq!(index.search(None, "enablenixpkgsreleasecheck", 10).unwrap(), expected);
    assert_eq!(index.search(None, "ENABLENIXPKGSRELEASECHECK", 10).unwrap(), expected);
}

#[test]
fn search_segments_do_not_overlap() {
    let mut index = Index::new(1);
    index.push(0, "abab");
    index.push(0, "aba");
    assert_eq!(index.search(None, "ab*ab", 10).unwrap(), vec![(0, 0, "abab".to_string())]);
    assert_eq!(
        index.search(None, "ab*ba", 10).unwrap(),
        vec![]
    );
    assert_eq!(
        index.search(None, "b*a", 10).unwrap(),
        vec![(0, 0, "abab".to_string()), (1, 0, "aba".to_string())]
    );
    // the cursor follows the name, not the piece that is left of it
    let mut index = Index::new(1);
    index.push(0, "xxab.ab");
    index.push(0, "xxab.cd");
    assert_eq!(index.search(None, "xx*ab*ab", 10).unwrap(), vec![(0, 0, "xxab.ab".to_string())]);
    assert_eq!(index.search(None, "xxab*b", 10).unwrap(), vec![(0, 0, "xxab.ab".to_string())]);
}

#[test]
fn search_star_is_a_gap() {
    let index = sample();
    assert_eq!(index.search(None, "*", 100).unwrap().len(), 10);
    assert_eq!(index.search(None, "", 100).unwrap().len(), 10);
    assert_eq!(
        index.search(None, "*frequency*", 100).unwrap(),
        vec![(8, 0, "services.home-manager.autoUpgrade.frequency".to_string())]
    );
}

#[test]
fn search_filters_by_scope() {
    let mut index = Index::new(1);
    index.push(0, "home.enableDebugInfo");
    index.push(1, "home.enableDebugInfo");
    assert_eq!(
        index.search(Some(0), "ho*debug", 10).unwrap(),
        vec![(0, 0, "home.enableDebugInfo".to_string())]
    );
    assert_eq!(
        index.search(Some(1), "ho*debug", 10).unwrap(),
        vec![(1, 1, "home.enableDebugInfo".to_string())]
    );
    assert_eq!(index.search(Some(2), "ho*debug", 10).unwrap(), vec![]);
}

#[test]
fn search_stops_at_max_results() {
    let index = sample();
    assert_eq!(
        index.search(None, "home", 3).unwrap(),
        vec![
            (0, 0, "home.enableDebugInfo".to_string()),
            (1, 0, "home.enableNixpkgsReleaseCheck".to_string()),
            (2, 0, "home.file.<name>.enable".to_string()),
        ]
    );
    assert_eq!(
        index.search(None, "home", 1).unwrap(),
        vec![(0, 0, "home.enableDebugInfo".to_string())]
    );
    // with a limit of zero nothing comes back
    assert_eq!(index.search(None, "home", 0).unwrap(), vec![]);
    // a limit above the number of matches returns them all
    assert_eq!(index.search(None, "home", 100).unwrap().len(), 10);
    assert_eq!(index.search(None, "home", 10).unwrap().len(), 10);
    assert_eq!(index.search(None, "home", 9).unwrap().len(), 9);
}

#[test]
fn search_returns_exactly_the_limit() {
    let mut index = Index::new(100);
    index.push(0, "a.b");
    index.push(0, "a.c");
    assert_eq!(index.search(None, "a", 0), Ok(vec![]));
    assert_eq!(index.search(None, "a", 1), Ok(vec![(0, 0, "a.b".to_string())]));
    assert_eq!(
        index.search(None, "a", 2),
        Ok(vec![(0, 0, "a.b".to_string()), (1, 0, "a.c".to_string())])
    );
    assert_eq!(
        index.search(None, "a", 3),
        Ok(vec![(0, 0, "a.b".to_string()), (1, 0, "a.c".to_string())])
    );
    assert_eq!(index.search(Some(0), "c", 0), Ok(vec![]));
    assert_eq!(index.search(Some(0), "c", 1), Ok(vec![(1, 0, "a.c".to_string())]));
}

#[test]
fn search_reads_no_entry_at_limit_zero() {
    let mut bytes = small_bytes();
    // the only label of the first entry is no text, the second refers to itself
    bytes[20] = 0xff;
    bytes[29] = 0x01;
    let index = Index::read(&bytes).unwrap();
    assert_eq!(index.search(None, "", 0), Ok(vec![]));
    assert_eq!(index.search(None, "", 1), Err(IxxError::InvalidUtf8));
}

#[test]
fn lookup_agrees_with_push() {
    let index = sample();
    let pushed = [
        (0u8, "home.enableDebugInfo"),
        (0, "home.enableNixpkgsReleaseCheck"),
        (0, "home.file.<name>.enable"),
        (0, "home.language.measurement"),
        (0, "home.pointerCursor.gtk.enable"),
        (0, "home.pointerCursor.x11.enable"),
        (0, "programs.home-manager.enable"),
        (0, "services.home-manager.autoUpgrade.enable"),
        (0, "services.home-manager.autoUpgrade.frequency"),
        (1, "home.enableDebugInfo"),
    ];
    for (i, (scope, name)) in pushed.iter().enumerate() {
        assert_eq!(index.get_idx_by_name(Some(*scope), name).unwrap(), Some(i));
    }
    assert_eq!(index.get_idx_by_name(None, "home.enableDebugInfo").unwrap(), Some(0));
    assert_eq!(index.get_idx_by_name(Some(2), "home.enableDebugInfo").unwrap(), None);
}

#[test]
fn lookup_finds_no_partial_names() {
    let index = sample();
    assert_eq!(index.get_idx_by_name(None, "home").unwrap(), None);
    assert_eq!(index.get_idx_by_name(None, "home.enable").unwrap(), None);
    assert_eq!(index.get_idx_by_name(None, "home.file.<name>").unwrap(), None);
    assert_eq!(index.get_idx_by_name(None, "home.language.measurement.x").unwrap(), None);
    assert_eq!(index.get_idx_by_name(None, "enableDebugInfo.home").unwrap(), None);
    assert_eq!(index.get_idx_by_name(None, "nowhere").unwrap(), None);
}

#[test]
fn push_scope_counts_up_to_256() {
    let mut index = Index::new(1);
    for i in 0..256usize {
        assert_eq!(index.push_scope(format!("scope{}", i)) as usize, i);
    }
    assert_eq!(index.meta().scopes.len(), 256);
    assert_eq!(index.meta().scopes[255], b"scope255".to_vec());
    assert_eq!(index.scopes().unwrap()[17], "scope17".to_string());
    let mut out = Vec::new();
    assert_eq!(index.write_into(&mut out), Err(IxxError::Unencodable));
    assert!(out.is_empty());
}

#[test]
fn binary_form_is_exact() {
    let mut index = Index::new(100);
    assert_eq!(index.push_scope("s".to_string()), 0);
    index.push(0, "a.b");
    index.push(0, "a.c");
    let mut out = vec![0xaa];
    assert_eq!(index.write_into(&mut out), Ok(()));
    assert_eq!(out[0], 0xaa);
    assert_eq!(out[1..].to_vec(), small_bytes());
    assert_eq!(Index::read(&small_bytes()).unwrap(), index);
}

#[test]
fn binary_form_numbers_are_little_endian() {
    let mut bytes = vec![0x69, 0x78, 0x78, 0x30, 0x31, 0x04, 0x03, 0x02, 0x01, 0x00];
    bytes.extend_from_slice(&[0x01, 0x00, 0x00, 0x00, 0x07, 0x01, 0x00, 0x31, 0x34, 0x12, 0x56]);
    let index = Index::read(&bytes).unwrap();
    assert_eq!(index.chunk_size(), 0x01020304);
    assert_eq!(index.entries()[0].scope_id, 7);
    assert_eq!(
        index.entries()[0].labels,
        vec![Label::Reference(Reference { option_idx: 0x1234, label_idx: 0x56 })]
    );
    let mut out = Vec::new();
    index.write_into(&mut out).unwrap();
    assert_eq!(out, bytes);
}

#[test]
fn round_trip_gives_the_index_back() {
    let mut index = sample();
    index.push_scope("first".to_string());
    index.push_scope("second".to_string());
    index.push(1, "a..b.");
    let mut out = Vec::new();
    index.write_into(&mut out).unwrap();
    let back = Index::read(&out).unwrap();
    assert_eq!(back, index);
    assert_eq!(back.meta(), index.meta());
    assert_eq!(back.entries(), index.entries());
    // bytes after the last entry are not looked at
    out.push(0x99);
    assert_eq!(Index::read(&out).unwrap(), index);
}

#[test]
fn write_refuses_a_zero_byte() {
    let mut index = Index::new(1);
    index.push(0, "a\0b");
    let mut out = Vec::new();
    assert_eq!(index.write_into(&mut out), Err(IxxError::Unencodable));
}

#[test]
fn read_refuses_malformed_streams() {
    let good = small_bytes();
    assert!(Index::read(&good).is_ok());
    let mut bad_magic = good.clone();
    bad_magic[4] = 0x32;
    assert_eq!(Index::read(&bad_magic), Err(IxxError::Malformed));
    for cut in 0..good.len() {
        assert_eq!(Index::read(&good[..cut]), Err(IxxError::Malformed));
    }
    let mut bad_tag = good.clone();
    bad_tag[19] = 0x32;
    assert_eq!(Index::read(&bad_tag), Err(IxxError::Malformed));
    assert_eq!(Index::read(&[]), Err(IxxError::Malformed));
}

#[test]
fn scopes_are_listed_as_text() {
    let mut index = Index::new(1);
    index.push_scope("nixos".to_string());
    index.push_scope("hömé".to_string());
    assert_eq!(index.scopes(), Ok(vec!["nixos".to_string(), "hömé".to_string()]));
    let mut bytes = small_bytes();
    bytes[10] = 0xff;
    let index = Index::read(&bytes).unwrap();
    assert_eq!(index.scopes(), Err(IxxError::InvalidUtf8));
}

#[test]
fn errors_have_messages() {
    assert_eq!(IxxError::ReferenceOutOfBounds.message(), "referenced out of bounds data");
    assert_eq!(IxxError::RecursiveReference.message(), "recursive reference");
    assert_eq!(IxxError::Malformed.message(), "(de)serialization failed");
    assert_eq!(IxxError::InvalidUtf8.message(), "invalid utf8");
    assert_eq!(IxxError::Unencodable.message(), "index does not fit the binary form");
}

fn shifted_checksum(bytes: &[u8]) -> u8 {
    let mut register = 0u8;
    for byte in bytes {
        register ^= byte;
        for _ in 0..8 {
            register = if register >= 0x80 {
                (register << 1) ^ 0x9b
            } else {
                register << 1
            };
        }
    }
    register
}

#[test]
fn hash_is_crc8_lte() {
    assert_eq!(hash("123456789"), 0xea);
    assert_eq!(hash(""), 0x00);
    assert_eq!(hash("\u{1}"), 0x9b);
    assert_eq!(hash("\u{0}\u{0}"), 0x00);
}

#[test]
fn hash_shifts_every_byte_through() {
    let names = [
        "",
        "a",
        "home.enableDebugInfo",
        "home.enableNixpkgsReleaseCheck",
        "services.home-manager.autoUpgrade.frequency",
        "hömé.<name>",
        "123456789",
    ];
    for name in names.iter() {
        assert_eq!(hash(name), shifted_checksum(name.as_bytes()));
    }
    for byte in 0..128u8 {
        let text = (byte as char).to_string();
        assert_eq!(hash(&text), shifted_checksum(text.as_bytes()));
    }
}

#[test]
fn results_become_records() {
    let index = sample();
    let hits = index.search(None, "ho*auto", 10).unwrap();
    let options = searched_options(&hits);
    assert_eq!(options.len(), 2);
    assert_eq!(options[0].idx(), 7);
    assert_eq!(options[0].scope_id(), 0);
    assert_eq!(options[1].idx(), 8);
    assert_eq!(
        options[1].clone().name(),
        "services.home-manager.autoUpgrade.frequency".to_string()
    );
    assert_eq!(options[0], SearchedOption::new(7, 0, "services.home-manager.autoUpgrade.enable".to_string()));
}
