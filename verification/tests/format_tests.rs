use ggpklib::bundle::Bundle;
use ggpklib::bundle_index::make_paths;
use ggpklib::dat::{read_variable_string, wrap_usize, DatFile, DatValue};
use ggpklib::dat_schema::{ColumnType, SchemaFile, SchemaTable, TableColumn};
use ggpklib::ggpk::{find_file, Entry, EntryData, EntryTag};
use ggpklib::it::{ITFile, ITValue};
use ggpklib::translation::TranslationFile;
use ggpklib::Error;

fn push_u32(out: &mut Vec<u8>, v: u32) {
    out.extend_from_slice(&v.to_le_bytes());
}

fn push_u64(out: &mut Vec<u8>, v: u64) {
    out.extend_from_slice(&v.to_le_bytes());
}

fn column(ttype: ColumnType, array: bool) -> TableColumn {
    TableColumn {
        name: None,
        description: None,
        array,
        ttype,
        unique: false,
        localized: false,
        until: None,
        references: None,
        file: None,
        files: None,
    }
}

#[test]
fn dat_two_rows_bool_i32() {
    // row_count = 2, two rows of {bool = 1, i32 = -1}, sentinel at offset 14.
    let mut data: Vec<u8> = Vec::new();
    push_u32(&mut data, 2);
    data.extend_from_slice(&[1, 0xff, 0xff, 0xff, 0xff]);
    data.extend_from_slice(&[1, 0xff, 0xff, 0xff, 0xff]);
    data.extend_from_slice(&[0xbb; 8]);
    let dat = DatFile::new(data).unwrap();
    assert_eq!(dat.row_count(), 2);
    assert_eq!(dat.row_length(), 5);
    let columns = vec![column(ColumnType::Bool, false), column(ColumnType::I32, false)];
    for n in 0..2usize {
        let mut row = dat.nth_row(n);
        let values = row.read_with_schema(&columns).unwrap();
        assert_eq!(values.len(), 2);
        assert!(matches!(values[0], DatValue::Bool(true)));
        assert!(matches!(values[1], DatValue::I32(-1)));
    }
}

#[test]
fn dat_rejects_missing_sentinel() {
    let mut data: Vec<u8> = Vec::new();
    push_u32(&mut data, 1);
    data.extend_from_slice(&[1, 2, 3, 4]);
    assert!(matches!(DatFile::new(data), Err(Error::Format)));
}

#[test]
fn dat_rejects_uneven_rows() {
    // 5 fixed bytes cannot split into 2 rows.
    let mut data: Vec<u8> = Vec::new();
    push_u32(&mut data, 2);
    data.extend_from_slice(&[9, 9, 9, 9, 9]);
    data.extend_from_slice(&[0xbb; 8]);
    assert!(matches!(DatFile::new(data), Err(Error::Format)));
}

#[test]
fn variable_string_stops_at_even_zero_run() {
    // 'A' = 41 00 must not terminate the string early.
    let data = [0x41u8, 0x00, 0x42, 0x00, 0, 0, 0, 0];
    let s = read_variable_string(&data, 0).unwrap();
    assert_eq!(s, "AB");
}

#[test]
fn variable_string_embedded_zero_is_kept() {
    // An odd-aligned zero window inside code units does not end the scan.
    let data = [0x41u8, 0x00, 0x00, 0x04, 0x42, 0x00, 0, 0, 0, 0];
    let s = read_variable_string(&data, 0).unwrap();
    assert_eq!(s.chars().count(), 3);
    assert!(s.starts_with('A'));
}

#[test]
fn row_sentinel_is_absent() {
    assert_eq!(wrap_usize(0xfefefefefefefefe_u64 as usize), None);
    assert_eq!(wrap_usize(7), Some(7));
}

#[test]
fn dat_row_and_foreign_row_sentinels() {
    let mut data: Vec<u8> = Vec::new();
    push_u32(&mut data, 1);
    push_u64(&mut data, 0xfefefefefefefefe);
    push_u64(&mut data, 5);
    push_u64(&mut data, 0xfefefefefefefefe);
    data.extend_from_slice(&[0xbb; 8]);
    let dat = DatFile::new(data).unwrap();
    let columns = vec![column(ColumnType::Row, false), column(ColumnType::ForeignRow, false)];
    let mut row = dat.nth_row(0);
    let values = row.read_with_schema(&columns).unwrap();
    assert!(matches!(values[0], DatValue::Row(None)));
    assert!(matches!(
        values[1],
        DatValue::ForeignRow { rid: Some(5), unknown: None }
    ));
}

#[test]
fn dat_array_column() {
    let mut data: Vec<u8> = Vec::new();
    push_u32(&mut data, 1);
    push_u64(&mut data, 3); // length
    push_u64(&mut data, 8); // heap offset
    // the heap begins at the sentinel; the elements sit right after it
    data.extend_from_slice(&[0xbb; 8]);
    data.extend_from_slice(&[1, 0, 2, 0, 3, 0]);
    let dat = DatFile::new(data).unwrap();
    let columns = vec![column(ColumnType::U16, true)];
    let mut row = dat.nth_row(0);
    let values = row.read_with_schema(&columns).unwrap();
    match &values[0] {
        DatValue::Array(a) => {
            assert_eq!(a.len(), 3);
            assert!(matches!(a[0], DatValue::U16(1)));
            assert!(matches!(a[1], DatValue::U16(2)));
            assert!(matches!(a[2], DatValue::U16(3)));
        }
        other => panic!("expected an array, got {:?}", other),
    }
}

#[test]
fn schema_find_table_is_case_insensitive() {
    let schema = SchemaFile {
        version: 1,
        created_at: 0,
        tables: vec![SchemaTable {
            name: String::from("Mods"),
            columns: vec![],
            tags: vec![],
        }],
        enumerations: vec![],
    };
    assert!(schema.find_table("mods").is_some());
    assert!(schema.find_table("Mods").is_none());
    assert!(schema.find_table("nosuch").is_none());
}

#[test]
fn expander_emits_single_path() {
    // index 1 with an empty dictionary emits the fragment itself.
    let mut payload: Vec<u8> = Vec::new();
    push_u32(&mut payload, 1);
    payload.extend_from_slice(b"/Bundles2/a\0");
    let paths = make_paths(&payload);
    assert_eq!(paths, vec![b"/Bundles2/a".to_vec()]);
}

#[test]
fn expander_prefix_dictionary() {
    // A dictionary phase stores "/Bundles2/", and the path phase extends it.
    let mut payload: Vec<u8> = Vec::new();
    push_u32(&mut payload, 0);
    push_u32(&mut payload, 1);
    payload.extend_from_slice(b"/Bundles2/\0");
    push_u32(&mut payload, 0);
    push_u32(&mut payload, 1);
    payload.extend_from_slice(b"a\0");
    let paths = make_paths(&payload);
    assert_eq!(paths, vec![b"/Bundles2/a".to_vec()]);
}

#[test]
fn expander_leading_zero_toggles_base() {
    // An immediate zero token turns the dictionary phase on with an empty
    // dictionary; the next fragment only feeds the dictionary.
    let mut payload: Vec<u8> = Vec::new();
    push_u32(&mut payload, 0);
    push_u32(&mut payload, 1);
    payload.extend_from_slice(b"ab\0");
    let paths = make_paths(&payload);
    assert!(paths.is_empty());
}

#[test]
fn expander_deterministic() {
    let mut payload: Vec<u8> = Vec::new();
    push_u32(&mut payload, 0);
    push_u32(&mut payload, 1);
    payload.extend_from_slice(b"x/\0");
    push_u32(&mut payload, 0);
    push_u32(&mut payload, 1);
    payload.extend_from_slice(b"1\0");
    push_u32(&mut payload, 1);
    payload.extend_from_slice(b"2\0");
    let a = make_paths(&payload);
    let b = make_paths(&payload);
    assert_eq!(a, b);
    assert_eq!(a, vec![b"x/1".to_vec(), b"x/2".to_vec()]);
}

#[test]
fn bundle_header_round_trip() {
    let bundle = Bundle {
        uncompressed_size: 100,
        total_payload_size: 100,
        head_payload_size: 48 + 8,
        head_payload: ggpklib::bundle::HeadPayload {
            first_file_encode: 9,
            unk10: 0,
            uncompressed_size: 100,
            total_payload_size: 100,
            block_count: 2,
            uncompressed_block_granularity: 60,
            unk28: vec![0; 4],
            block_sizes: vec![60, 40],
        },
    };
    let bytes = bundle.encode();
    let (parsed, end) = Bundle::parse(&bytes, 0).unwrap();
    assert_eq!(end, bytes.len());
    assert_eq!(parsed.uncompressed_size, 100);
    assert_eq!(parsed.head_payload.block_count, 2);
    assert_eq!(parsed.head_payload.uncompressed_block_granularity, 60);
    assert_eq!(parsed.head_payload.block_sizes, vec![60, 40]);
    assert_eq!(parsed.head_payload.first_file_encode, 9);
}

#[test]
fn bundle_parse_rejects_short_input() {
    assert!(Bundle::parse(&[0u8; 10], 0).is_err());
}

fn it_lookup<'a>(f: &'a ITFile, section: &str, key: &str) -> Option<&'a ITValue> {
    for (sk, entries) in &f.sections {
        if sk == section {
            for (k, v) in entries {
                if k == key {
                    return Some(v);
                }
            }
        }
    }
    None
}

#[test]
fn it_parse_header_and_values() {
    let text = "version 2\nextends \"nothing\"\nStats\n{\n a = 42\n b = \"hi there\"\n}\n";
    let f = ITFile::parse(String::from(text)).unwrap();
    assert_eq!(f.version, 2);
    assert!(!f.aabstract);
    assert_eq!(f.extends, "nothing");
    assert_eq!(it_lookup(&f, "Stats", "a").unwrap().as_number(), 42);
    assert_eq!(it_lookup(&f, "Stats", "b").unwrap().as_string(), "hi there");
}

#[test]
fn it_parse_abstract_and_bom() {
    let text = "\u{feff}version 1\nabstract\nextends \"Metadata/x\"\n";
    let f = ITFile::parse(String::from(text)).unwrap();
    assert!(f.aabstract);
    assert_eq!(f.extends, "Metadata/x");
}

#[test]
fn it_base_tag_is_a_set() {
    let text = "version 2 extends \"parent\"\nBase\n{\n tag = \"a\"\n}\n";
    let f = ITFile::parse(String::from(text)).unwrap();
    let tag = it_lookup(&f, "Base", "tag").unwrap();
    let set = tag.as_set();
    assert_eq!(set.len(), 1);
    assert_eq!(set[0].as_string(), "a");
}

fn set_strings(v: &ITValue) -> Vec<String> {
    let mut out: Vec<String> = v.as_set().iter().map(|e| e.as_string()).collect();
    out.sort();
    out
}

#[test]
fn it_merge_unions_base_tag() {
    // A extends B: merging A over B unions the Base.tag sets and keeps the
    // child's scalars.
    let child = ITFile::parse(String::from(
        "version 2\nextends \"parent\"\nBase\n{\n tag = \"a\"\n x = 1\n}\n",
    ))
    .unwrap();
    let parent = ITFile::parse(String::from(
        "version 2\nextends \"nothing\"\nBase\n{\n tag = \"b\"\n x = 2\n y = 3\n}\nOther\n{\n z = 9\n}\n",
    ))
    .unwrap();
    let merged = child.merge(parent);
    assert_eq!(merged.extends, "parent");
    let tags = set_strings(it_lookup(&merged, "Base", "tag").unwrap());
    assert_eq!(tags, vec![String::from("a"), String::from("b")]);
    assert_eq!(it_lookup(&merged, "Base", "x").unwrap().as_number(), 1);
    assert_eq!(it_lookup(&merged, "Base", "y").unwrap().as_number(), 3);
    assert_eq!(it_lookup(&merged, "Other", "z").unwrap().as_number(), 9);
}

#[test]
fn it_merge_union_is_a_set() {
    // Unioning equal tags keeps one element.
    let child = ITFile::parse(String::from(
        "version 2\nextends \"parent\"\nBase\n{\n tag = \"a\"\n}\n",
    ))
    .unwrap();
    let parent = ITFile::parse(String::from(
        "version 2\nextends \"nothing\"\nBase\n{\n tag = \"a\"\n}\n",
    ))
    .unwrap();
    let merged = child.merge(parent);
    assert_eq!(it_lookup(&merged, "Base", "tag").unwrap().as_set().len(), 1);
}

#[test]
fn translation_single_block() {
    let file = TranslationFile::new(String::from(
        "description\n1 stat_x\nlang \"Russian\"\n1\n1 \"hello\" %\n",
    ));
    let out = file.parse().unwrap();
    assert_eq!(out.len(), 1);
    assert_eq!(out[0].lang, "Russian");
    assert_eq!(out[0].keys.len(), 1);
    match &out[0].keys[0].key {
        ggpklib::translation::StatKey::Single(id) => assert_eq!(id, "stat_x"),
        other => panic!("expected a single id, got {:?}", other),
    }
    assert_eq!(out[0].keys[0].rows.len(), 1);
    assert_eq!(out[0].keys[0].rows[0].format_string, "hello");
}

#[test]
fn translation_zero_row_count() {
    // A zero count closes the run without consuming a row line.
    let file = TranslationFile::new(String::from(
        "description\n2 stat_a stat_b\n0\ndescription\n1 stat_c\n1\n1 \"x\"\n",
    ));
    let out = file.parse().unwrap();
    assert_eq!(out.len(), 1);
    assert_eq!(out[0].lang, "English");
    match &out[0].keys[0].key {
        ggpklib::translation::StatKey::Single(id) => assert_eq!(id, "stat_c"),
        other => panic!("expected a single id, got {:?}", other),
    }
}

#[test]
fn translation_bom_and_english_default() {
    let file = TranslationFile::new(String::from(
        "\u{feff}description\n1 stat_y\n1\n10|20 \"in range\" canonical\n",
    ));
    let out = file.parse().unwrap();
    assert_eq!(out[0].lang, "English");
    assert_eq!(out[0].keys[0].rows[0].format_string, "in range");
    assert_eq!(out[0].keys[0].rows[0].condition.trim_end(), "10|20");
    assert_eq!(out[0].keys[0].rows[0].modifiers.trim(), "canonical");
}

#[test]
fn translation_multiple_ids() {
    let file = TranslationFile::new(String::from(
        "description\n2 a b\n1\n1 1 \"two\"\n",
    ));
    let out = file.parse().unwrap();
    match &out[0].keys[0].key {
        ggpklib::translation::StatKey::Multiple(ids) => {
            assert_eq!(ids, &vec![String::from("a"), String::from("b")])
        }
        other => panic!("expected multiple ids, got {:?}", other),
    }
}

fn ggpk_file_entry(name: &str, payload: &[u8]) -> Vec<u8> {
    let mut out: Vec<u8> = Vec::new();
    let name_units: Vec<u16> = name.encode_utf16().chain(std::iter::once(0)).collect();
    let length = 4 + 4 + 4 + 32 + 2 * name_units.len() + payload.len();
    push_u32(&mut out, length as u32);
    out.extend_from_slice(b"FILE");
    push_u32(&mut out, name_units.len() as u32);
    out.extend_from_slice(&[0; 32]);
    for u in &name_units {
        out.extend_from_slice(&u.to_le_bytes());
    }
    out.extend_from_slice(payload);
    out
}

#[test]
fn ggpk_find_resolves_path() {
    // Root record -> root directory (empty name) -> directory "d" -> file "f".
    let mut archive: Vec<u8> = Vec::new();
    // root GGPK record at offset 0: 4 + 4 + 4 + 16 = 28 bytes
    push_u32(&mut archive, 28);
    archive.extend_from_slice(b"GGPK");
    push_u32(&mut archive, 3);
    let pdir_root_offset = 28u64 + 8;
    push_u64(&mut archive, pdir_root_offset);
    push_u64(&mut archive, 28); // second child: the FREE record below
    // FREE record at offset 28
    push_u32(&mut archive, 8);
    archive.extend_from_slice(b"FREE");
    // root directory at offset 40: empty name (one NUL unit), one child
    let root_dir_offset = archive.len() as u64;
    assert_eq!(root_dir_offset, pdir_root_offset);
    let child_dir_offset = root_dir_offset + (4 + 4 + 4 + 4 + 32 + 2 + 12);
    push_u32(&mut archive, 0);
    archive.extend_from_slice(b"PDIR");
    push_u32(&mut archive, 1); // name_length
    push_u32(&mut archive, 1); // total_entries
    archive.extend_from_slice(&[0; 32]);
    archive.extend_from_slice(&[0, 0]); // name: a single NUL unit
    push_u32(&mut archive, 0); // child name hash
    push_u64(&mut archive, child_dir_offset);
    // directory "d" with one child file
    assert_eq!(archive.len() as u64, child_dir_offset);
    let name_units: Vec<u16> = "d".encode_utf16().chain(std::iter::once(0)).collect();
    let file_offset = child_dir_offset + (4 + 4 + 4 + 4 + 32 + 2 * name_units.len() as u64 + 12);
    push_u32(&mut archive, 0);
    archive.extend_from_slice(b"PDIR");
    push_u32(&mut archive, name_units.len() as u32);
    push_u32(&mut archive, 1);
    archive.extend_from_slice(&[0; 32]);
    for u in &name_units {
        archive.extend_from_slice(&u.to_le_bytes());
    }
    push_u32(&mut archive, 0);
    push_u64(&mut archive, file_offset);
    // file "f"
    assert_eq!(archive.len() as u64, file_offset);
    archive.extend_from_slice(&ggpk_file_entry("f", b"hi"));

    let components = vec![String::new(), String::from("d"), String::from("f")];
    let found = find_file(&archive, 0, &components).unwrap().unwrap();
    let (entry, data_offset) = found;
    assert_eq!(entry.tag, EntryTag::File);
    match &entry.data {
        EntryData::File { name, .. } => assert_eq!(name, "f"),
        other => panic!("expected a file record, got {:?}", other),
    }
    assert_eq!(entry.data_length_left(), 2);
    assert_eq!(&archive[data_offset..data_offset + 2], b"hi");
}

#[test]
fn ggpk_missing_path_is_none() {
    let mut archive: Vec<u8> = Vec::new();
    archive.extend_from_slice(&ggpk_file_entry("f", b"hi"));
    let components = vec![String::from("g")];
    assert!(find_file(&archive, 0, &components).unwrap().is_none());
}

#[test]
fn ggpk_corrupt_tag_is_an_error() {
    let mut archive: Vec<u8> = Vec::new();
    push_u32(&mut archive, 8);
    archive.extend_from_slice(b"WHAT");
    let components = vec![String::from("x")];
    assert!(matches!(
        Entry::parse(&archive, 0),
        Err(Error::Format)
    ));
    assert!(matches!(
        find_file(&archive, 0, &components),
        Err(Error::Format)
    ));
}

#[test]
fn it_parse_rejects_missing_extends() {
    assert!(matches!(
        ITFile::parse(String::from("version 2\nStats\n{\n}\n")),
        Err(Error::Format)
    ));
}

#[test]
fn it_numeric_edges() {
    let mut text = String::from("version 1\nextends \"nothing\"\nN\n{\n");
    text.push_str(" a = 2147483647\n b = -2147483648\n c = 2147483648\n d = +7\n e = 1x\n");
    text.push_str("}\n");
    let f = ITFile::parse(text).unwrap();
    assert_eq!(it_lookup(&f, "N", "a").unwrap().as_number(), 2147483647);
    assert_eq!(it_lookup(&f, "N", "b").unwrap().as_number(), -2147483648);
    assert_eq!(it_lookup(&f, "N", "c").unwrap().as_string(), "2147483648");
    assert_eq!(it_lookup(&f, "N", "d").unwrap().as_number(), 7);
    assert_eq!(it_lookup(&f, "N", "e").unwrap().as_string(), "1x");
}

#[test]
fn translation_rejects_malformed_stats_line() {
    let file = TranslationFile::new(String::from("description\nnot digits\n"));
    assert!(matches!(file.parse(), Err(Error::Format)));
}

#[test]
fn it_duplicate_key_last_wins() {
    let text = "version 1\nextends \"nothing\"\nN\n{\n a = 1\n a = 2\n}\n";
    let f = ITFile::parse(String::from(text)).unwrap();
    assert_eq!(it_lookup(&f, "N", "a").unwrap().as_number(), 2);
}

#[test]
fn it_duplicate_section_last_wins() {
    let text = "version 1\nextends \"nothing\"\nN\n{\n a = 1\n}\nN\n{\n b = 2\n}\n";
    let f = ITFile::parse(String::from(text)).unwrap();
    assert!(it_lookup(&f, "N", "a").is_none());
    assert_eq!(it_lookup(&f, "N", "b").unwrap().as_number(), 2);
}

#[test]
fn dat_string_column_reads_heap() {
    let mut data: Vec<u8> = Vec::new();
    push_u32(&mut data, 1);
    push_u64(&mut data, 8); // heap offset of the string
    data.extend_from_slice(&[0xbb; 8]);
    // string "Hi" as UTF-16LE right after the sentinel, then the zero run
    data.extend_from_slice(&[0x48, 0x00, 0x69, 0x00, 0, 0, 0, 0]);
    let dat = DatFile::new(data).unwrap();
    let columns = vec![column(ColumnType::String, false)];
    let mut row = dat.nth_row(0);
    let values = row.read_with_schema(&columns).unwrap();
    match &values[0] {
        DatValue::String(st) => assert_eq!(st, "Hi"),
        other => panic!("expected a string, got {:?}", other),
    }
}

#[test]
fn dat_scalar_types_decode() {
    let mut data: Vec<u8> = Vec::new();
    push_u32(&mut data, 1);
    data.extend_from_slice(&3i16.to_le_bytes()); // i16
    data.extend_from_slice(&70000u32.to_le_bytes()); // u32
    data.extend_from_slice(&1.5f32.to_bits().to_le_bytes()); // f32 bits
    data.extend_from_slice(&7i32.to_le_bytes()); // enumrow
    data.extend_from_slice(&[0xbb; 8]);
    let dat = DatFile::new(data).unwrap();
    let columns = vec![
        column(ColumnType::I16, false),
        column(ColumnType::U32, false),
        column(ColumnType::F32, false),
        column(ColumnType::EnumRow, false),
    ];
    let mut row = dat.nth_row(0);
    let values = row.read_with_schema(&columns).unwrap();
    assert!(matches!(values[0], DatValue::I16(3)));
    assert!(matches!(values[1], DatValue::U32(70000)));
    match values[2] {
        DatValue::F32Bits(bits) => assert_eq!(f32::from_bits(bits), 1.5),
        ref other => panic!("expected float bits, got {:?}", other),
    }
    assert!(matches!(values[3], DatValue::EnumRow(7)));
}

#[test]
fn dat_untyped_array_is_kept_opaque() {
    let mut data: Vec<u8> = Vec::new();
    push_u32(&mut data, 1);
    push_u64(&mut data, 5); // length
    push_u64(&mut data, 99); // offset
    data.extend_from_slice(&[0xbb; 8]);
    let dat = DatFile::new(data).unwrap();
    let columns = vec![column(ColumnType::Array, false)];
    let mut row = dat.nth_row(0);
    let values = row.read_with_schema(&columns).unwrap();
    assert!(matches!(values[0], DatValue::UnknownArray(99, 5)));
}

#[test]
fn translation_two_languages() {
    let file = TranslationFile::new(String::from(
        "description\n1 s\n1\n1 \"en\"\nlang \"German\"\n1\n1 \"de\"\n",
    ));
    let out = file.parse().unwrap();
    assert_eq!(out.len(), 2);
    assert_eq!(out[0].lang, "English");
    assert_eq!(out[0].keys[0].rows[0].format_string, "en");
    assert_eq!(out[1].lang, "German");
    assert_eq!(out[1].keys[0].rows[0].format_string, "de");
}

#[test]
fn entry_tags_parse() {
    assert_eq!(EntryTag::parse(b"GGPK", 0).unwrap(), EntryTag::Ggpk);
    assert_eq!(EntryTag::parse(b"FREE", 0).unwrap(), EntryTag::Free);
    assert_eq!(EntryTag::parse(b"PDIR", 0).unwrap(), EntryTag::Pdir);
    assert_eq!(EntryTag::parse(b"FILE", 0).unwrap(), EntryTag::File);
    assert!(EntryTag::parse(b"ELIF", 0).is_err());
}

#[test]
fn dat_fixed_and_variable_areas() {
    let mut data: Vec<u8> = Vec::new();
    push_u32(&mut data, 1);
    data.extend_from_slice(&[5, 6]);
    data.extend_from_slice(&[0xbb; 8]);
    data.extend_from_slice(&[9, 9]);
    let dat = DatFile::new(data).unwrap();
    assert_eq!(dat.fixed_data(), &[5, 6]);
    assert_eq!(dat.variable_data().len(), 10);
    assert_eq!(dat.iter_rows().len(), 1);
}

#[test]
fn ggpk_file_matches_only_final_component() {
    // A file record carrying a non-final component's name does not
    // resolve the path.
    let mut archive: Vec<u8> = Vec::new();
    archive.extend_from_slice(&ggpk_file_entry("f", b"hi"));
    let exact = vec![String::from("f")];
    assert!(find_file(&archive, 0, &exact).unwrap().is_some());
    let longer = vec![String::from("f"), String::from("x")];
    assert!(find_file(&archive, 0, &longer).unwrap().is_none());
}

#[test]
fn translation_empty_input() {
    let file = TranslationFile::new(String::new());
    let out = file.parse().unwrap();
    assert!(out.is_empty());
}

#[test]
fn it_rejects_text_outside_sections() {
    let text = "version 1\nextends \"nothing\"\n???\n";
    assert!(matches!(ITFile::parse(String::from(text)), Err(Error::Format)));
}

#[test]
fn translation_rejects_malformed_row() {
    let file = TranslationFile::new(String::from(
        "description\n1 s\n1\nnot a row line\n",
    ));
    assert!(matches!(file.parse(), Err(Error::Format)));
}

#[test]
fn translation_row_needs_quoted_format() {
    let file = TranslationFile::new(String::from("description\n1 s\n1\n1 plain\n"));
    assert!(matches!(file.parse(), Err(Error::Format)));
}

#[test]
fn read_to_map_names_columns() {
    let mut data: Vec<u8> = Vec::new();
    push_u32(&mut data, 1);
    data.extend_from_slice(&7i32.to_le_bytes());
    data.extend_from_slice(&[1]);
    data.extend_from_slice(&9i32.to_le_bytes());
    data.extend_from_slice(&[0xbb; 8]);
    let dat = DatFile::new(data).unwrap();
    let mut named = column(ColumnType::I32, false);
    named.name = Some(String::from("Level"));
    let columns = vec![named, column(ColumnType::Bool, false), column(ColumnType::I32, false)];
    let mut row = dat.nth_row(0);
    let m = row.read_to_map(&columns).unwrap();
    assert_eq!(m.len(), 3);
    assert_eq!(m[0].0, "Level");
    assert!(matches!(m[0].1, DatValue::I32(7)));
    assert_eq!(m[1].0, "Unknown0");
    assert!(matches!(m[1].1, DatValue::Bool(true)));
    assert_eq!(m[2].0, "Unknown1");
    assert!(matches!(m[2].1, DatValue::I32(9)));
}

#[test]
fn read_to_map_duplicate_name_last_wins() {
    let mut data: Vec<u8> = Vec::new();
    push_u32(&mut data, 1);
    data.extend_from_slice(&1i32.to_le_bytes());
    data.extend_from_slice(&2i32.to_le_bytes());
    data.extend_from_slice(&[0xbb; 8]);
    let dat = DatFile::new(data).unwrap();
    let mut a = column(ColumnType::I32, false);
    a.name = Some(String::from("x"));
    let mut b = column(ColumnType::I32, false);
    b.name = Some(String::from("x"));
    let columns = vec![a, b];
    let mut row = dat.nth_row(0);
    let m = row.read_to_map(&columns).unwrap();
    assert_eq!(m.len(), 1);
    assert!(matches!(m[0].1, DatValue::I32(2)));
}

#[test]
fn it_as_set_with_maps_elements() {
    let text = "version 1\nextends \"nothing\"\nBase\n{\n tag = \"a\"\n}\n";
    let f = ITFile::parse(String::from(text)).unwrap();
    let tag = it_lookup(&f, "Base", "tag").unwrap();
    let strings = tag.as_set_with(|v: &ITValue| v.as_string());
    assert_eq!(strings, vec![String::from("a")]);
}

#[test]
fn iter_rows_map_covers_all_rows() {
    let mut data: Vec<u8> = Vec::new();
    push_u32(&mut data, 2);
    data.extend_from_slice(&[1, 2]);
    data.extend_from_slice(&[0xbb; 8]);
    let dat = DatFile::new(data).unwrap();
    let columns = vec![column(ColumnType::Bool, false)];
    let rows = dat.iter_rows_map(&columns).unwrap();
    assert_eq!(rows.len(), 2);
    assert_eq!(rows[0][0].0, "Unknown0");
}
