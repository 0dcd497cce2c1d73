use ggpklib::bundle::{Bundle, HeadPayload};
use ggpklib::poefs::{bundle_data, extract_file, murmur64a, FileSource, PoeFS, MURMUR_SEED};
use ggpklib::Error;

use std::cell::Cell;
use std::rc::Rc;

fn push_u32(out: &mut Vec<u8>, v: u32) {
    out.extend_from_slice(&v.to_le_bytes());
}

fn push_u64(out: &mut Vec<u8>, v: u64) {
    out.extend_from_slice(&v.to_le_bytes());
}

/// A bundle header describing `payload` stored as raw blocks of up to
/// `granularity` bytes.
fn raw_bundle(payload: &[u8], granularity: u32) -> Bundle {
    let mut block_sizes: Vec<u32> = Vec::new();
    let mut rest = payload.len();
    while rest > granularity as usize {
        block_sizes.push(granularity);
        rest -= granularity as usize;
    }
    block_sizes.push(rest as u32);
    let block_count = block_sizes.len() as u32;
    Bundle {
        uncompressed_size: payload.len() as u32,
        total_payload_size: payload.len() as u32,
        head_payload_size: 48 + 4 * block_count,
        head_payload: HeadPayload {
            first_file_encode: 0,
            unk10: 0,
            uncompressed_size: payload.len() as u64,
            total_payload_size: payload.len() as u64,
            block_count,
            uncompressed_block_granularity: granularity,
            unk28: vec![0; 4],
            block_sizes,
        },
    }
}

/// A source serving in-memory bundles whose blocks are stored raw.
struct MockSource {
    files: Vec<(String, Vec<u8>)>,
    granularity: u32,
    fetches: Rc<Cell<usize>>,
}

impl FileSource for MockSource {
    fn get_file(&mut self, path: &str) -> Result<Option<(Bundle, Vec<u8>)>, Error> {
        self.fetches.set(self.fetches.get() + 1);
        for (p, bytes) in &self.files {
            if p == path {
                return Ok(Some((raw_bundle(bytes, self.granularity), bytes.clone())));
            }
        }
        Ok(None)
    }

    fn decode_block(&mut self, src: &Vec<u8>, dst_len: usize) -> Result<Vec<u8>, Error> {
        if src.len() == dst_len {
            Ok(src.clone())
        } else {
            Err(Error::Codec)
        }
    }
}

/// Builds a root index naming one bundle per file, one file record per
/// logical path, and a path heap that expands to those paths.
fn build_index(entries: &[(&str, &str, u32, u32)]) -> Vec<u8> {
    // entries: (logical path, bundle name, offset, size)
    let mut index: Vec<u8> = Vec::new();
    let mut bundle_names: Vec<&str> = Vec::new();
    for (_, b, _, _) in entries {
        if !bundle_names.contains(b) {
            bundle_names.push(b);
        }
    }
    push_u32(&mut index, bundle_names.len() as u32);
    for name in &bundle_names {
        push_u32(&mut index, name.len() as u32);
        index.extend_from_slice(name.as_bytes());
        push_u32(&mut index, 0);
    }
    push_u32(&mut index, entries.len() as u32);
    for (path, bundle, offset, size) in entries {
        let hash = murmur2::murmur64a(path.as_bytes(), 0x1337b33f);
        push_u64(&mut index, hash);
        let bundle_ix = bundle_names.iter().position(|b| b == bundle).unwrap() as u32;
        push_u32(&mut index, bundle_ix);
        push_u32(&mut index, *offset);
        push_u32(&mut index, *size);
    }
    // one path-rep per logical path
    let mut heap: Vec<u8> = Vec::new();
    let mut reps: Vec<(u64, u32, u32)> = Vec::new();
    for (path, _, _, _) in entries {
        let start = heap.len() as u32;
        push_u32(&mut heap, 1);
        heap.extend_from_slice(path.as_bytes());
        heap.push(0);
        let hash = murmur2::murmur64a(path.as_bytes(), 0x1337b33f);
        reps.push((hash, start, heap.len() as u32 - start));
    }
    push_u32(&mut index, reps.len() as u32);
    for (hash, start, size) in &reps {
        push_u64(&mut index, *hash);
        push_u32(&mut index, *start);
        push_u32(&mut index, *size);
        push_u32(&mut index, 0);
    }
    let inner = raw_bundle(&heap, 64);
    index.extend_from_slice(&inner.encode());
    index.extend_from_slice(&heap);
    index
}

fn utf16_bytes(text: &str, bom: bool) -> Vec<u8> {
    let mut out: Vec<u8> = Vec::new();
    if bom {
        out.extend_from_slice(&[0xff, 0xfe]);
    }
    for u in text.encode_utf16() {
        out.extend_from_slice(&u.to_le_bytes());
    }
    out
}

fn make_fs(
    entries: &[(&str, &str, u32, u32)],
    bundles: &[(&str, Vec<u8>)],
) -> (PoeFS<MockSource>, Rc<Cell<usize>>) {
    let index = build_index(entries);
    let mut files: Vec<(String, Vec<u8>)> = Vec::new();
    files.push((String::from("/Bundles2/_.index.bin"), index));
    for (name, content) in bundles {
        files.push((format!("/Bundles2/{}.bundle.bin", name), content.clone()));
    }
    let fetches = Rc::new(Cell::new(0));
    let source = MockSource { files, granularity: 64, fetches: fetches.clone() };
    let fs = PoeFS::new(source).unwrap();
    (fs, fetches)
}

#[test]
fn get_file_returns_record_slice() {
    // One bundle "x", one record of four bytes at offset zero under a path
    // whose keyed hash the index carries.
    let (mut fs, _) = make_fs(
        &[("/Bundles2/a.bundle.bin", "x", 0, 4)],
        &[("x", b"ABCDEF".to_vec())],
    );
    let data = fs.get_file("/Bundles2/a.bundle.bin").unwrap().unwrap();
    assert_eq!(data, b"ABCD");
}

#[test]
fn get_file_unknown_path_skips_source() {
    let (mut fs, fetches) = make_fs(
        &[("/Bundles2/a.bundle.bin", "x", 0, 4)],
        &[("x", b"ABCDEF".to_vec())],
    );
    let before = fetches.get();
    assert!(matches!(fs.get_file("/nope"), Err(Error::NotFound)));
    assert_eq!(fetches.get(), before);
}

#[test]
fn stored_hashes_match_murmur() {
    // Every expanded path is stored beside its keyed 64-bit MurmurHash2A,
    // and it matches the index's path-rep hash for that path.
    let (fs, _) = make_fs(
        &[("/Bundles2/a.bundle.bin", "x", 0, 4)],
        &[("x", b"ABCDEF".to_vec())],
    );
    assert_eq!(fs.paths.len(), 1);
    assert_eq!(fs.paths[0].bytes, b"/Bundles2/a.bundle.bin".to_vec());
    let expected = murmur2::murmur64a(b"/Bundles2/a.bundle.bin", 0x1337b33f);
    assert_eq!(fs.paths[0].hash, expected);
    assert_eq!(fs.bundle_index.path_rep[0].hash, expected);
    assert_eq!(MURMUR_SEED, 0x1337b33f);
}

#[test]
fn murmur_wrapper_matches_crate() {
    let data = b"some path".to_vec();
    assert_eq!(murmur64a(&data, 7), murmur2::murmur64a(b"some path", 7));
    assert_ne!(murmur64a(&data, 7), murmur64a(&data, 8));
}

#[test]
fn get_paths_lists_expanded_paths() {
    let (fs, _) = make_fs(
        &[("/Bundles2/a.bundle.bin", "x", 0, 4)],
        &[("x", b"ABCDEF".to_vec())],
    );
    let paths = fs.get_paths();
    assert_eq!(paths, vec![String::from("/Bundles2/a.bundle.bin")]);
}

#[test]
fn bundle_payload_round_trip() {
    // Chunking a payload into raw blocks and reassembling reproduces it,
    // with the length the header declares.
    let payload: Vec<u8> = (0..100u8).collect();
    let bundle = raw_bundle(&payload, 30);
    let fetches = Rc::new(Cell::new(0));
    let mut source = MockSource { files: vec![], granularity: 30, fetches };
    let out = bundle_data(&mut source, &bundle, &payload).unwrap();
    assert_eq!(out, payload);
    assert_eq!(out.len() as u64, bundle.head_payload.uncompressed_size);
}

#[test]
fn bundle_data_rejects_inconsistent_layout() {
    let payload: Vec<u8> = (0..10u8).collect();
    let mut bundle = raw_bundle(&payload, 30);
    bundle.head_payload.uncompressed_size = 99;
    let fetches = Rc::new(Cell::new(0));
    let mut source = MockSource { files: vec![], granularity: 30, fetches };
    assert!(bundle_data(&mut source, &bundle, &payload).is_err());
}

#[test]
fn extract_file_slices_exactly() {
    let data: Vec<u8> = (0..10u8).collect();
    assert_eq!(extract_file(&data, 2, 3).unwrap(), vec![2, 3, 4]);
    assert!(matches!(extract_file(&data, 8, 3), Err(Error::Format)));
}

#[test]
fn read_txt_decodes_utf16() {
    let content = utf16_bytes("hello world", true);
    let len = content.len() as u32;
    let (mut fs, _) = make_fs(&[("/note.txt", "t", 0, len)], &[("t", content)]);
    assert_eq!(fs.read_txt("/note.txt").unwrap(), "hello world");
    // a second read is served from the cache
    assert_eq!(fs.read_txt("/note.txt").unwrap(), "hello world");
}

#[test]
fn read_dat_parses_and_caches() {
    let mut dat: Vec<u8> = Vec::new();
    push_u32(&mut dat, 1);
    dat.extend_from_slice(&[7, 7, 7]);
    dat.extend_from_slice(&[0xbb; 8]);
    let len = dat.len() as u32;
    let (mut fs, fetches) = make_fs(&[("/table.dat64", "d", 0, len)], &[("d", dat)]);
    let parsed = fs.read_dat("/table.dat64").unwrap();
    assert_eq!(parsed.row_count(), 1);
    assert_eq!(parsed.row_length(), 3);
    let before = fetches.get();
    let again = fs.read_dat("/table.dat64").unwrap();
    assert_eq!(again.row_count(), 1);
    assert_eq!(fetches.get(), before);
}

#[test]
fn read_it_recursive_merges_chain() {
    let child = utf16_bytes(
        "version 2\nextends \"P\"\nBase\n{\n tag = \"a\"\n x = 1\n}\n",
        false,
    );
    let parent = utf16_bytes(
        "version 2\nextends \"nothing\"\nBase\n{\n tag = \"b\"\n x = 2\n}\n",
        false,
    );
    let clen = child.len() as u32;
    let plen = parent.len() as u32;
    let (mut fs, _) = make_fs(
        &[("a.it", "c", 0, clen), ("p.it", "p", 0, plen)],
        &[("c", child), ("p", parent)],
    );
    let merged = fs.read_it_recursive("a.it").unwrap();
    let mut tags: Vec<String> = Vec::new();
    for (sk, entries) in &merged.sections {
        if sk == "Base" {
            for (k, v) in entries {
                if k == "tag" {
                    for e in v.as_set() {
                        tags.push(e.as_string());
                    }
                }
                if k == "x" {
                    assert_eq!(v.as_number(), 1);
                }
            }
        }
    }
    tags.sort();
    assert_eq!(tags, vec![String::from("a"), String::from("b")]);
}

#[test]
fn read_it_recursive_detects_cycle() {
    let looping = utf16_bytes("version 2\nextends \"A\"\nBase\n{\n tag = \"a\"\n}\n", false);
    let len = looping.len() as u32;
    let (mut fs, _) = make_fs(&[("a.it", "c", 0, len)], &[("c", looping)]);
    assert!(matches!(fs.read_it_recursive("a.it"), Err(Error::Cycle)));
}

#[test]
fn get_file_known_path_missing_record_skips_source() {
    // A path the index expands whose hash no file record carries: the
    // lookup fails before the source is consulted.
    let mut index: Vec<u8> = Vec::new();
    push_u32(&mut index, 1);
    push_u32(&mut index, 1);
    index.extend_from_slice(b"x");
    push_u32(&mut index, 0);
    // one file record under a different hash
    push_u32(&mut index, 1);
    push_u64(&mut index, murmur2::murmur64a(b"/other", 0x1337b33f));
    push_u32(&mut index, 0);
    push_u32(&mut index, 0);
    push_u32(&mut index, 4);
    // one path-rep expanding to "/only.path"
    let mut heap: Vec<u8> = Vec::new();
    push_u32(&mut heap, 1);
    heap.extend_from_slice(b"/only.path\0");
    push_u32(&mut index, 1);
    push_u64(&mut index, murmur2::murmur64a(b"/only.path", 0x1337b33f));
    push_u32(&mut index, 0);
    push_u32(&mut index, heap.len() as u32);
    push_u32(&mut index, 0);
    let inner = raw_bundle(&heap, 64);
    index.extend_from_slice(&inner.encode());
    index.extend_from_slice(&heap);

    let fetches = Rc::new(Cell::new(0));
    let source = MockSource {
        files: vec![(String::from("/Bundles2/_.index.bin"), index)],
        granularity: 64,
        fetches: fetches.clone(),
    };
    let mut fs = PoeFS::new(source).unwrap();
    let before = fetches.get();
    assert!(matches!(fs.get_file("/only.path"), Err(Error::NotFound)));
    assert_eq!(fetches.get(), before);
}

#[test]
fn refused_block_is_a_codec_error() {
    // A block shorter than its expected decoded length is refused by the
    // decoder.
    let payload: Vec<u8> = vec![1, 2, 3, 4, 5];
    let mut bundle = raw_bundle(&payload, 6);
    bundle.head_payload.uncompressed_size = 6;
    let fetches = Rc::new(Cell::new(0));
    let mut source = MockSource { files: vec![], granularity: 6, fetches };
    assert!(matches!(bundle_data(&mut source, &bundle, &payload), Err(Error::Codec)));
}

#[test]
fn short_payload_is_a_format_error() {
    let payload: Vec<u8> = (0..10u8).collect();
    let bundle = raw_bundle(&payload, 10);
    let fetches = Rc::new(Cell::new(0));
    let mut source = MockSource { files: vec![], granularity: 10, fetches };
    assert!(matches!(
        bundle_data(&mut source, &bundle, &payload[..5]),
        Err(Error::Format)
    ));
}

#[test]
fn index_with_bad_bundle_reference_is_rejected() {
    // A file record naming a bundle that does not exist fails construction.
    let mut index: Vec<u8> = Vec::new();
    push_u32(&mut index, 1);
    push_u32(&mut index, 1);
    index.extend_from_slice(b"x");
    push_u32(&mut index, 0);
    push_u32(&mut index, 1);
    push_u64(&mut index, 1234);
    push_u32(&mut index, 9); // bundle index out of range
    push_u32(&mut index, 0);
    push_u32(&mut index, 4);
    push_u32(&mut index, 0); // no path reps
    let heap: Vec<u8> = Vec::new();
    let inner = raw_bundle_empty();
    index.extend_from_slice(&inner.encode());
    index.extend_from_slice(&heap);
    let fetches = Rc::new(Cell::new(0));
    let source = MockSource {
        files: vec![(String::from("/Bundles2/_.index.bin"), index)],
        granularity: 64,
        fetches,
    };
    assert!(matches!(PoeFS::new(source), Err(Error::Format)));
}

/// A bundle header for an empty payload: no blocks at all.
fn raw_bundle_empty() -> Bundle {
    Bundle {
        uncompressed_size: 0,
        total_payload_size: 0,
        head_payload_size: 48,
        head_payload: HeadPayload {
            first_file_encode: 0,
            unk10: 0,
            uncompressed_size: 0,
            total_payload_size: 0,
            block_count: 0,
            uncompressed_block_granularity: 0,
            unk28: vec![0; 4],
            block_sizes: vec![],
        },
    }
}

#[test]
fn get_file_slice_outside_bundle_is_rejected() {
    // The record asks for more bytes than the bundle decompresses to.
    let (mut fs, _) = make_fs(
        &[("/Bundles2/a.bundle.bin", "x", 4, 10)],
        &[("x", b"ABCDEF".to_vec())],
    );
    assert!(matches!(
        fs.get_file("/Bundles2/a.bundle.bin"),
        Err(Error::Format)
    ));
}

#[test]
fn index_records_are_exposed() {
    let (fs, _) = make_fs(
        &[("/Bundles2/a.bundle.bin", "x", 0, 4)],
        &[("x", b"ABCDEF".to_vec())],
    );
    assert_eq!(fs.bundle_index.bundle_count, 1);
    assert_eq!(fs.bundle_index.bundles[0].name, "x");
    assert_eq!(fs.bundle_index.files_count, 1);
    assert_eq!(fs.bundle_index.files[0].file_size, 4);
}

#[test]
fn read_it_parses_through_the_vfs() {
    let content = utf16_bytes("version 3\nextends \"nothing\"\nK\n{\n v = 5\n}\n", true);
    let len = content.len() as u32;
    let (mut fs, _) = make_fs(&[("k.it", "b", 0, len)], &[("b", content)]);
    let f = fs.read_it("k.it").unwrap();
    assert_eq!(f.version, 3);
    assert_eq!(f.extends, "nothing");
    let again = fs.read_it("k.it").unwrap();
    assert_eq!(again.version, 3);
}

#[test]
fn repeated_heap_paths_are_deduplicated() {
    // Two path-rep slices expanding the same path yield one stored path.
    let (fs, _) = make_fs(
        &[
            ("/Bundles2/a.bundle.bin", "x", 0, 4),
            ("/Bundles2/a.bundle.bin", "x", 0, 4),
        ],
        &[("x", b"ABCDEF".to_vec())],
    );
    assert_eq!(fs.paths.len(), 1);
    assert_eq!(fs.get_paths().len(), 1);
}
