//! The virtual filesystem: one path-addressed lookup over a source adapter
//! that serves bundle-headed resources, the parsed bundle index, and
//! per-format caches.
use vstd::arithmetic::div_mod::lemma_fundamental_div_mod;
use vstd::prelude::*;
use vstd::string::{StringExecFns, StringSliceAdditionalSpecFns};

use crate::bundle::Bundle;
use crate::Error;

verus! {

/// The capability a source adapter supplies: fetching bundle-headed
/// resources by logical path, and the opaque block-decode primitive of the
/// bundle codec. Implementations live outside the library (a local archive,
/// a patch server) and wrap whichever block decoder is available.
pub trait FileSource {
    /// Fetches the resource at `path`: its parsed bundle header and the
    /// compressed payload that follows it. `Ok(None)` means the resource
    /// does not exist. Nothing is promised of the outcome.
    fn get_file(&mut self, path: &str) -> (r: Result<Option<(Bundle, Vec<u8>)>, Error>);

    /// Decodes one compressed block into exactly `dst_len` bytes; a decoder
    /// that cannot fails instead.
    fn decode_block(&mut self, src: &Vec<u8>, dst_len: usize) -> (r: Result<Vec<u8>, Error>)
        ensures
            r matches Ok(v) ==> v@.len() == dst_len,
    ;
}

/// The sum of the first `n` declared block sizes.
pub open spec fn sizes_sum(s: Seq<u32>, n: int) -> int
    decreases n,
{
    if n <= 0 {
        0
    } else {
        sizes_sum(s, n - 1) + s[n - 1]
    }
}

/// A header whose declared block layout can cover its uncompressed size:
/// block sizes are declared for every block, and the uncompressed size
/// fills every block's granule with only the last one partial.
pub open spec fn wf_layout(b: Bundle) -> bool {
    let bc = b.head_payload.block_count as int;
    let g = b.head_payload.uncompressed_block_granularity as int;
    let u = b.head_payload.uncompressed_size as int;
    &&& b.head_payload.block_sizes@.len() == bc
    &&& if bc == 0 {
        u == 0
    } else {
        g > 0 && (bc - 1) * g < u <= bc * g
    }
}

/// The granule arithmetic behind the block plan: with only the last block
/// partial, the expected block lengths add up to the uncompressed size.
pub proof fn lemma_last_block(u: int, g: int, bc: int)
    requires
        g > 0,
        bc >= 1,
        (bc - 1) * g < u <= bc * g,
    ensures
        (bc - 1) * g + (if u % g == 0 {
            g
        } else {
            u % g
        }) == u,
{
    lemma_fundamental_div_mod(u, g);
    let q = u / g;
    let r = u % g;
    if r == 0 {
        assert(q == bc) by (nonlinear_arith)
            requires
                g > 0,
                u == g * q,
                0 <= r < g,
                (bc - 1) * g < u <= bc * g,
                r == 0,
        ;
        assert((bc - 1) * g + g == u) by (nonlinear_arith)
            requires
                u == g * q,
                q == bc,
        ;
    } else {
        assert(q == bc - 1) by (nonlinear_arith)
            requires
                g > 0,
                u == g * q + r,
                0 < r < g,
                (bc - 1) * g < u <= bc * g,
        ;
        assert((bc - 1) * g + r == u) by (nonlinear_arith)
            requires
                u == g * q + r,
                q == bc - 1,
        ;
    }
}

/// Reassembles a bundle's payload: decodes each declared block through the
/// source's block decoder into its expected granule length and
/// concatenates the results. On success the output length is exactly the
/// header's uncompressed size; a header whose layout cannot deliver that,
/// or a payload shorter than the declared blocks, is rejected.
pub fn bundle_data<S: FileSource>(source: &mut S, bundle: &Bundle, payload: &[u8]) -> (r: Result<
    Vec<u8>,
    Error,
>)
    ensures
        r matches Ok(v) ==> v@.len() == bundle.head_payload.uncompressed_size,
        !(wf_layout(*bundle) && sizes_sum(
            bundle.head_payload.block_sizes@,
            bundle.head_payload.block_count as int,
        ) <= payload@.len()) ==> r is Err,
        bundle.head_payload.block_count == 0 && bundle.head_payload.block_sizes@.len() == 0
            && bundle.head_payload.uncompressed_size == 0 ==> {
            &&& r matches Ok(v)
            &&& v@.len() == 0
        },
{
    let bc = bundle.head_payload.block_sizes.len();
    if bc as u64 != bundle.head_payload.block_count as u64 {
        return Err(Error::Format);
    }
    let u = bundle.head_payload.uncompressed_size;
    if bc == 0 {
        if u != 0 {
            return Err(Error::Format);
        }
        let out: Vec<u8> = Vec::new();
        return Ok(out);
    }
    let g = bundle.head_payload.uncompressed_block_granularity;
    if g == 0 {
        return Err(Error::Format);
    }
    let bc64 = bc as u64;
    let g64 = g as u64;
    proof {
        assert((bc64 - 1) * g64 <= 0xffff_ffffu64 * 0xffff_ffffu64 && bc64 * g64 <= 0xffff_ffffu64
            * 0xffff_ffffu64) by (nonlinear_arith)
            requires
                1 <= bc64 <= 0xffff_ffffu64,
                1 <= g64 <= 0xffff_ffffu64,
        ;
    }
    if !((bc64 - 1) * g64 < u && u <= bc64 * g64) {
        return Err(Error::Format);
    }
    let rem = u % g64;
    let last: u64 = if rem == 0 {
        g64
    } else {
        rem
    };
    proof {
        lemma_last_block(u as int, g64 as int, bc64 as int);
    }
    let plen = payload.len();
    let mut out: Vec<u8> = Vec::new();
    let mut off: usize = 0;
    let mut i: usize = 0;
    while i < bc
        invariant
            bc == bundle.head_payload.block_sizes@.len(),
            bc == bundle.head_payload.block_count,
            bc >= 1,
            g == bundle.head_payload.uncompressed_block_granularity,
            g > 0,
            u == bundle.head_payload.uncompressed_size,
            g64 == g,
            bc64 == bc,
            (bc64 - 1) * g64 < u <= bc64 * g64,
            (bc64 - 1) * g64 + last == u,
            plen == payload@.len(),
            i <= bc,
            off == sizes_sum(bundle.head_payload.block_sizes@, i as int),
            off <= plen,
            out@.len() == if i < bc {
                (i as int) * (g as int)
            } else {
                u as int
            },
        decreases bc - i,
    {
        let bs = bundle.head_payload.block_sizes[i] as usize;
        if plen - off < bs {
            return Err(Error::Format);
        }
        let src_block = crate::bytes::copy_range(payload, off, bs);
        let out_len: usize = if i + 1 < bc {
            proof {
                assert((i as int + 1) * (g as int) <= (bc64 - 1) * g64) by (nonlinear_arith)
                    requires
                        0 <= i as int,
                        i as int + 1 < bc64 as int,
                        g as int == g64 as int,
                        g64 >= 1,
                ;
            }
            g as usize
        } else {
            last as usize
        };
        let mut decoded = source.decode_block(&src_block, out_len)?;
        out.append(&mut decoded);
        proof {
            assert((i as int + 1) * (g as int) == (i as int) * (g as int) + g as int)
                by (nonlinear_arith);
        }
        off = off + bs;
        i = i + 1;
    }
    Ok(out)
}


impl Bundle {
    /// Reassembles this bundle's payload through the source's block
    /// decoder; on success the result is exactly as long as the header's
    /// uncompressed size.
    pub fn data<S: FileSource>(&self, source: &mut S, payload: &[u8]) -> (r: Result<
        Vec<u8>,
        Error,
    >)
        ensures
            r matches Ok(v) ==> v@.len() == self.head_payload.uncompressed_size,
            !(wf_layout(*self) && sizes_sum(
                self.head_payload.block_sizes@,
                self.head_payload.block_count as int,
            ) <= payload@.len()) ==> r is Err,
            self.head_payload.block_count == 0 && self.head_payload.block_sizes@.len() == 0
                && self.head_payload.uncompressed_size == 0 ==> {
                &&& r matches Ok(v)
                &&& v@.len() == 0
            },
    {
        bundle_data(source, self, payload)
    }
}

/// Copies the slice `[offset, offset + size)` out of a decompressed
/// bundle. Succeeds exactly when the slice lies inside the data.
pub fn extract_file(data: &Vec<u8>, offset: u32, size: u32) -> (r: Result<Vec<u8>, Error>)
    ensures
        r matches Ok(v) ==> v@ == data@.subrange(offset as int, offset as int + size as int),
        r is Ok <==> offset + size <= data@.len(),
{
    let len = data.len();
    if (offset as u64) + (size as u64) > len as u64 {
        return Err(Error::Format);
    }
    Ok(crate::bytes::copy_range(data.as_slice(), offset as usize, size as usize))
}

/// What the keyed 64-bit MurmurHash2A of a byte sequence is.
pub uninterp spec fn murmur64a_of(data: Seq<u8>, seed: u64) -> u64;

/// Relies on murmur2::murmur64a: the endianness-independent 64-bit
/// MurmurHash2A of the bytes under the given seed; the result depends on
/// the bytes and the seed alone.
#[verifier::external_body]
pub fn murmur64a(data: &Vec<u8>, seed: u64) -> (r: u64)
    ensures
        r == murmur64a_of(data@, seed),
{
    murmur2::murmur64a(data, seed)
}


/// The seed of the keyed path hash used by the bundle index.
pub const MURMUR_SEED: u64 = 0x1337b33f;

/// One known logical path and its keyed hash.
#[derive(Debug, Clone)]
pub struct PathEntry {
    pub bytes: Vec<u8>,
    pub hash: u64,
}


/// The byte strings of the stored path entries, in order.
pub open spec fn path_bytes_of(s: Seq<PathEntry>) -> Seq<Seq<u8>> {
    s.map_values(|e: PathEntry| e.bytes@)
}

/// Every path the first `n` path-representation slices of the heap
/// expand to, in slice order then expansion order. A slice that does not
/// fit inside the heap contributes nothing.
pub open spec fn expanded_paths(
    reps: Seq<crate::bundle_index::PathRep>,
    heap: Seq<u8>,
    n: int,
) -> Seq<Seq<u8>>
    decreases n,
{
    if n <= 0 {
        Seq::empty()
    } else {
        let rep = reps[n - 1];
        expanded_paths(reps, heap, n - 1) + crate::bundle_index::spec_make_paths(
            heap.subrange(
                rep.payload_offset as int,
                rep.payload_offset as int + rep.payload_size as int,
            ),
        )
    }
}


/// The first value stored under key `k` in a string-keyed cache.
pub open spec fn assoc_lookup<V>(c: Seq<(String, V)>, k: Seq<char>) -> Option<V>
    decreases c.len(),
{
    if c.len() == 0 {
        None
    } else if c[0].0@ == k {
        Some(c[0].1)
    } else {
        assoc_lookup(c.drop_first(), k)
    }
}

/// With no match among the first `i` entries and a match at `i`, the
/// lookup lands on entry `i`.
pub proof fn lemma_assoc_lookup_at<V>(c: Seq<(String, V)>, k: Seq<char>, i: int)
    requires
        0 <= i < c.len(),
        c[i].0@ == k,
        forall|j: int| 0 <= j < i ==> (#[trigger] c[j]).0@ != k,
    ensures
        assoc_lookup(c, k) == Some(c[i].1),
    decreases i,
{
    if i > 0 {
        lemma_assoc_lookup_at(c.drop_first(), k, i - 1);
    }
}

/// With no match anywhere, the lookup is empty.
pub proof fn lemma_assoc_lookup_none<V>(c: Seq<(String, V)>, k: Seq<char>)
    requires
        forall|j: int| 0 <= j < c.len() ==> (#[trigger] c[j]).0@ != k,
    ensures
        assoc_lookup(c, k) is None,
    decreases c.len(),
{
    if c.len() > 0 {
        lemma_assoc_lookup_none(c.drop_first(), k);
    }
}

/// Appending an entry changes only lookups that were empty and match its
/// key.
pub proof fn lemma_assoc_lookup_push<V>(c: Seq<(String, V)>, e: (String, V), k: Seq<char>)
    ensures
        assoc_lookup(c.push(e), k) == if assoc_lookup(c, k) is Some {
            assoc_lookup(c, k)
        } else if e.0@ == k {
            Some(e.1)
        } else {
            None
        },
    decreases c.len(),
{
    if c.len() == 0 {
        assert(c.push(e)[0] == e);
        assert(c.push(e).drop_first() =~= Seq::<(String, V)>::empty());
        assert(assoc_lookup(c, k) is None);
        if e.0@ == k {
            assert(assoc_lookup(c.push(e), k) == Some(e.1));
        } else {
            assert(assoc_lookup(c.push(e), k) == assoc_lookup(Seq::<(String, V)>::empty(), k));
        }
    } else {
        assert(c.push(e)[0] == c[0]);
        assert(c.push(e).drop_first() =~= c.drop_first().push(e));
        lemma_assoc_lookup_push(c.drop_first(), e, k);
        if c[0].0@ == k {
            assert(assoc_lookup(c.push(e), k) == Some(c[0].1));
            assert(assoc_lookup(c, k) == Some(c[0].1));
        } else {
            assert(assoc_lookup(c.push(e), k) == assoc_lookup(c.drop_first().push(e), k));
            assert(assoc_lookup(c, k) == assoc_lookup(c.drop_first(), k));
        }
    }
}

/// A sequence with every repeated element dropped, keeping first
/// occurrences.
pub open spec fn dedup_first(s: Seq<Seq<u8>>) -> Seq<Seq<u8>>
    decreases s.len(),
{
    if s.len() == 0 {
        Seq::empty()
    } else {
        let front = dedup_first(s.drop_last());
        if front.contains(s.last()) {
            front
        } else {
            front.push(s.last())
        }
    }
}

/// The virtual filesystem: a source adapter, the parsed index, the
/// expanded paths with their hashes, and the hash-to-file-record map.
pub struct PoeFS<S: FileSource> {
    pub source: S,
    pub bundle_index: crate::bundle_index::BundleIndex,
    pub paths: Vec<PathEntry>,
    pub file_map: std::collections::HashMap<u64, usize>,
    pub dat_cache: Vec<(String, crate::dat::DatFile)>,
    pub txt_cache: Vec<(String, String)>,
    pub it_cache: Vec<(String, crate::it::ITFile)>,
    pub it_recursive_cache: Vec<(String, crate::it::ITFile)>,
}

impl<S: FileSource> PoeFS<S> {
    /// The filesystem's invariant: every stored path carries its own keyed
    /// hash, the file map sends hashes to real file-record indices, and
    /// every file record names a real bundle.
    pub open spec fn wf(self) -> bool {
        &&& forall|i: int|
            0 <= i < self.paths@.len() ==> (#[trigger] self.paths@[i]).hash == murmur64a_of(
                self.paths@[i].bytes@,
                MURMUR_SEED as u64,
            )
        &&& forall|i: int, j: int|
            0 <= i < j < self.paths@.len() ==> (#[trigger] self.paths@[i]).bytes@ != (
            #[trigger] self.paths@[j]).bytes@
        &&& forall|h: u64|
            self.file_map@.contains_key(h) ==> #[trigger] self.file_map@[h]
                < self.bundle_index.files@.len()
        &&& forall|i: int|
            0 <= i < self.bundle_index.files@.len() ==> (#[trigger] self.bundle_index.files@[i]).bundle_index
                < self.bundle_index.bundles@.len()
        &&& forall|i: int|
            0 <= i < self.bundle_index.files@.len() ==> {
                let h = (#[trigger] self.bundle_index.files@[i]).hash;
                &&& self.file_map@.contains_key(h)
                &&& i <= self.file_map@[h]
                &&& self.bundle_index.files@[self.file_map@[h] as int].hash == h
            }
        &&& forall|i: int| 0 <= i < self.dat_cache@.len() ==> (#[trigger] self.dat_cache@[i]).1.wf()
        &&& forall|i: int| 0 <= i < self.it_cache@.len() ==> (#[trigger] self.it_cache@[i]).1.wf()
        &&& forall|i: int|
            0 <= i < self.it_recursive_cache@.len() ==> (
            #[trigger] self.it_recursive_cache@[i]).1.wf()
    }

    /// Whether `p` is one of the expanded logical paths.
    pub open spec fn has_path(self, p: Seq<u8>) -> bool {
        exists|i: int| 0 <= i < self.paths@.len() && (#[trigger] self.paths@[i]).bytes@ == p
    }

    /// Builds the filesystem over a source: fetches and decompresses the
    /// root index, parses it, expands every path-representation slice of
    /// the heap into full paths and hashes each, maps file hashes to their
    /// record indices, and rejects an index whose file records name
    /// bundles that do not exist.
    pub fn new(source: S) -> (r: Result<PoeFS<S>, Error>)
        ensures
            r matches Ok(fs) ==> fs.wf() && path_bytes_of(fs.paths@) == dedup_first(
                expanded_paths(
                    fs.bundle_index.path_rep@,
                    fs.bundle_index.path_rep_data@,
                    fs.bundle_index.path_rep@.len() as int,
                ),
            ),
    {
        let mut source = source;
        let fetched = source.get_file("/Bundles2/_.index.bin")?;
        let (bundle, file) = match fetched {
            Some(x) => x,
            None => {
                return Err(Error::NotFound);
            },
        };
        let uncompressed = bundle_data(&mut source, &bundle, file.as_slice())?;
        let bundle_index = crate::bundle_index::BundleIndex::parse(
            uncompressed.as_slice(),
            &mut source,
        )?;
        let mut paths: Vec<PathEntry> = Vec::new();
        let heap_len = bundle_index.path_rep_data.len();
        let rep_count = bundle_index.path_rep.len();
        let mut rix: usize = 0;
        while rix < rep_count
            invariant
                rep_count == bundle_index.path_rep@.len(),
                heap_len == bundle_index.path_rep_data@.len(),
                rix <= rep_count,
                forall|i: int|
                    0 <= i < paths@.len() ==> (#[trigger] paths@[i]).hash == murmur64a_of(
                        paths@[i].bytes@,
                        MURMUR_SEED as u64,
                    ),
                forall|i: int, j: int|
                    0 <= i < j < paths@.len() ==> (#[trigger] paths@[i]).bytes@ != (
                    #[trigger] paths@[j]).bytes@,
                path_bytes_of(paths@) == dedup_first(
                    expanded_paths(
                        bundle_index.path_rep@,
                        bundle_index.path_rep_data@,
                        rix as int,
                    ),
                ),
            decreases rep_count - rix,
        {
            let rep = &bundle_index.path_rep[rix];
            let start = rep.payload_offset as usize;
            let size = rep.payload_size as usize;
            if start > heap_len || heap_len - start < size {
                return Err(Error::Format);
            }
            let payload = &bundle_index.path_rep_data.as_slice()[start..(start + size)];
            let expanded = crate::bundle_index::make_paths(payload);
            let ghost slice_paths = crate::bundle_index::spec_make_paths(
                bundle_index.path_rep_data@.subrange(start as int, start as int + size as int),
            );
            proof {
                assert(expanded.deep_view() == slice_paths);
            }
            let mut j: usize = 0;
            let m = expanded.len();
            while j < m
                invariant
                    m == expanded@.len(),
                    j <= m,
                    expanded.deep_view() == slice_paths,
                    forall|i: int|
                        0 <= i < paths@.len() ==> (#[trigger] paths@[i]).hash == murmur64a_of(
                            paths@[i].bytes@,
                            MURMUR_SEED as u64,
                        ),
                    forall|i: int, jj: int|
                        0 <= i < jj < paths@.len() ==> (#[trigger] paths@[i]).bytes@ != (
                        #[trigger] paths@[jj]).bytes@,
                    path_bytes_of(paths@) == dedup_first(
                        expanded_paths(
                            bundle_index.path_rep@,
                            bundle_index.path_rep_data@,
                            rix as int,
                        ) + slice_paths.subrange(0, j as int),
                    ),
                decreases m - j,
            {
                let ghost pre = paths@;
                let path = expanded[j].clone();
                let hash = murmur64a(&path, MURMUR_SEED);
                proof {
                    assert(path@ == expanded@[j as int]@);
                    assert(expanded@[j as int]@ == expanded.deep_view()[j as int]);
                }
                let mut dup = false;
                let mut q: usize = 0;
                let plen = paths.len();
                while q < plen
                    invariant
                        plen == paths@.len(),
                        q <= plen,
                        paths@ == pre,
                        path@ == slice_paths[j as int],
                        dup == exists|i: int| 0 <= i < q && (#[trigger] paths@[i]).bytes@ == path@,
                    decreases plen - q,
                {
                    if crate::bytes::bytes_eq(paths[q].bytes.as_slice(), path.as_slice()) {
                        dup = true;
                    }
                    q = q + 1;
                }
                let ghost acc = expanded_paths(
                    bundle_index.path_rep@,
                    bundle_index.path_rep_data@,
                    rix as int,
                ) + slice_paths.subrange(0, j as int);
                proof {
                    assert(acc.push(slice_paths[j as int]) =~= expanded_paths(
                        bundle_index.path_rep@,
                        bundle_index.path_rep_data@,
                        rix as int,
                    ) + slice_paths.subrange(0, j as int + 1));
                    assert(acc.push(slice_paths[j as int]).drop_last() =~= acc);
                    assert(dup == path_bytes_of(pre).contains(path@)) by {
                        if dup {
                            let i = choose|i: int|
                                0 <= i < pre.len() && (#[trigger] pre[i]).bytes@ == path@;
                            assert(path_bytes_of(pre)[i] == path@);
                        } else {
                            if path_bytes_of(pre).contains(path@) {
                                let i = choose|i: int|
                                    0 <= i < path_bytes_of(pre).len() && path_bytes_of(pre)[i]
                                        == path@;
                                assert(pre[i].bytes@ == path@);
                            }
                        }
                    }
                }
                if !dup {
                    paths.push(PathEntry { bytes: path, hash });
                    proof {
                        assert(path_bytes_of(paths@) =~= path_bytes_of(pre).push(path@));
                    }
                }
                j = j + 1;
            }
            proof {
                assert(slice_paths.subrange(0, m as int) =~= slice_paths);
                assert(expanded_paths(
                    bundle_index.path_rep@,
                    bundle_index.path_rep_data@,
                    rix as int + 1,
                ) == expanded_paths(
                    bundle_index.path_rep@,
                    bundle_index.path_rep_data@,
                    rix as int,
                ) + slice_paths);
            }
            rix = rix + 1;
        }
        let mut file_map: std::collections::HashMap<u64, usize> =
            std::collections::HashMap::new();
        let files_len = bundle_index.files.len();
        let bundles_len = bundle_index.bundles.len();
        let mut fi: usize = 0;
        while fi < files_len
            invariant
                files_len == bundle_index.files@.len(),
                bundles_len == bundle_index.bundles@.len(),
                fi <= files_len,
                forall|h: u64|
                    file_map@.contains_key(h) ==> #[trigger] file_map@[h]
                        < bundle_index.files@.len(),
                forall|i: int|
                    0 <= i < fi ==> (#[trigger] bundle_index.files@[i]).bundle_index
                        < bundle_index.bundles@.len(),
                forall|i: int|
                    0 <= i < fi ==> {
                        let h = (#[trigger] bundle_index.files@[i]).hash;
                        &&& file_map@.contains_key(h)
                        &&& i <= file_map@[h]
                        &&& bundle_index.files@[file_map@[h] as int].hash == h
                    },
            decreases files_len - fi,
        {
            let rec = &bundle_index.files[fi];
            if rec.bundle_index as usize >= bundles_len {
                return Err(Error::Format);
            }
            file_map.insert(rec.hash, fi);
            fi = fi + 1;
        }
        Ok(
            PoeFS {
                source,
                bundle_index,
                paths,
                file_map,
                dat_cache: Vec::new(),
                txt_cache: Vec::new(),
                it_cache: Vec::new(),
                it_recursive_cache: Vec::new(),
            },
        )
    }

    /// Looks up a path's stored hash by scanning the expanded paths in
    /// order; with the invariant this is the path's own keyed hash.
    fn lookup_hash(&self, pbytes: &[u8]) -> (r: Option<u64>)
        requires
            self.wf(),
        ensures
            r is Some <==> self.has_path(pbytes@),
            r matches Some(h) ==> h == murmur64a_of(pbytes@, MURMUR_SEED as u64),
    {
        let n = self.paths.len();
        let mut i: usize = 0;
        while i < n
            invariant
                self.wf(),
                n == self.paths@.len(),
                i <= n,
                forall|k: int| 0 <= k < i ==> (#[trigger] self.paths@[k]).bytes@ != pbytes@,
            decreases n - i,
        {
            if crate::bytes::bytes_eq(self.paths[i].bytes.as_slice(), pbytes) {
                return Some(self.paths[i].hash);
            }
            i = i + 1;
        }
        None
    }

    /// The logical paths the index knows, as strings. The order is the
    /// expansion order; callers should not rely on it.
    pub fn get_paths(&self) -> (r: Vec<String>)
        ensures
            r@.len() == self.paths@.len(),
            forall|i: int|
                0 <= i < r@.len() ==> (#[trigger] r@[i])@ == crate::text::utf8_lossy_of(
                    self.paths@[i].bytes@,
                ),
    {
        let n = self.paths.len();
        let mut out: Vec<String> = Vec::new();
        let mut i: usize = 0;
        while i < n
            invariant
                n == self.paths@.len(),
                i <= n,
                out@.len() == i,
                forall|k: int|
                    0 <= k < i ==> (#[trigger] out@[k])@ == crate::text::utf8_lossy_of(
                        self.paths@[k].bytes@,
                    ),
            decreases n - i,
        {
            out.push(crate::text::utf8_lossy(&self.paths[i].bytes));
            i = i + 1;
        }
        out
    }


    /// The resource the source will be asked for when fetching `path`,
    /// with the record's offset and size inside that bundle: the bundle
    /// named by the path's file record, addressed as
    /// `/Bundles2/<name>.bundle.bin`. Empty exactly when the path or its
    /// hash is unknown.
    pub fn bundle_path_for(&self, path: &str) -> (r: Option<(String, u32, u32)>)
        requires
            self.wf(),
        ensures
            r is Some <==> self.has_path(path.spec_bytes()) && self.file_map@.contains_key(
                murmur64a_of(path.spec_bytes(), MURMUR_SEED as u64),
            ),
            r matches Some((bp, off, sz)) ==> {
                let rec = self.bundle_index.files@[self.file_map@[murmur64a_of(
                    path.spec_bytes(),
                    MURMUR_SEED as u64,
                )] as int];
                &&& bp@ == "/Bundles2/"@ + self.bundle_index.bundles@[rec.bundle_index as int].name@
                    + ".bundle.bin"@
                &&& off == rec.file_offset
                &&& sz == rec.file_size
            },
    {
        let pbytes = path.as_bytes();
        let hash = match self.lookup_hash(pbytes) {
            Some(h) => h,
            None => {
                return None;
            },
        };
        let index = match self.file_map.get(&hash) {
            Some(ix) => *ix,
            None => {
                return None;
            },
        };
        let bundle_ix = self.bundle_index.files[index].bundle_index;
        let file_offset = self.bundle_index.files[index].file_offset;
        let file_size = self.bundle_index.files[index].file_size;
        let bundle_name = self.bundle_index.bundles[bundle_ix as usize].name.clone();
        let mut bundle_path = String::from_str("/Bundles2/");
        bundle_path.append(bundle_name.as_str());
        bundle_path.append(".bundle.bin");
        Some((bundle_path, file_offset, file_size))
    }

    /// Fetches one logical file: looks the path up in the expanded paths,
    /// its hash in the file map, loads the named bundle through the
    /// source, reassembles it and copies the record's slice out. A path or
    /// hash that is not known fails with `NotFound` before the source is
    /// ever consulted.
    pub fn get_file(&mut self, path: &str) -> (r: Result<Option<Vec<u8>>, Error>)
        requires
            old(self).wf(),
        ensures
            final(self).wf(),
            final(self).paths == old(self).paths,
            final(self).file_map == old(self).file_map,
            final(self).bundle_index == old(self).bundle_index,
            final(self).dat_cache == old(self).dat_cache,
            final(self).txt_cache == old(self).txt_cache,
            final(self).it_cache == old(self).it_cache,
            final(self).it_recursive_cache == old(self).it_recursive_cache,
            !old(self).has_path(path.spec_bytes()) ==> r == Err::<Option<Vec<u8>>, Error>(
                Error::NotFound,
            ) && *final(self) == *old(self),
            old(self).has_path(path.spec_bytes()) && !old(self).file_map@.contains_key(
                murmur64a_of(path.spec_bytes(), MURMUR_SEED as u64),
            ) ==> r == Err::<Option<Vec<u8>>, Error>(Error::NotFound) && *final(self) == *old(
                self,
            ),
            r matches Ok(v) ==> v matches Some(bytes) && old(self).has_path(path.spec_bytes())
                && old(self).file_map@.contains_key(
                murmur64a_of(path.spec_bytes(), MURMUR_SEED as u64),
            ) && bytes@.len() == old(self).bundle_index.files@[old(self).file_map@[murmur64a_of(
                path.spec_bytes(),
                MURMUR_SEED as u64,
            )] as int].file_size,
    {
        let (bundle_path, file_offset, file_size) = match self.bundle_path_for(path) {
            Some(plan) => plan,
            None => {
                return Err(Error::NotFound);
            },
        };
        let fetched = self.source.get_file(bundle_path.as_str())?;
        let (bundle, bundle_bytes) = match fetched {
            Some(x) => x,
            None => {
                return Err(Error::NotFound);
            },
        };
        let bundle_uncompressed = bundle_data(&mut self.source, &bundle, bundle_bytes.as_slice())?;
        let file_data = extract_file(&bundle_uncompressed, file_offset, file_size)?;
        Ok(Some(file_data))
    }

    /// Every file-map entry indexes a real file record, and every file
    /// record names a real bundle.
    pub proof fn lemma_index_maps_valid(self)
        requires
            self.wf(),
        ensures
            forall|h: u64|
                self.file_map@.contains_key(h) ==> #[trigger] self.file_map@[h]
                    < self.bundle_index.files@.len(),
            forall|i: int|
                0 <= i < self.bundle_index.files@.len() ==> (
                #[trigger] self.bundle_index.files@[i]).bundle_index
                    < self.bundle_index.bundles@.len(),
    {
    }

    /// Every expanded path's stored hash is the keyed 64-bit MurmurHash2A
    /// of its own bytes.
    pub proof fn lemma_paths_hashed(self)
        requires
            self.wf(),
        ensures
            forall|i: int|
                0 <= i < self.paths@.len() ==> (#[trigger] self.paths@[i]).hash == murmur64a_of(
                    self.paths@[i].bytes@,
                    MURMUR_SEED as u64,
                ),
    {
    }
}


impl<S: FileSource> PoeFS<S> {
    /// Reads and caches a `dat` table: a hit returns a copy of the cached
    /// table without touching the source; a miss fetches the file, splits
    /// it at its sentinel and caches the result; nothing is cached on
    /// failure.
    pub fn read_dat(&mut self, path: &str) -> (r: Result<crate::dat::DatFile, Error>)
        requires
            old(self).wf(),
        ensures
            final(self).wf(),
            final(self).txt_cache == old(self).txt_cache,
            final(self).it_cache == old(self).it_cache,
            final(self).it_recursive_cache == old(self).it_recursive_cache,
            r matches Ok(f) ==> f.wf(),
            r is Err ==> final(self).dat_cache == old(self).dat_cache,
            assoc_lookup(old(self).dat_cache@, path@) matches Some(f0) ==> {
                &&& *final(self) == *old(self)
                &&& r matches Ok(f)
                &&& f.data@ == f0.data@
                &&& f.row_count == f0.row_count
                &&& f.boundary == f0.boundary
                &&& f.row_length == f0.row_length
            },
            r matches Ok(f) ==> {
                &&& assoc_lookup(final(self).dat_cache@, path@) matches Some(fc)
                &&& fc.data@ == f.data@
            },
    {
        let needle = String::from_str(path);
        let n = self.dat_cache.len();
        let mut i: usize = 0;
        while i < n
            invariant
                self.wf(),
                needle@ == path@,
                n == self.dat_cache@.len(),
                i <= n,
                self == old(self),
                forall|j: int| 0 <= j < i ==> (#[trigger] self.dat_cache@[j]).0@ != path@,
            decreases n - i,
        {
            if self.dat_cache[i].0.eq(&needle) {
                proof {
                    assert(self.dat_cache@[i as int].1.wf());
                    lemma_assoc_lookup_at(self.dat_cache@, path@, i as int);
                }
                return Ok(self.dat_cache[i].1.clone_file());
            }
            i = i + 1;
        }
        proof {
            lemma_assoc_lookup_none(self.dat_cache@, path@);
        }
        let fetched = self.get_file(path)?;
        let bytes = match fetched {
            Some(b) => b,
            None => {
                return Err(Error::NotFound);
            },
        };
        let dat = crate::dat::DatFile::new(bytes)?;
        let ghost pre = self.dat_cache@;
        let entry = (String::from_str(path), dat.clone_file());
        self.dat_cache.push(entry);
        proof {
            assert forall|j: int| 0 <= j < self.dat_cache@.len() implies (
            #[trigger] self.dat_cache@[j]).1.wf() by {
                if j < pre.len() {
                    assert(pre[j].1.wf());
                }
            }
            lemma_assoc_lookup_push(pre, self.dat_cache@[pre.len() as int], path@);
        }
        Ok(dat)
    }

    /// Reads and caches a UTF-16 text file.
    pub fn read_txt(&mut self, path: &str) -> (r: Result<String, Error>)
        requires
            old(self).wf(),
        ensures
            final(self).wf(),
            final(self).dat_cache == old(self).dat_cache,
            final(self).it_cache == old(self).it_cache,
            final(self).it_recursive_cache == old(self).it_recursive_cache,
            r is Err ==> final(self).txt_cache == old(self).txt_cache,
            assoc_lookup(old(self).txt_cache@, path@) matches Some(s0) ==> {
                &&& *final(self) == *old(self)
                &&& r matches Ok(t)
                &&& t@ == s0@
            },
            r matches Ok(t) ==> {
                &&& assoc_lookup(final(self).txt_cache@, path@) matches Some(sc)
                &&& sc@ == t@
            },
            r matches Ok(t) ==> assoc_lookup(old(self).txt_cache@, path@) is None ==> exists|
                b: Seq<u8>,
            |
                t@ == crate::text::utf16_lossy_of(
                    crate::text::utf16_units_of(#[trigger] crate::text::spec_strip_bom(b)),
                ),
    {
        self.read_txt_cache(path, true)
    }

    /// Reads a UTF-16 text file: a cached copy if one exists, else the
    /// fetched bytes decoded through `decode_utf16_text` (byte-order mark
    /// stripped, UTF-16LE, lossy), cached only when asked to and only on
    /// success.
    pub fn read_txt_cache(&mut self, path: &str, add_to_cache: bool) -> (r: Result<String, Error>)
        requires
            old(self).wf(),
        ensures
            final(self).wf(),
            final(self).dat_cache == old(self).dat_cache,
            final(self).it_cache == old(self).it_cache,
            final(self).it_recursive_cache == old(self).it_recursive_cache,
            r is Err ==> final(self).txt_cache == old(self).txt_cache,
            !add_to_cache ==> final(self).txt_cache == old(self).txt_cache,
            assoc_lookup(old(self).txt_cache@, path@) matches Some(s0) ==> {
                &&& *final(self) == *old(self)
                &&& r matches Ok(t)
                &&& t@ == s0@
            },
            r matches Ok(t) ==> add_to_cache ==> {
                &&& assoc_lookup(final(self).txt_cache@, path@) matches Some(sc)
                &&& sc@ == t@
            },
            r matches Ok(t) ==> assoc_lookup(old(self).txt_cache@, path@) is None ==> exists|
                b: Seq<u8>,
            |
                t@ == crate::text::utf16_lossy_of(
                    crate::text::utf16_units_of(#[trigger] crate::text::spec_strip_bom(b)),
                ),
    {
        let needle = String::from_str(path);
        let n = self.txt_cache.len();
        let mut i: usize = 0;
        while i < n
            invariant
                self.wf(),
                needle@ == path@,
                n == self.txt_cache@.len(),
                i <= n,
                self == old(self),
                forall|j: int| 0 <= j < i ==> (#[trigger] self.txt_cache@[j]).0@ != path@,
            decreases n - i,
        {
            if self.txt_cache[i].0.eq(&needle) {
                proof {
                    lemma_assoc_lookup_at(self.txt_cache@, path@, i as int);
                }
                return Ok(self.txt_cache[i].1.clone());
            }
            i = i + 1;
        }
        proof {
            lemma_assoc_lookup_none(self.txt_cache@, path@);
        }
        let fetched = self.get_file(path)?;
        let bytes = match fetched {
            Some(b) => b,
            None => {
                return Err(Error::NotFound);
            },
        };
        let string = crate::text::decode_utf16_text(&bytes);
        proof {
            assert(string@ == crate::text::utf16_lossy_of(
                crate::text::utf16_units_of(crate::text::spec_strip_bom(bytes@)),
            ));
        }
        if add_to_cache {
            let ghost pre = self.txt_cache@;
            self.txt_cache.push((String::from_str(path), string.clone()));
            proof {
                lemma_assoc_lookup_push(pre, self.txt_cache@[pre.len() as int], path@);
            }
        }
        Ok(string)
    }

    /// Reads and caches a parsed `it` file: a hit returns a copy of the
    /// cached file; a miss reads the text uncached, parses it and caches
    /// the result; nothing is cached on failure.
    pub fn read_it(&mut self, path: &str) -> (r: Result<crate::it::ITFile, Error>)
        requires
            old(self).wf(),
        ensures
            final(self).wf(),
            final(self).dat_cache == old(self).dat_cache,
            final(self).txt_cache == old(self).txt_cache,
            final(self).it_recursive_cache == old(self).it_recursive_cache,
            r matches Ok(f) ==> f.wf(),
            r is Err ==> final(self).it_cache == old(self).it_cache,
            assoc_lookup(old(self).it_cache@, path@) matches Some(f0) ==> {
                &&& *final(self) == *old(self)
                &&& r matches Ok(f)
                &&& f.version == f0.version
                &&& f.aabstract == f0.aabstract
                &&& f.extends@ == f0.extends@
                &&& forall|sk: Seq<char>, kk: Seq<char>|
                    #[trigger] crate::it::entry_model(f.sections@, sk, kk)
                        == crate::it::entry_model(f0.sections@, sk, kk)
            },
            r matches Ok(f) ==> {
                &&& assoc_lookup(final(self).it_cache@, path@) matches Some(fc)
                &&& fc.version == f.version
                &&& fc.extends@ == f.extends@
                &&& forall|sk: Seq<char>, kk: Seq<char>|
                    #[trigger] crate::it::entry_model(fc.sections@, sk, kk)
                        == crate::it::entry_model(f.sections@, sk, kk)
            },
            r matches Ok(f) ==> assoc_lookup(old(self).it_cache@, path@) is None ==> exists|
                txt: Seq<char>,
            |
                {
                    &&& #[trigger] crate::it::spec_header(txt) matches Some(h)
                    &&& h.0 == f.version
                    &&& h.1 == f.aabstract
                    &&& h.2 == f.extends@
                    &&& crate::it::sections_ok(txt, h.3)
                    &&& forall|sk: Seq<char>, kk: Seq<char>|
                        (crate::it::sec_lookup(f.sections@, sk) is Some) == (
                        #[trigger] crate::it::sections_value(txt, h.3, sk, kk) is Some)
                            && crate::it::entry_model(f.sections@, sk, kk)
                            == match crate::it::sections_value(txt, h.3, sk, kk) {
                            None => None,
                            Some(v) => v,
                        }
                },
    {
        let needle = String::from_str(path);
        let n = self.it_cache.len();
        let mut i: usize = 0;
        while i < n
            invariant
                self.wf(),
                needle@ == path@,
                n == self.it_cache@.len(),
                i <= n,
                self == old(self),
                forall|j: int| 0 <= j < i ==> (#[trigger] self.it_cache@[j]).0@ != path@,
            decreases n - i,
        {
            if self.it_cache[i].0.eq(&needle) {
                proof {
                    assert(self.it_cache@[i as int].1.wf());
                    lemma_assoc_lookup_at(self.it_cache@, path@, i as int);
                }
                return Ok(self.it_cache[i].1.clone_file());
            }
            i = i + 1;
        }
        proof {
            lemma_assoc_lookup_none(self.it_cache@, path@);
        }
        let txt = self.read_txt_cache(path, false)?;
        let parsed = crate::it::ITFile::parse(txt)?;
        let ghost pre = self.it_cache@;
        self.it_cache.push((String::from_str(path), parsed.clone_file()));
        proof {
            assert forall|j: int| 0 <= j < self.it_cache@.len() implies (
            #[trigger] self.it_cache@[j]).1.wf() by {
                if j < pre.len() {
                    assert(pre[j].1.wf());
                }
            }
            lemma_assoc_lookup_push(pre, self.it_cache@[pre.len() as int], path@);
        }
        Ok(parsed)
    }

    /// Reads an `it` file and folds in every ancestor along its `extends`
    /// chain: each parent (at `<extends, lowercased>.it`) is merged
    /// beneath the file so far, until a file extends `nothing`. A chain
    /// that revisits a path, or outruns the number of known paths, is
    /// cyclic. A hit returns a copy of the cached closure; the closure is
    /// cached only on success, and a file that extends nothing at once is
    /// returned uncached.
    pub fn read_it_recursive(&mut self, path: &str) -> (r: Result<crate::it::ITFile, Error>)
        requires
            old(self).wf(),
        ensures
            final(self).wf(),
            final(self).dat_cache == old(self).dat_cache,
            final(self).txt_cache == old(self).txt_cache,
            r matches Ok(f) ==> f.wf(),
            r is Err ==> final(self).it_recursive_cache == old(self).it_recursive_cache,
            assoc_lookup(old(self).it_recursive_cache@, path@) matches Some(f0) ==> {
                &&& *final(self) == *old(self)
                &&& r matches Ok(f)
                &&& f.version == f0.version
                &&& f.aabstract == f0.aabstract
                &&& f.extends@ == f0.extends@
                &&& forall|sk: Seq<char>, kk: Seq<char>|
                    #[trigger] crate::it::entry_model(f.sections@, sk, kk)
                        == crate::it::entry_model(f0.sections@, sk, kk)
            },
    {
        let needle = String::from_str(path);
        let n = self.it_recursive_cache.len();
        let mut i: usize = 0;
        while i < n
            invariant
                self.wf(),
                needle@ == path@,
                n == self.it_recursive_cache@.len(),
                i <= n,
                self == old(self),
                forall|j: int|
                    0 <= j < i ==> (#[trigger] self.it_recursive_cache@[j]).0@ != path@,
            decreases n - i,
        {
            if self.it_recursive_cache[i].0.eq(&needle) {
                proof {
                    assert(self.it_recursive_cache@[i as int].1.wf());
                    lemma_assoc_lookup_at(self.it_recursive_cache@, path@, i as int);
                }
                return Ok(self.it_recursive_cache[i].1.clone_file());
            }
            i = i + 1;
        }
        proof {
            lemma_assoc_lookup_none(self.it_recursive_cache@, path@);
        }
        let nothing = String::from_str("nothing");
        let mut current = self.read_it(path)?;
        if current.extends.eq(&nothing) {
            return Ok(current);
        }
        let mut seen: Vec<String> = Vec::new();
        seen.push(String::from_str(path));
        let mut fuel = self.paths.len();
        while fuel > 0
            invariant
                self.wf(),
                current.wf(),
                self.dat_cache == old(self).dat_cache,
                self.txt_cache == old(self).txt_cache,
                self.it_recursive_cache == old(self).it_recursive_cache,
                assoc_lookup(old(self).it_recursive_cache@, path@) is None,
            decreases fuel,
        {
            let parent_path = crate::text::to_lowercase(current.extends.as_str()).concat(".it");
            let mut sj: usize = 0;
            let sn = seen.len();
            while sj < sn
                invariant
                    self.wf(),
                    sn == seen@.len(),
                    sj <= sn,
                    self.dat_cache == old(self).dat_cache,
                    self.txt_cache == old(self).txt_cache,
                    self.it_recursive_cache == old(self).it_recursive_cache,
                    assoc_lookup(old(self).it_recursive_cache@, path@) is None,
                decreases sn - sj,
            {
                if seen[sj].eq(&parent_path) {
                    return Err(Error::Cycle);
                }
                sj = sj + 1;
            }
            seen.push(parent_path.clone());
            let parent = self.read_it(parent_path.as_str())?;
            let next_extends = parent.extends.clone();
            current = current.merge(parent);
            if next_extends.eq(&nothing) {
                let ghost pre = self.it_recursive_cache@;
                self.it_recursive_cache.push((String::from_str(path), current.clone_file()));
                proof {
                    assert forall|j: int| 0 <= j < self.it_recursive_cache@.len() implies (
                    #[trigger] self.it_recursive_cache@[j]).1.wf() by {
                        if j < pre.len() {
                            assert(pre[j].1.wf());
                        }
                    }
                }
                return Ok(current);
            }
            fuel = fuel - 1;
        }
        Err(Error::Cycle)
    }
}

} // verus!
