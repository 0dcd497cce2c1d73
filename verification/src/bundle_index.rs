//! The root index bundle: three record arrays (bundles, files, path
//! representations) followed by an inner bundle holding the delta-encoded
//! path heap, and the expander that turns that heap into full paths.
use vstd::arithmetic::div_mod::lemma_fundamental_div_mod;
use vstd::prelude::*;

use crate::bytes::{le32, le64, read_u32_at, read_u64_at};
use crate::text::{utf8_lossy, utf8_lossy_of};
use crate::Error;

verus! {

/// One bundle named by the index.
#[derive(Debug, Clone)]
pub struct BundleRecord {
    pub name_length: u32,
    pub name: String,
    pub bundle_uncompressed_size: u32,
}

/// One file: the keyed hash of its logical path and its place inside a
/// bundle.
#[derive(Debug, Clone)]
pub struct FileRecord {
    pub hash: u64,
    pub bundle_index: u32,
    pub file_offset: u32,
    pub file_size: u32,
}

/// One path-representation entry: a slice of the path heap.
#[derive(Debug, Clone)]
pub struct PathRep {
    pub hash: u64,
    pub payload_offset: u32,
    pub payload_size: u32,
    pub payload_recursive_size: u32,
}

/// A bundle record's wire form at `pos`, ending at `end`.
pub open spec fn bundle_record_matches(r: BundleRecord, data: Seq<u8>, pos: int, end: int) -> bool {
    &&& pos + 4 <= data.len()
    &&& r.name_length == le32(data, pos)
    &&& end == pos + 8 + r.name_length
    &&& end <= data.len()
    &&& r.name@ == utf8_lossy_of(data.subrange(pos + 4, pos + 4 + r.name_length as int))
    &&& r.bundle_uncompressed_size == le32(data, pos + 4 + r.name_length as int)
}

/// A chain of bundle records laid out back to back from `pos` to `end`.
pub open spec fn bundle_records_match(rs: Seq<BundleRecord>, data: Seq<u8>, pos: int, end: int) -> bool
    decreases rs.len(),
{
    if rs.len() == 0 {
        end == pos
    } else {
        exists|mid: int|
            #[trigger] bundle_record_matches(rs[0], data, pos, mid) && bundle_records_match(
                rs.drop_first(),
                data,
                mid,
                end,
            )
    }
}

/// Extending a matching chain by one record that starts where it ends.
pub proof fn lemma_bundle_records_snoc(
    rs: Seq<BundleRecord>,
    r: BundleRecord,
    data: Seq<u8>,
    pos: int,
    mid: int,
    end: int,
)
    requires
        bundle_records_match(rs, data, pos, mid),
        bundle_record_matches(r, data, mid, end),
    ensures
        bundle_records_match(rs.push(r), data, pos, end),
    decreases rs.len(),
{
    if rs.len() == 0 {
        assert(rs.push(r)[0] == r);
        assert(rs.push(r).drop_first() =~= Seq::<BundleRecord>::empty());
        assert(bundle_records_match(rs.push(r).drop_first(), data, end, end));
        assert(bundle_record_matches(rs.push(r)[0], data, pos, end));
    } else {
        let m0 = choose|m0: int|
            #[trigger] bundle_record_matches(rs[0], data, pos, m0) && bundle_records_match(
                rs.drop_first(),
                data,
                m0,
                mid,
            );
        lemma_bundle_records_snoc(rs.drop_first(), r, data, m0, mid, end);
        assert(rs.push(r)[0] == rs[0]);
        assert(rs.push(r).drop_first() =~= rs.drop_first().push(r));
        assert(bundle_record_matches(rs.push(r)[0], data, pos, m0));
    }
}

impl BundleRecord {
    /// Parses one bundle record at `pos`: a length-prefixed UTF-8 name and
    /// the bundle's uncompressed size.
    pub fn parse(data: &[u8], pos: usize) -> (r: Result<(BundleRecord, usize), Error>)
        ensures
            r matches Ok((rec, end)) ==> bundle_record_matches(rec, data@, pos as int, end as int),
            r is Ok <==> pos + 4 <= data@.len() && pos + 8 + (le32(data@, pos as int) as int)
                <= data@.len(),
    {
        let len = data.len();
        if len < 4 || pos > len - 4 {
            return Err(Error::Format);
        }
        let name_length = read_u32_at(data, pos);
        if (name_length as usize) > len - pos - 4 || len - pos - 4 - (name_length as usize) < 4 {
            return Err(Error::Format);
        }
        let name_bytes = crate::bytes::copy_range(data, pos + 4, name_length as usize);
        let name = utf8_lossy(&name_bytes);
        let bundle_uncompressed_size = read_u32_at(data, pos + 4 + name_length as usize);
        let end = pos + 8 + name_length as usize;
        Ok((BundleRecord { name_length, name, bundle_uncompressed_size }, end))
    }
}

/// A file record's wire form: four little-endian fields in twenty bytes.
pub open spec fn file_record_matches(r: FileRecord, data: Seq<u8>, pos: int) -> bool {
    &&& pos + 20 <= data.len()
    &&& r.hash == le64(data, pos)
    &&& r.bundle_index == le32(data, pos + 8)
    &&& r.file_offset == le32(data, pos + 12)
    &&& r.file_size == le32(data, pos + 16)
}

impl FileRecord {
    /// Parses one file record at `pos`.
    pub fn parse(data: &[u8], pos: usize) -> (r: Result<(FileRecord, usize), Error>)
        ensures
            r matches Ok((rec, end)) ==> file_record_matches(rec, data@, pos as int) && end == pos
                + 20,
            r is Ok <==> pos + 20 <= data@.len(),
    {
        let len = data.len();
        if len < 20 || pos > len - 20 {
            return Err(Error::Format);
        }
        let hash = read_u64_at(data, pos);
        let bundle_index = read_u32_at(data, pos + 8);
        let file_offset = read_u32_at(data, pos + 12);
        let file_size = read_u32_at(data, pos + 16);
        Ok((FileRecord { hash, bundle_index, file_offset, file_size }, pos + 20))
    }
}

/// A path-rep record's wire form: four little-endian fields in twenty
/// bytes.
pub open spec fn path_rep_matches(r: PathRep, data: Seq<u8>, pos: int) -> bool {
    &&& pos + 20 <= data.len()
    &&& r.hash == le64(data, pos)
    &&& r.payload_offset == le32(data, pos + 8)
    &&& r.payload_size == le32(data, pos + 12)
    &&& r.payload_recursive_size == le32(data, pos + 16)
}

impl PathRep {
    /// Parses one path-representation record at `pos`.
    pub fn parse(data: &[u8], pos: usize) -> (r: Result<(PathRep, usize), Error>)
        ensures
            r matches Ok((rec, end)) ==> path_rep_matches(rec, data@, pos as int) && end == pos
                + 20,
            r is Ok <==> pos + 20 <= data@.len(),
    {
        let len = data.len();
        if len < 20 || pos > len - 20 {
            return Err(Error::Format);
        }
        let hash = read_u64_at(data, pos);
        let payload_offset = read_u32_at(data, pos + 8);
        let payload_size = read_u32_at(data, pos + 12);
        let payload_recursive_size = read_u32_at(data, pos + 16);
        Ok((PathRep { hash, payload_offset, payload_size, payload_recursive_size }, pos + 20))
    }
}

/// The index of the first NUL byte at or after `from`, or the length when
/// none remains.
pub open spec fn first_zero(payload: Seq<u8>, from: int) -> int
    decreases payload.len() - from,
{
    if from < 0 || from >= payload.len() {
        payload.len() as int
    } else if payload[from] == 0 {
        from
    } else {
        first_zero(payload, from + 1)
    }
}

/// The first NUL index never precedes `from` nor passes the end.
pub proof fn lemma_first_zero_bounds(payload: Seq<u8>, from: int)
    requires
        0 <= from <= payload.len(),
    ensures
        from <= first_zero(payload, from) <= payload.len(),
    decreases payload.len() - from,
{
    if from < payload.len() && payload[from] != 0 {
        lemma_first_zero_bounds(payload, from + 1);
    }
}

/// One pass of the path expander from an intermediate state: reading `u32`
/// tokens while more than four bytes remain, a zero token toggling the
/// dictionary phase (clearing the dictionary as it turns on), and any other
/// token selecting a dictionary prefix (one-based) for the NUL-terminated
/// fragment that follows; fragments extend the dictionary during the
/// dictionary phase and emit full paths otherwise.
pub open spec fn spec_expand(
    payload: Seq<u8>,
    pos: int,
    base: bool,
    temp: Seq<Seq<u8>>,
    acc: Seq<Seq<u8>>,
) -> Seq<Seq<u8>>
    decreases payload.len() - pos,
    via spec_expand_decreases
{
    if pos < 0 || pos + 4 >= payload.len() {
        acc
    } else {
        let index = le32(payload, pos) as int;
        if index == 0 {
            spec_expand(payload, pos + 4, !base, if !base { Seq::empty() } else { temp }, acc)
        } else {
            let ix = index - 1;
            let z = first_zero(payload, pos + 4);
            let frag = payload.subrange(pos + 4, z);
            let npos = if z < payload.len() { z + 1 } else { z };
            let s = if ix < temp.len() {
                temp[ix] + frag
            } else {
                frag
            };
            if base {
                spec_expand(payload, npos, base, temp.push(s), acc)
            } else {
                spec_expand(payload, npos, base, temp, acc.push(s))
            }
        }
    }
}

#[via_fn]
proof fn spec_expand_decreases(
    payload: Seq<u8>,
    pos: int,
    base: bool,
    temp: Seq<Seq<u8>>,
    acc: Seq<Seq<u8>>,
) {
    if 0 <= pos && pos + 4 < payload.len() {
        lemma_first_zero_bounds(payload, pos + 4);
    }
}

/// Every path the expander emits for a payload.
pub open spec fn spec_make_paths(payload: Seq<u8>) -> Seq<Seq<u8>> {
    spec_expand(payload, 0, false, Seq::empty(), Seq::empty())
}

/// The expander is deterministic: the same payload always yields the same
/// paths, in the same order, hence the same multiset of paths.
pub proof fn lemma_expander_deterministic(d1: Seq<u8>, d2: Seq<u8>)
    requires
        d1 == d2,
    ensures
        spec_make_paths(d1) == spec_make_paths(d2),
        spec_make_paths(d1).to_multiset() == spec_make_paths(d2).to_multiset(),
{
}

/// Decodes a path-representation payload into the full paths it encodes,
/// as UTF-8 byte strings.
pub fn make_paths(payload: &[u8]) -> (r: Vec<Vec<u8>>)
    ensures
        r.deep_view() == spec_make_paths(payload@),
{
    let len = payload.len();
    let mut temp: Vec<Vec<u8>> = Vec::new();
    let mut paths: Vec<Vec<u8>> = Vec::new();
    let mut base = false;
    let mut pos: usize = 0;
    proof {
        assert(temp.deep_view() =~= Seq::<Seq<u8>>::empty());
        assert(paths.deep_view() =~= Seq::<Seq<u8>>::empty());
    }
    while len - pos > 4
        invariant
            len == payload@.len(),
            pos <= len,
            spec_make_paths(payload@) == spec_expand(
                payload@,
                pos as int,
                base,
                temp.deep_view(),
                paths.deep_view(),
            ),
        decreases len - pos,
    {
        let ghost pos0 = pos as int;
        let ghost base0 = base;
        let ghost temp0 = temp.deep_view();
        let ghost acc0 = paths.deep_view();
        let index = read_u32_at(payload, pos);
        if index == 0 {
            base = !base;
            if base {
                temp = Vec::new();
            }
            pos = pos + 4;
            proof {
                if !base0 {
                    assert(temp.deep_view() =~= Seq::<Seq<u8>>::empty());
                }
                assert(spec_expand(payload@, pos0, base0, temp0, acc0) == spec_expand(
                    payload@,
                    pos as int,
                    base,
                    temp.deep_view(),
                    paths.deep_view(),
                ));
            }
        } else {
            let ix = (index - 1) as usize;
            let mut z = pos + 4;
            while z < len && payload[z] != 0
                invariant
                    len == payload@.len(),
                    pos + 4 <= z <= len,
                    first_zero(payload@, pos as int + 4) == first_zero(payload@, z as int),
                decreases len - z,
            {
                z = z + 1;
            }
            proof {
                assert(first_zero(payload@, pos0 + 4) == z);
            }
            let frag = crate::bytes::copy_range(payload, pos + 4, z - (pos + 4));
            let npos = if z < len {
                z + 1
            } else {
                z
            };
            let s: Vec<u8> = if ix < temp.len() {
                let mut joined = temp[ix].clone();
                proof {
                    assert(temp0[ix as int] == temp@[ix as int]@);
                    assert(joined@ =~= temp0[ix as int] + frag@.subrange(0, 0));
                }
                let mut fi: usize = 0;
                let fl = frag.len();
                while fi < fl
                    invariant
                        fl == frag@.len(),
                        fi <= fl,
                        joined@ == temp0[ix as int] + frag@.subrange(0, fi as int),
                    decreases fl - fi,
                {
                    joined.push(frag[fi]);
                    fi = fi + 1;
                    proof {
                        assert(joined@ =~= temp0[ix as int] + frag@.subrange(0, fi as int));
                    }
                }
                proof {
                    assert(frag@.subrange(0, frag@.len() as int) =~= frag@);
                }
                joined
            } else {
                frag
            };
            proof {
                let z0 = first_zero(payload@, pos0 + 4);
                let sfrag = payload@.subrange(pos0 + 4, z0);
                assert(s@ == if (ix as int) < temp0.len() {
                    temp0[ix as int] + sfrag
                } else {
                    sfrag
                });
            }
            proof {
                assert(s.deep_view() =~= s@);
            }
            if base {
                temp.push(s);
                proof {
                    assert(temp.deep_view() =~= temp0.push(s@));
                }
            } else {
                paths.push(s);
                proof {
                    assert(paths.deep_view() =~= acc0.push(s@));
                }
            }
            pos = npos;
            proof {
                assert(spec_expand(payload@, pos0, base0, temp0, acc0) == spec_expand(
                    payload@,
                    pos as int,
                    base,
                    temp.deep_view(),
                    paths.deep_view(),
                ));
            }
        }
    }
    proof {
        assert(spec_expand(payload@, pos as int, base, temp.deep_view(), paths.deep_view())
            == paths.deep_view());
    }
    paths
}



/// The position after `n` bundle records laid out from `pos`, when each
/// record's length prefix and name fit.
pub open spec fn bundle_records_end(data: Seq<u8>, pos: int, n: int) -> Option<int>
    decreases n,
{
    if n <= 0 {
        Some(pos)
    } else if pos + 4 <= data.len() && pos + 8 + (le32(data, pos) as int) <= data.len() {
        bundle_records_end(data, pos + 8 + (le32(data, pos) as int), n - 1)
    } else {
        None
    }
}

/// Whether the index's own layout fits inside `data`, before any block
/// decoding: the three counted record arrays, the inner bundle header,
/// and the inner payload it declares.
pub open spec fn index_layout_ok(data: Seq<u8>) -> bool {
    &&& data.len() >= 4
    &&& match bundle_records_end(data, 4, le32(data, 0) as int) {
        None => false,
        Some(p2) => {
            let fc = le32(data, p2) as int;
            let p3 = p2 + 4 + 20 * fc;
            let prc = le32(data, p3) as int;
            let p4 = p3 + 4 + 20 * prc;
            let hend = p4 + 60 + 4 * (le32(data, p4 + 36) as int);
            &&& p2 + 4 <= data.len()
            &&& p3 <= data.len()
            &&& p3 + 4 <= data.len()
            &&& p4 <= data.len()
            &&& p4 + 60 <= data.len()
            &&& hend <= data.len()
            &&& hend + (le64(data, p4 + 28) as int) <= data.len()
        },
    }
}

/// The parsed root index: three record arrays and the inner bundle whose
/// decompressed bytes are the path heap.
#[derive(Debug)]
pub struct BundleIndex {
    pub bundle_count: u32,
    pub bundles: Vec<BundleRecord>,
    pub files_count: u32,
    pub files: Vec<FileRecord>,
    pub path_rep_count: u32,
    pub path_rep: Vec<PathRep>,
    pub path_rep_bundle: crate::bundle::Bundle,
    pub path_rep_data: Vec<u8>,
}

/// A parsed index against its wire form: counts and record arrays laid out
/// back to back from the start, the inner bundle header after them, and a
/// path heap as long as that header declares.
pub open spec fn index_matches(ix: BundleIndex, data: Seq<u8>) -> bool {
    exists|p2: int|
        {
            let p3 = p2 + 4 + 20 * (ix.files_count as int);
            let p4 = p3 + 4 + 20 * (ix.path_rep_count as int);
            &&& 4 <= data.len()
            &&& ix.bundle_count == le32(data, 0)
            &&& ix.bundles@.len() == ix.bundle_count
            &&& #[trigger] bundle_records_match(ix.bundles@, data, 4, p2)
            &&& p2 + 4 <= data.len()
            &&& ix.files_count == le32(data, p2)
            &&& ix.files@.len() == ix.files_count
            &&& forall|k: int|
                0 <= k < ix.files@.len() ==> file_record_matches(
                    #[trigger] ix.files@[k],
                    data,
                    p2 + 4 + 20 * k,
                )
            &&& p3 + 4 <= data.len()
            &&& ix.path_rep_count == le32(data, p3)
            &&& ix.path_rep@.len() == ix.path_rep_count
            &&& forall|k: int|
                0 <= k < ix.path_rep@.len() ==> path_rep_matches(
                    #[trigger] ix.path_rep@[k],
                    data,
                    p3 + 4 + 20 * k,
                )
            &&& crate::bundle::header_bytes_match(ix.path_rep_bundle, data, p4)
            &&& ix.path_rep_data@.len() == ix.path_rep_bundle.head_payload.uncompressed_size
        }
}

impl BundleIndex {
    /// Parses the decompressed root index and decodes the inner path-heap
    /// bundle through the source's block decoder.
    pub fn parse<S: crate::poefs::FileSource>(data: &[u8], source: &mut S) -> (r: Result<
        BundleIndex,
        Error,
    >)
        ensures
            r matches Ok(ix) ==> index_matches(ix, data@),
            !index_layout_ok(data@) ==> r is Err,
    {
        let len = data.len();
        if len < 4 {
            return Err(Error::Format);
        }
        let bundle_count = read_u32_at(data, 0);
        let mut bundles: Vec<BundleRecord> = Vec::new();
        let mut pos: usize = 4;
        let mut i: usize = 0;
        while i < bundle_count as usize
            invariant
                len == data@.len(),
                pos <= len,
                i <= bundle_count,
                bundle_count == le32(data@, 0),
                bundles@.len() == i,
                bundle_records_match(bundles@, data@, 4, pos as int),
                bundle_records_end(data@, 4, bundle_count as int) == bundle_records_end(
                    data@,
                    pos as int,
                    bundle_count - i,
                ),
            decreases bundle_count - i,
        {
            let ghost pre = bundles@;
            let parsed = BundleRecord::parse(data, pos);
            let (rec, end) = match parsed {
                Ok(x) => x,
                Err(e) => {
                    proof {
                        assert(bundle_records_end(data@, pos as int, bundle_count - i) is None);
                    }
                    return Err(e);
                },
            };
            bundles.push(rec);
            proof {
                lemma_bundle_records_snoc(pre, rec, data@, 4, pos as int, end as int);
                assert(bundle_records_end(data@, pos as int, bundle_count - i)
                    == bundle_records_end(data@, end as int, bundle_count - i - 1));
            }
            pos = end;
            i = i + 1;
        }
        let ghost p2 = pos as int;
        proof {
            assert(bundle_records_end(data@, 4, le32(data@, 0) as int) == Some(p2));
        }
        if len - pos < 4 {
            return Err(Error::Format);
        }
        let files_count = read_u32_at(data, pos);
        let files_start = pos + 4;
        if (files_count as usize) > (len - files_start) / 20 {
            proof {
                lemma_fundamental_div_mod((len - files_start) as int, 20);
                assert(20 * (files_count as int) > (len as int) - files_start as int)
                    by (nonlinear_arith)
                    requires
                        0 <= (len as int) - files_start as int,
                        (files_count as int) > ((len as int) - files_start as int) / 20,
                        (len as int) - files_start as int == 20 * (((len as int) - files_start
                            as int) / 20) + ((len as int) - files_start as int) % 20,
                        0 <= ((len as int) - files_start as int) % 20 < 20,
                ;
            }
            return Err(Error::Format);
        }
        proof {
            assert(20 * (files_count as int) <= (len as int) - files_start as int)
                by (nonlinear_arith)
                requires
                    0 <= files_count as int,
                    0 <= (len as int) - files_start as int,
                    (files_count as int) <= ((len as int) - files_start as int) / 20,
                    (len as int) - files_start as int == 20 * (((len as int) - files_start
                        as int) / 20) + ((len as int) - files_start as int) % 20,
                    0 <= ((len as int) - files_start as int) % 20 < 20,
            ;
        }
        let mut files: Vec<FileRecord> = Vec::new();
        let mut k: usize = 0;
        while k < files_count as usize
            invariant
                len == data@.len(),
                files_start + 20 * (files_count as int) <= len,
                k <= files_count,
                files@.len() == k,
                forall|j: int|
                    0 <= j < k ==> file_record_matches(
                        #[trigger] files@[j],
                        data@,
                        files_start + 20 * j,
                    ),
            decreases files_count - k,
        {
            let (rec, _end) = FileRecord::parse(data, files_start + 20 * k)?;
            files.push(rec);
            k = k + 1;
        }
        pos = files_start + 20 * (files_count as usize);
        let ghost p3 = pos as int;
        if len - pos < 4 {
            return Err(Error::Format);
        }
        let path_rep_count = read_u32_at(data, pos);
        let reps_start = pos + 4;
        if (path_rep_count as usize) > (len - reps_start) / 20 {
            proof {
                lemma_fundamental_div_mod((len - reps_start) as int, 20);
                assert(20 * (path_rep_count as int) > (len as int) - reps_start as int)
                    by (nonlinear_arith)
                    requires
                        0 <= (len as int) - reps_start as int,
                        (path_rep_count as int) > ((len as int) - reps_start as int) / 20,
                        (len as int) - reps_start as int == 20 * (((len as int) - reps_start
                            as int) / 20) + ((len as int) - reps_start as int) % 20,
                        0 <= ((len as int) - reps_start as int) % 20 < 20,
                ;
            }
            return Err(Error::Format);
        }
        proof {
            assert(20 * (path_rep_count as int) <= (len as int) - reps_start as int)
                by (nonlinear_arith)
                requires
                    0 <= path_rep_count as int,
                    0 <= (len as int) - reps_start as int,
                    (path_rep_count as int) <= ((len as int) - reps_start as int) / 20,
                    (len as int) - reps_start as int == 20 * (((len as int) - reps_start
                        as int) / 20) + ((len as int) - reps_start as int) % 20,
                    0 <= ((len as int) - reps_start as int) % 20 < 20,
            ;
        }
        let mut path_rep: Vec<PathRep> = Vec::new();
        let mut k2: usize = 0;
        while k2 < path_rep_count as usize
            invariant
                len == data@.len(),
                reps_start + 20 * (path_rep_count as int) <= len,
                k2 <= path_rep_count,
                path_rep@.len() == k2,
                forall|j: int|
                    0 <= j < k2 ==> path_rep_matches(
                        #[trigger] path_rep@[j],
                        data@,
                        reps_start + 20 * j,
                    ),
            decreases path_rep_count - k2,
        {
            let (rec, _end) = PathRep::parse(data, reps_start + 20 * k2)?;
            path_rep.push(rec);
            k2 = k2 + 1;
        }
        pos = reps_start + 20 * (path_rep_count as usize);
        let ghost p4 = pos as int;
        let (path_rep_bundle, after_head) = crate::bundle::Bundle::parse(data, pos)?;
        let tps = path_rep_bundle.head_payload.total_payload_size;
        if tps > (len - after_head) as u64 {
            return Err(Error::Format);
        }
        let payload = &data[after_head..(after_head + tps as usize)];
        let path_rep_data = crate::poefs::bundle_data(source, &path_rep_bundle, payload)?;
        let ix = BundleIndex {
            bundle_count,
            bundles,
            files_count,
            files,
            path_rep_count,
            path_rep,
            path_rep_bundle,
            path_rep_data,
        };
        proof {
            assert(bundle_records_match(ix.bundles@, data@, 4, p2));
        }
        Ok(ix)
    }
}

} // verus!
