//! The GGPK container: a tagged-record tree of directories and files packed
//! into one archive, addressed by byte offsets. Records are parsed out of
//! the archive bytes, and paths resolve by recursive descent from the root.
use vstd::prelude::*;

use crate::bytes::{le32, le64, read_i32_at, read_u32_at, read_u64_at};
use crate::text::{trim_nul, trim_trailing_nul, utf16_lossy, utf16_lossy_of, utf16_units, utf16_units_of};
use crate::Error;

verus! {

/// A child reference of the root record: a bare archive offset.
#[derive(Debug, Clone)]
pub struct GgpkEntry {
    pub offset: u64,
}

/// A child reference of a directory record.
#[derive(Debug, Clone)]
pub struct DirectoryEntry {
    pub entry_name_hash: i32,
    pub offset: u64,
}

/// The four record kinds of the archive.
#[derive(Debug, Clone, Copy, PartialEq, Eq, Structural)]
pub enum EntryTag {
    Ggpk,
    Free,
    Pdir,
    File,
}

/// The body of a record, by kind.
#[derive(Debug, Clone)]
pub enum EntryData {
    Free,
    Pdir {
        name_length: u32,
        total_entries: u32,
        sha256hash: Vec<u8>,
        name: String,
        entries: Vec<DirectoryEntry>,
    },
    File { name_length: u32, sha256hash: Vec<u8>, name: String },
    Ggpk { version: u32, entries: Vec<GgpkEntry> },
}

/// One parsed record: its stored total length, kind and body.
#[derive(Debug, Clone)]
pub struct Entry {
    pub length: u32,
    pub tag: EntryTag,
    pub data: EntryData,
}

/// The tag stored at `pos`, if those four bytes spell a known kind.
pub open spec fn spec_tag_at(data: Seq<u8>, pos: int) -> Option<EntryTag> {
    if data[pos] == 0x47u8 && data[pos + 1] == 0x47u8 && data[pos + 2] == 0x50u8 && data[pos + 3]
        == 0x4bu8 {
        Some(EntryTag::Ggpk)
    } else if data[pos] == 0x46u8 && data[pos + 1] == 0x52u8 && data[pos + 2] == 0x45u8 && data[pos
        + 3] == 0x45u8 {
        Some(EntryTag::Free)
    } else if data[pos] == 0x50u8 && data[pos + 1] == 0x44u8 && data[pos + 2] == 0x49u8 && data[pos
        + 3] == 0x52u8 {
        Some(EntryTag::Pdir)
    } else if data[pos] == 0x46u8 && data[pos + 1] == 0x49u8 && data[pos + 2] == 0x4cu8 && data[pos
        + 3] == 0x45u8 {
        Some(EntryTag::File)
    } else {
        None
    }
}

impl EntryTag {
    /// Reads the four-byte record tag at `pos`. Succeeds exactly on the
    /// four known spellings.
    pub fn parse(data: &[u8], pos: usize) -> (r: Result<EntryTag, Error>)
        requires
            pos + 4 <= data@.len(),
        ensures
            r matches Ok(t) ==> spec_tag_at(data@, pos as int) == Some(t),
            r is Ok <==> spec_tag_at(data@, pos as int) is Some,
    {
        let b0 = data[pos];
        let b1 = data[pos + 1];
        let b2 = data[pos + 2];
        let b3 = data[pos + 3];
        if b0 == 0x47 && b1 == 0x47 && b2 == 0x50 && b3 == 0x4b {
            Ok(EntryTag::Ggpk)
        } else if b0 == 0x46 && b1 == 0x52 && b2 == 0x45 && b3 == 0x45 {
            Ok(EntryTag::Free)
        } else if b0 == 0x50 && b1 == 0x44 && b2 == 0x49 && b3 == 0x52 {
            Ok(EntryTag::Pdir)
        } else if b0 == 0x46 && b1 == 0x49 && b2 == 0x4c && b3 == 0x45 {
            Ok(EntryTag::File)
        } else {
            Err(Error::Format)
        }
    }
}

/// The decoded UTF-16 name stored at `at`, `name_length` units long,
/// trailing NULs removed.
pub open spec fn spec_name_at(data: Seq<u8>, at: int, name_length: int) -> Seq<char> {
    trim_nul(utf16_lossy_of(utf16_units_of(data.subrange(at, at + 2 * name_length))))
}

/// Whether a record body parse can succeed at `pos` (the byte after the
/// tag) for the given kind.
pub open spec fn spec_body_ok(data: Seq<u8>, pos: int, tag: EntryTag) -> bool {
    match tag {
        EntryTag::Free => true,
        EntryTag::Ggpk => pos + 20 <= data.len(),
        EntryTag::File => pos + 36 <= data.len() && pos + 36 + 2 * (le32(data, pos) as int)
            <= data.len(),
        EntryTag::Pdir => pos + 40 <= data.len() && pos + 40 + 2 * (le32(data, pos) as int) + 12 * (
        le32(data, pos + 4) as int) <= data.len(),
    }
}

/// The record body value and end position at `pos` for the given kind.
pub open spec fn spec_body_matches(b: EntryData, data: Seq<u8>, pos: int, end: int, tag: EntryTag) -> bool {
    match tag {
        EntryTag::Free => b is Free && end == pos,
        EntryTag::Ggpk => {
            &&& b matches EntryData::Ggpk { version, entries }
            &&& version == le32(data, pos)
            &&& entries@.len() == 2
            &&& entries@[0].offset == le64(data, pos + 4)
            &&& entries@[1].offset == le64(data, pos + 12)
            &&& end == pos + 20
        },
        EntryTag::File => {
            &&& b matches EntryData::File { name_length, sha256hash, name }
            &&& name_length == le32(data, pos)
            &&& sha256hash@ == data.subrange(pos + 4, pos + 36)
            &&& name@ == spec_name_at(data, pos + 36, name_length as int)
            &&& end == pos + 36 + 2 * name_length
        },
        EntryTag::Pdir => {
            &&& b matches EntryData::Pdir { name_length, total_entries, sha256hash, name, entries }
            &&& name_length == le32(data, pos)
            &&& total_entries == le32(data, pos + 4)
            &&& sha256hash@ == data.subrange(pos + 8, pos + 40)
            &&& name@ == spec_name_at(data, pos + 40, name_length as int)
            &&& entries@.len() == total_entries
            &&& forall|k: int|
                0 <= k < total_entries ==> {
                    let base = pos + 40 + 2 * (name_length as int) + 12 * k;
                    (#[trigger] entries@[k]).entry_name_hash == le32(data, base) as i32
                        && entries@[k].offset == le64(data, base + 4)
                }
            &&& end == pos + 40 + 2 * name_length + 12 * total_entries
        },
    }
}

impl EntryData {
    /// Parses the record body that follows a tag. Succeeds exactly when the
    /// data is long enough for the kind's fixed part, its name and its
    /// child table.
    pub fn parse(data: &[u8], pos: usize, tag: EntryTag) -> (r: Result<(EntryData, usize), Error>)
        requires
            pos <= data@.len(),
        ensures
            r matches Ok((b, end)) ==> spec_body_matches(b, data@, pos as int, end as int, tag)
                && end <= data@.len(),
            r is Ok <==> spec_body_ok(data@, pos as int, tag),
    {
        let len = data.len();
        match tag {
            EntryTag::Free => Ok((EntryData::Free, pos)),
            EntryTag::Ggpk => {
                if len - pos < 20 {
                    return Err(Error::Format);
                }
                let version = read_u32_at(data, pos);
                let e0 = GgpkEntry { offset: read_u64_at(data, pos + 4) };
                let e1 = GgpkEntry { offset: read_u64_at(data, pos + 12) };
                let mut entries: Vec<GgpkEntry> = Vec::new();
                entries.push(e0);
                entries.push(e1);
                Ok((EntryData::Ggpk { version, entries }, pos + 20))
            },
            EntryTag::File => {
                if len - pos < 36 {
                    return Err(Error::Format);
                }
                let name_length = read_u32_at(data, pos);
                if (name_length as usize) > (len - pos - 36) / 2 {
                    return Err(Error::Format);
                }
                let sha256hash = crate::bytes::copy_range(data, pos + 4, 32);
                let name_bytes = &data[(pos + 36)..(pos + 36 + 2 * (name_length as usize))];
                let units = utf16_units(name_bytes);
                let raw = utf16_lossy(&units);
                let name = trim_trailing_nul(raw.as_str());
                let end = pos + 36 + 2 * (name_length as usize);
                Ok((EntryData::File { name_length, sha256hash, name }, end))
            },
            EntryTag::Pdir => {
                if len - pos < 40 {
                    return Err(Error::Format);
                }
                let name_length = read_u32_at(data, pos);
                let total_entries = read_u32_at(data, pos + 4);
                if (name_length as usize) > (len - pos - 40) / 2 {
                    return Err(Error::Format);
                }
                let name_end = pos + 40 + 2 * (name_length as usize);
                if (total_entries as usize) > (len - name_end) / 12 {
                    return Err(Error::Format);
                }
                let sha256hash = crate::bytes::copy_range(data, pos + 8, 32);
                let name_bytes = &data[(pos + 40)..name_end];
                let units = utf16_units(name_bytes);
                let raw = utf16_lossy(&units);
                let name = trim_trailing_nul(raw.as_str());
                let mut entries: Vec<DirectoryEntry> = Vec::new();
                let mut k: usize = 0;
                while k < total_entries as usize
                    invariant
                        len == data@.len(),
                        name_end + 12 * (total_entries as int) <= len,
                        k <= total_entries,
                        entries@.len() == k,
                        forall|j: int|
                            0 <= j < k ==> {
                                let base = name_end + 12 * j;
                                (#[trigger] entries@[j]).entry_name_hash == le32(data@, base) as i32
                                    && entries@[j].offset == le64(data@, base + 4)
                            },
                    decreases total_entries - k,
                {
                    let base = name_end + 12 * k;
                    let h = read_i32_at(data, base);
                    let off = read_u64_at(data, base + 4);
                    entries.push(DirectoryEntry { entry_name_hash: h, offset: off });
                    k = k + 1;
                }
                let end = name_end + 12 * (total_entries as usize);
                Ok(
                    (
                        EntryData::Pdir {
                            name_length,
                            total_entries,
                            sha256hash,
                            name,
                            entries,
                        },
                        end,
                    ),
                )
            },
        }
    }
}

/// Whether a whole record parse can succeed at `pos`.
pub open spec fn spec_entry_ok(data: Seq<u8>, pos: int) -> bool {
    &&& pos + 8 <= data.len()
    &&& spec_tag_at(data, pos + 4) is Some
    &&& spec_body_ok(data, pos + 8, spec_tag_at(data, pos + 4)->Some_0)
}

/// The record value and end position parsed at `pos`.
pub open spec fn spec_entry_matches(e: Entry, data: Seq<u8>, pos: int, end: int) -> bool {
    &&& pos + 8 <= data.len()
    &&& e.length == le32(data, pos)
    &&& spec_tag_at(data, pos + 4) == Some(e.tag)
    &&& spec_body_matches(e.data, data, pos + 8, end, e.tag)
}

impl Entry {
    /// Parses one record at `pos`: length, tag, body. The returned position
    /// is the first byte after the parsed header; for a file record that is
    /// where its payload begins.
    pub fn parse(data: &[u8], pos: usize) -> (r: Result<(Entry, usize), Error>)
        ensures
            r matches Ok((e, end)) ==> spec_entry_matches(e, data@, pos as int, end as int) && end
                <= data@.len(),
            r is Ok <==> spec_entry_ok(data@, pos as int),
    {
        let len = data.len();
        if len < 8 || pos > len - 8 {
            return Err(Error::Format);
        }
        let length = read_u32_at(data, pos);
        let tag = EntryTag::parse(data, pos + 4)?;
        let (body, end) = EntryData::parse(data, pos + 8, tag)?;
        Ok((Entry { length, tag, data: body }, end))
    }

    /// The number of payload bytes a file record owns: its stored length
    /// minus the header prefix, or zero for other kinds or when the stored
    /// length is too small to cover its own header.
    pub fn data_length_left(&self) -> (r: u32)
        ensures
            r == match self.data {
                EntryData::File { name_length, .. } => {
                    if self.length >= 44 + 2 * (name_length as int) {
                        self.length - 44 - 2 * (name_length as int)
                    } else {
                        0
                    }
                },
                _ => 0,
            },
    {
        match &self.data {
            EntryData::File { name_length, .. } => {
                let need: u64 = 44u64 + 2u64 * (*name_length as u64);
                if (self.length as u64) >= need {
                    ((self.length as u64) - need) as u32
                } else {
                    0
                }
            },
            _ => 0,
        }
    }
}


/// Whether `(e, off)` is a file record parsed out of `data` whose name
/// equals the path's final component.
pub open spec fn spec_found_file(
    e: Entry,
    off: int,
    data: Seq<u8>,
    components: Seq<Seq<char>>,
) -> bool {
    &&& exists|p: int| spec_entry_matches(e, data, p, off)
    &&& e.data is File
    &&& components.len() > 0
    &&& e.data->File_name@ == components.last()
}

/// What the depth-first search decides at the record at `pos`, seeking
/// the components at and after `from`: `None` is a corrupt record on the
/// visited path, `Some(None)` a miss, and `Some(Some((p, off)))` the
/// position of the first matching file record and of its payload. The
/// root record consumes no component, a directory must equal the next
/// component and consumes it, and a file matches when it carries the
/// final component's name.
pub open spec fn spec_find(
    data: Seq<u8>,
    pos: int,
    comps: Seq<Seq<char>>,
    from: int,
    fuel: nat,
) -> Option<Option<(int, int)>>
    decreases fuel, 1int, 0int,
{
    if fuel == 0 {
        Some(None)
    } else if !spec_entry_ok(data, pos) {
        None
    } else {
        let tag = spec_tag_at(data, pos + 4)->Some_0;
        if from >= comps.len() {
            Some(None)
        } else {
            match tag {
                EntryTag::Free => Some(None),
                EntryTag::File => {
                    let nl = le32(data, pos + 8) as int;
                    if from == comps.len() - 1 && spec_name_at(data, pos + 44, nl)
                        == comps[from] {
                        Some(Some((pos, pos + 44 + 2 * nl)))
                    } else {
                        Some(None)
                    }
                },
                EntryTag::Pdir => {
                    let nl = le32(data, pos + 8) as int;
                    let total = le32(data, pos + 12) as int;
                    if spec_name_at(data, pos + 48, nl) != comps[from] {
                        Some(None)
                    } else {
                        spec_find_children(
                            data,
                            pos + 48 + 2 * nl,
                            0,
                            total,
                            comps,
                            from + 1,
                            fuel,
                        )
                    }
                },
                EntryTag::Ggpk => spec_find_roots(data, pos + 12, 0, comps, from, fuel),
            }
        }
    }
}

/// The search over a directory's children from child `k` on.
pub open spec fn spec_find_children(
    data: Seq<u8>,
    ebase: int,
    k: int,
    total: int,
    comps: Seq<Seq<char>>,
    from: int,
    fuel: nat,
) -> Option<Option<(int, int)>>
    decreases fuel, 0int, total - k,
{
    if k >= total || fuel == 0 {
        Some(None)
    } else {
        let off = le64(data, ebase + 12 * k + 4) as int;
        if off > usize::MAX {
            None
        } else {
            match spec_find(data, off, comps, from, (fuel - 1) as nat) {
                None => None,
                Some(Some(f)) => Some(Some(f)),
                Some(None) => spec_find_children(data, ebase, k + 1, total, comps, from, fuel),
            }
        }
    }
}

/// The search over the root record's two children from child `k` on.
pub open spec fn spec_find_roots(
    data: Seq<u8>,
    base: int,
    k: int,
    comps: Seq<Seq<char>>,
    from: int,
    fuel: nat,
) -> Option<Option<(int, int)>>
    decreases fuel, 0int, 2 - k,
{
    if k >= 2 || fuel == 0 {
        Some(None)
    } else {
        let off = le64(data, base + 8 * k) as int;
        if off > usize::MAX {
            None
        } else {
            match spec_find(data, off, comps, from, (fuel - 1) as nat) {
                None => None,
                Some(Some(f)) => Some(Some(f)),
                Some(None) => spec_find_roots(data, base, k + 1, comps, from, fuel),
            }
        }
    }
}

fn find_at(data: &[u8], pos: usize, components: &Vec<String>, from: usize, fuel: u64) -> (r:
    Result<Option<(Entry, usize)>, Error>)
    requires
        from <= components@.len(),
    ensures
        r is Err <==> spec_find(data@, pos as int, components.deep_view(), from as int, fuel as nat)
            is None,
        r matches Ok(o) && o is None <==> spec_find(
            data@,
            pos as int,
            components.deep_view(),
            from as int,
            fuel as nat,
        ) == Some(None::<(int, int)>),
        r matches Ok(Some((e, off))) ==> {
            &&& spec_find(data@, pos as int, components.deep_view(), from as int, fuel as nat)
                matches Some(Some(f))
            &&& f.1 == off
            &&& spec_entry_matches(e, data@, f.0, off as int)
            &&& spec_found_file(e, off as int, data@, components.deep_view())
        },
    decreases fuel,
{
    let ghost comps = components.deep_view();
    if fuel == 0 {
        return Ok(None);
    }
    let (entry, end) = match Entry::parse(data, pos) {
        Ok(x) => x,
        Err(e) => {
            return Err(e);
        },
    };
    if from >= components.len() {
        return Ok(None);
    }
    match &entry.data {
        EntryData::Free => Ok(None),
        EntryData::File { name, .. } => {
            if from == components.len() - 1 && name.eq(&components[from]) {
                proof {
                    assert(comps[from as int] == components@[from as int]@);
                    assert(spec_entry_matches(entry, data@, pos as int, end as int));
                }
                Ok(Some((entry, end)))
            } else {
                Ok(None)
            }
        },
        EntryData::Pdir { name, entries, .. } => {
            if !name.eq(&components[from]) {
                proof {
                    assert(comps[from as int] == components@[from as int]@);
                }
                return Ok(None);
            }
            let next = from + 1;
            let n = entries.len();
            let ghost nl = le32(data@, pos as int + 8) as int;
            let ghost ebase = pos + 48 + 2 * nl;
            let mut k: usize = 0;
            while k < n
                invariant
                    n == entries@.len(),
                    next <= components@.len(),
                    from < components@.len(),
                    fuel >= 1,
                    comps == components.deep_view(),
                    n == le32(data@, pos as int + 12),
                    forall|j: int|
                        0 <= j < n ==> (#[trigger] entries@[j]).offset == le64(
                            data@,
                            ebase + 12 * j + 4,
                        ),
                    k <= n,
                    spec_find(data@, pos as int, comps, from as int, fuel as nat)
                        == spec_find_children(
                        data@,
                        ebase,
                        k as int,
                        n as int,
                        comps,
                        next as int,
                        fuel as nat,
                    ),
                decreases n - k,
            {
                let off64 = entries[k].offset;
                if off64 > usize::MAX as u64 {
                    proof {
                        assert(spec_find_children(
                            data@,
                            ebase,
                            k as int,
                            n as int,
                            comps,
                            next as int,
                            fuel as nat,
                        ) is None);
                    }
                    return Err(Error::Format);
                }
                let found = find_at(data, off64 as usize, components, next, fuel - 1)?;
                if let Some(f) = found {
                    return Ok(Some(f));
                }
                k = k + 1;
            }
            Ok(None)
        },
        EntryData::Ggpk { entries, .. } => {
            let n = entries.len();
            let ghost base = pos + 12;
            let mut k: usize = 0;
            while k < n
                invariant
                    n == entries@.len(),
                    n == 2,
                    from <= components@.len(),
                    from < components@.len(),
                    fuel >= 1,
                    comps == components.deep_view(),
                    forall|j: int|
                        0 <= j < n ==> (#[trigger] entries@[j]).offset == le64(data@, base + 8 * j),
                    k <= n,
                    spec_find(data@, pos as int, comps, from as int, fuel as nat)
                        == spec_find_roots(data@, base, k as int, comps, from as int, fuel as nat),
                decreases n - k,
            {
                let off64 = entries[k].offset;
                if off64 > usize::MAX as u64 {
                    proof {
                        assert(spec_find_roots(
                            data@,
                            base,
                            k as int,
                            comps,
                            from as int,
                            fuel as nat,
                        ) is None);
                    }
                    return Err(Error::Format);
                }
                let found = find_at(data, off64 as usize, components, from, fuel - 1)?;
                if let Some(f) = found {
                    return Ok(Some(f));
                }
                k = k + 1;
            }
            Ok(None)
        },
    }
}

/// Resolves a path through the record tree by depth-first descent from the
/// record at `pos`: the root record consumes no component, each directory
/// must equal the next component and consumes it, and the first file
/// record carrying the final component's name, in stored order, wins.
/// Returns that record and the archive offset of its payload, `None` when
/// the path does not resolve, and a format error when a record on the
/// visited path is corrupt. The search gives up on chains deeper than the
/// archive could hold distinct records.
pub fn find_file(data: &[u8], pos: usize, components: &Vec<String>) -> (r: Result<
    Option<(Entry, usize)>,
    Error,
>)
    ensures
        r is Err <==> spec_find(
            data@,
            pos as int,
            components.deep_view(),
            0,
            (data@.len() / 8 + 2) as nat,
        ) is None,
        r matches Ok(o) && o is None <==> spec_find(
            data@,
            pos as int,
            components.deep_view(),
            0,
            (data@.len() / 8 + 2) as nat,
        ) == Some(None::<(int, int)>),
        r matches Ok(Some((e, off))) ==> {
            &&& spec_find(
                data@,
                pos as int,
                components.deep_view(),
                0,
                (data@.len() / 8 + 2) as nat,
            ) matches Some(Some(f))
            &&& f.1 == off
            &&& spec_entry_matches(e, data@, f.0, off as int)
            &&& spec_found_file(e, off as int, data@, components.deep_view())
        },
        components@.len() == 0 ==> !(r matches Ok(Some(f))),
{
    let fuel = (data.len() as u64) / 8 + 2;
    find_at(data, pos, components, 0, fuel)
}

} // verus!
