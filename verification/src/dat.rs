//! The schema-directed `dat` table decoder: a fixed-length row area split
//! from a variable-length heap at an eight-byte `0xBB` sentinel, rows read
//! column by column under a supplied schema.
use vstd::arithmetic::div_mod::lemma_fundamental_div_mod;
use vstd::prelude::*;

use crate::bytes::{le16, le32, le64, read_i16_at, read_i32_at, read_u16_at, read_u32_at, read_u64_at};
use crate::dat_schema::{ColumnType, TableColumn};
use crate::text::{utf16_lossy, utf16_lossy_of, utf16_units, utf16_units_of};
use crate::Error;

verus! {

broadcast use vstd::std_specs::vec::group_vec_axioms, vstd::seq::group_seq_axioms;

/// The sentinel value marking keys that reference no row.
pub open spec fn spec_absent_key() -> u64 {
    0xfefefefefefefefeu64
}

/// `Some` for a real key, `None` for the absent-row sentinel.
pub fn wrap_usize(value: usize) -> (r: Option<usize>)
    ensures
        r == if value as u64 == spec_absent_key() {
            Option::<usize>::None
        } else {
            Option::<usize>::Some(value)
        },
{
    if value as u64 == 0xfefefefefefefefeu64 {
        None
    } else {
        Some(value)
    }
}

/// Whether eight `0xBB` bytes sit at `k`.
pub open spec fn bb_run_at(d: Seq<u8>, k: int) -> bool {
    forall|j: int| k <= j < k + 8 ==> d[j] == 0xbbu8
}

/// The first index carrying the eight-byte `0xBB` sentinel, or `-1`.
pub open spec fn first_bb(d: Seq<u8>, k: int) -> int
    decreases d.len() - k,
{
    if k < 0 || k + 8 > d.len() {
        -1
    } else if bb_run_at(d, k) {
        k
    } else {
        first_bb(d, k + 1)
    }
}

/// A well-formed table: the sentinel found past the row-count word, a
/// positive row count dividing the fixed area evenly, and the row length
/// their quotient.
pub struct DatFile {
    pub data: Vec<u8>,
    pub row_count: u32,
    pub boundary: usize,
    pub row_length: usize,
}

impl DatFile {
    /// The layout invariant: the boundary is the first sentinel position,
    /// the fixed area divides evenly into `row_count` rows of
    /// `row_length` bytes.
    pub open spec fn wf(self) -> bool {
        &&& 4 <= self.boundary <= self.data@.len()
        &&& self.boundary == first_bb(self.data@, 0)
        &&& self.row_count > 0
        &&& (self.boundary - 4) % (self.row_count as int) == 0
        &&& self.row_length == (self.boundary - 4) / (self.row_count as int)
        &&& (self.row_length as int) * (self.row_count as int) == self.boundary - 4
    }

    /// Splits a table at its sentinel. Succeeds exactly when the data
    /// carries a row count, the sentinel sits at or past the fourth byte,
    /// the row count is positive and it divides the fixed area evenly.
    pub fn new(data: Vec<u8>) -> (r: Result<DatFile, Error>)
        ensures
            r matches Ok(f) ==> {
                &&& f.wf()
                &&& f.data@ == data@
                &&& f.row_count == le32(data@, 0)
            },
            r is Ok <==> data@.len() >= 4 && first_bb(data@, 0) >= 4 && le32(data@, 0) > 0 && (
            first_bb(data@, 0) - 4) % (le32(data@, 0) as int) == 0,
    {
        let len = data.len();
        if len < 4 {
            return Err(Error::Format);
        }
        let row_count = read_u32_at(data.as_slice(), 0);
        let mut k: usize = 0;
        let mut boundary: usize = 0;
        let mut found = false;
        while !found && len - k >= 8
            invariant
                len == data@.len(),
                k <= len,
                found ==> boundary == first_bb(data@, 0) && boundary + 8 <= len,
                !found ==> first_bb(data@, 0) == first_bb(data@, k as int),
            decreases len - k + if found {
                0int
            } else {
                1int
            },
        {
            let s = data.as_slice();
            if s[k] == 0xbb && s[k + 1] == 0xbb && s[k + 2] == 0xbb && s[k + 3] == 0xbb && s[k + 4]
                == 0xbb && s[k + 5] == 0xbb && s[k + 6] == 0xbb && s[k + 7] == 0xbb {
                boundary = k;
                found = true;
                proof {
                    assert(bb_run_at(data@, k as int));
                    assert(first_bb(data@, k as int) == k as int);
                }
            } else {
                proof {
                    assert(!bb_run_at(data@, k as int));
                }
                k = k + 1;
            }
        }
        if !found {
            proof {
                assert(first_bb(data@, k as int) == -1);
            }
            return Err(Error::Format);
        }
        if boundary < 4 {
            return Err(Error::Format);
        }
        if row_count == 0 {
            return Err(Error::Format);
        }
        if (boundary - 4) % (row_count as usize) != 0 {
            return Err(Error::Format);
        }
        let row_length = (boundary - 4) / (row_count as usize);
        proof {
            lemma_fundamental_div_mod(boundary as int - 4, row_count as int);
            assert((row_length as int) * (row_count as int) == boundary - 4) by (nonlinear_arith)
                requires
                    row_count as int > 0,
                    row_length as int == (boundary as int - 4) / (row_count as int),
                    boundary as int - 4 == (row_count as int) * ((boundary as int - 4) / (
                    row_count as int)),
            ;
        }
        Ok(DatFile { data, row_count, boundary, row_length })
    }

    /// The row length in bytes.
    pub fn row_length(&self) -> (r: usize)
        ensures
            r == self.row_length,
    {
        self.row_length
    }

    /// The number of rows.
    pub fn row_count(&self) -> (r: u32)
        ensures
            r == self.row_count,
    {
        self.row_count
    }

    /// The fixed-length row area: `row_length * row_count` bytes between
    /// the row-count word and the sentinel.
    pub fn fixed_data(&self) -> (r: &[u8])
        requires
            self.wf(),
        ensures
            r@ == self.data@.subrange(4, self.boundary as int),
    {
        &self.data.as_slice()[4..self.boundary]
    }

    /// The variable-length heap: everything from the sentinel on.
    pub fn variable_data(&self) -> (r: &[u8])
        requires
            self.wf(),
        ensures
            r@ == self.data@.subrange(self.boundary as int, self.data@.len() as int),
    {
        &self.data.as_slice()[self.boundary..self.data.len()]
    }

    /// A cursor over the `n`th row beside the heap.
    pub fn nth_row(&self, n: usize) -> (r: DatRow)
        requires
            self.wf(),
            n < self.row_count,
        ensures
            r.fixed@ == self.data@.subrange(
                4 + (n as int) * (self.row_length as int),
                4 + (n as int) * (self.row_length as int) + self.row_length as int,
            ),
            r.pos == 0,
            r.variable@ == self.data@.subrange(self.boundary as int, self.data@.len() as int),
    {
        let dlen = self.data.len();
        proof {
            assert((n as int) * (self.row_length as int) + self.row_length as int <= (
            self.row_length as int) * (self.row_count as int)) by (nonlinear_arith)
                requires
                    0 <= n as int,
                    (n as int) < self.row_count as int,
                    0 <= self.row_length as int,
            ;
        }
        let start = 4 + n * self.row_length;
        let end = start + self.row_length;
        DatRow {
            fixed: &self.data.as_slice()[start..end],
            pos: 0,
            variable: &self.data.as_slice()[self.boundary..self.data.len()],
        }
    }

    /// Cursors over every row, in order.
    pub fn iter_rows(&self) -> (r: Vec<DatRow>)
        requires
            self.wf(),
        ensures
            r@.len() == self.row_count,
            forall|n: int|
                0 <= n < r@.len() ==> {
                    &&& (#[trigger] r@[n]).fixed@ == self.data@.subrange(
                        4 + n * (self.row_length as int),
                        4 + n * (self.row_length as int) + self.row_length as int,
                    )
                    &&& r@[n].pos == 0
                    &&& r@[n].variable@ == self.data@.subrange(
                        self.boundary as int,
                        self.data@.len() as int,
                    )
                },
    {
        let mut out: Vec<DatRow> = Vec::new();
        let mut n: usize = 0;
        while n < self.row_count as usize
            invariant
                self.wf(),
                n <= self.row_count,
                out@.len() == n,
                forall|j: int|
                    0 <= j < n ==> {
                        &&& (#[trigger] out@[j]).fixed@ == self.data@.subrange(
                            4 + j * (self.row_length as int),
                            4 + j * (self.row_length as int) + self.row_length as int,
                        )
                        &&& out@[j].pos == 0
                        &&& out@[j].variable@ == self.data@.subrange(
                            self.boundary as int,
                            self.data@.len() as int,
                        )
                    },
            decreases self.row_count - n,
        {
            out.push(self.nth_row(n));
            n = n + 1;
        }
        out
    }

    /// The fixed area splits exactly into rows: its length is the row
    /// length times the row count, and the row count divides it evenly.
    pub proof fn lemma_dat_layout(self)
        requires
            self.wf(),
        ensures
            (self.boundary - 4) % (self.row_count as int) == 0,
            (self.row_length as int) * (self.row_count as int) == self.boundary - 4,
    {
    }
}

/// Whether a four-byte zero run sits at `k`.
pub open spec fn zero_run_at(d: Seq<u8>, k: int) -> bool {
    d[k] == 0u8 && d[k + 1] == 0u8 && d[k + 2] == 0u8 && d[k + 3] == 0u8
}

/// The first even index carrying a four-byte zero run, scanning from even
/// `k`, or `-1`.
pub open spec fn first_even_zero(d: Seq<u8>, k: int) -> int
    decreases d.len() - k,
{
    if k < 0 || k + 4 > d.len() {
        -1
    } else if zero_run_at(d, k) {
        k
    } else {
        first_even_zero(d, k + 2)
    }
}

/// The decoded string at `offset` in the heap: UTF-16 code units up to the
/// first four-byte zero run at an even distance from the offset.
pub open spec fn spec_variable_string(variable: Seq<u8>, offset: int) -> Seq<char> {
    let sub = variable.subrange(offset, variable.len() as int);
    let z = first_even_zero(sub, 0);
    utf16_lossy_of(utf16_units_of(sub.subrange(0, z)))
}

/// Whether the heap holds a terminated string at `offset`.
pub open spec fn spec_variable_string_ok(variable: Seq<u8>, offset: int) -> bool {
    &&& 0 <= offset <= variable.len()
    &&& first_even_zero(variable.subrange(offset, variable.len() as int), 0) >= 0
}

/// Decodes the NUL-run-terminated UTF-16 string at `offset` in the heap.
/// The terminator is the first four-byte zero run at an even distance, so
/// a zero byte inside a code unit cannot end the string early.
pub fn read_variable_string(data: &[u8], offset: usize) -> (r: Result<String, Error>)
    ensures
        r matches Ok(s) ==> spec_variable_string_ok(data@, offset as int) && s@
            == spec_variable_string(data@, offset as int),
        r is Ok <==> spec_variable_string_ok(data@, offset as int),
{
    let len = data.len();
    if offset > len {
        return Err(Error::Format);
    }
    let sub = &data[offset..len];
    let ghost subv = data@.subrange(offset as int, data@.len() as int);
    let sublen = len - offset;
    let mut k: usize = 0;
    let mut found = false;
    let mut z: usize = 0;
    while !found && sublen - k >= 4
        invariant
            sublen == subv.len(),
            sub@ == subv,
            k <= sublen,
            found ==> z == first_even_zero(subv, 0) && z + 4 <= sublen,
            !found ==> first_even_zero(subv, 0) == first_even_zero(subv, k as int),
        decreases sublen - k + if found {
            0int
        } else {
            1int
        },
    {
        if sub[k] == 0 && sub[k + 1] == 0 && sub[k + 2] == 0 && sub[k + 3] == 0 {
            z = k;
            found = true;
            proof {
                assert(zero_run_at(subv, k as int));
            }
        } else {
            proof {
                assert(!zero_run_at(subv, k as int));
            }
            k = k + 2;
        }
    }
    if !found {
        proof {
            assert(first_even_zero(subv, k as int) == -1);
        }
        return Err(Error::Format);
    }
    let units = utf16_units(&sub[0..z]);
    proof {
        assert(sub@.subrange(0, z as int) == subv.subrange(0, z as int));
    }
    Ok(utf16_lossy(&units))
}


/// `Some` of a key, `None` for the absent sentinel, at spec level.
pub open spec fn spec_wrap_key(v: u64) -> Option<usize> {
    if (v as usize) as u64 == spec_absent_key() {
        None
    } else {
        Some(v as usize)
    }
}

/// The abstract value of a decoded cell: as `DatValue`, with strings as
/// character sequences.
pub enum DatValueModel {
    Bool(bool),
    Str(Seq<char>),
    I16(i16),
    I32(i32),
    U16(u16),
    U32(u32),
    F32Bits(u32),
    UnknownArray(u64, u64),
    Array(Seq<DatValueModel>),
    Row(Option<usize>),
    ForeignRow { rid: Option<usize>, unknown: Option<usize> },
    EnumRow(usize),
}

/// One decoded cell. A float column keeps its four raw little-endian
/// bytes as bits; an untyped array keeps its heap offset and length.
#[derive(Debug)]
pub enum DatValue {
    Bool(bool),
    String(String),
    I16(i16),
    I32(i32),
    U16(u16),
    U32(u32),
    F32Bits(u32),
    UnknownArray(u64, u64),
    Array(Vec<DatValue>),
    Row(Option<usize>),
    ForeignRow { rid: Option<usize>, unknown: Option<usize> },
    EnumRow(usize),
}

impl DatValue {
    /// The abstract value of one cell that is not itself an array.
    pub open spec fn leaf_model(self) -> DatValueModel {
        match self {
            DatValue::Bool(b) => DatValueModel::Bool(b),
            DatValue::String(s) => DatValueModel::Str(s@),
            DatValue::I16(v) => DatValueModel::I16(v),
            DatValue::I32(v) => DatValueModel::I32(v),
            DatValue::U16(v) => DatValueModel::U16(v),
            DatValue::U32(v) => DatValueModel::U32(v),
            DatValue::F32Bits(v) => DatValueModel::F32Bits(v),
            DatValue::UnknownArray(o, l) => DatValueModel::UnknownArray(o, l),
            DatValue::Array(vs) => DatValueModel::Array(Seq::empty()),
            DatValue::Row(k) => DatValueModel::Row(k),
            DatValue::ForeignRow { rid, unknown } => DatValueModel::ForeignRow { rid, unknown },
            DatValue::EnumRow(v) => DatValueModel::EnumRow(v),
        }
    }

    /// The cell's abstract value. The decoder reads array elements as
    /// scalars, so one level of elements is modelled.
    pub open spec fn model(self) -> DatValueModel {
        match self {
            DatValue::Array(vs) => DatValueModel::Array(
                Seq::new(vs@.len(), |i: int| vs@[i].leaf_model()),
            ),
            _ => self.leaf_model(),
        }
    }

    /// The wrapped boolean.
    pub fn as_bool(&self) -> (r: bool)
        requires
            self is Bool,
        ensures
            r == self->Bool_0,
    {
        match self {
            DatValue::Bool(b) => *b,
            _ => false,
        }
    }

    /// The wrapped string.
    pub fn as_string(&self) -> (r: String)
        requires
            self is String,
        ensures
            r@ == self->String_0@,
    {
        match self {
            DatValue::String(s) => s.clone(),
            _ => String::new(),
        }
    }

    /// The wrapped signed integer.
    pub fn as_i32(&self) -> (r: i32)
        requires
            self is I32,
        ensures
            r == self->I32_0,
    {
        match self {
            DatValue::I32(v) => *v,
            _ => 0,
        }
    }

    /// The wrapped enumeration row index.
    pub fn as_enum_row_index(&self) -> (r: usize)
        requires
            self is EnumRow,
        ensures
            r == self->EnumRow_0,
    {
        match self {
            DatValue::EnumRow(v) => *v,
            _ => 0,
        }
    }

    /// The wrapped foreign-row key, absent when it held the sentinel.
    pub fn as_foreign_row_index(&self) -> (r: Option<usize>)
        requires
            self is ForeignRow,
        ensures
            r == self->ForeignRow_rid,
    {
        match self {
            DatValue::ForeignRow { rid, .. } => *rid,
            _ => None,
        }
    }

    /// The wrapped row key, absent when it held the sentinel.
    pub fn as_row_index(&self) -> (r: Option<usize>)
        requires
            self is Row,
        ensures
            r == self->Row_0,
    {
        match self {
            DatValue::Row(v) => *v,
            _ => None,
        }
    }

    /// The wrapped element list.
    pub fn as_array(&self) -> (r: &Vec<DatValue>)
        requires
            self is Array,
        ensures
            r == self->Array_0,
    {
        match self {
            DatValue::Array(vs) => vs,
            _ => unreached(),
        }
    }
}

/// The fixed-area width of one scalar of the given type.
pub open spec fn scalar_width(t: ColumnType) -> int {
    match t {
        ColumnType::Bool => 1,
        ColumnType::I16 => 2,
        ColumnType::U16 => 2,
        ColumnType::I32 => 4,
        ColumnType::U32 => 4,
        ColumnType::F32 => 4,
        ColumnType::EnumRow => 4,
        ColumnType::String => 8,
        ColumnType::Row => 8,
        ColumnType::ForeignRow => 16,
        ColumnType::Array => 16,
    }
}

/// Whether a scalar of type `t` can be read at `pos` of `d`.
pub open spec fn spec_scalar_ok(t: ColumnType, d: Seq<u8>, pos: int, variable: Seq<u8>) -> bool {
    &&& 0 <= pos
    &&& pos + scalar_width(t) <= d.len()
    &&& (t is String ==> spec_variable_string_ok(variable, le64(d, pos) as int))
}

/// The value a scalar of type `t` at `pos` of `d` decodes to.
pub open spec fn spec_scalar_value(
    t: ColumnType,
    d: Seq<u8>,
    pos: int,
    variable: Seq<u8>,
) -> DatValueModel {
    match t {
        ColumnType::Bool => DatValueModel::Bool(d[pos] != 0u8),
        ColumnType::I16 => DatValueModel::I16(le16(d, pos) as i16),
        ColumnType::U16 => DatValueModel::U16(le16(d, pos)),
        ColumnType::I32 => DatValueModel::I32(le32(d, pos) as i32),
        ColumnType::U32 => DatValueModel::U32(le32(d, pos)),
        ColumnType::F32 => DatValueModel::F32Bits(le32(d, pos)),
        ColumnType::EnumRow => DatValueModel::EnumRow((le32(d, pos) as i32) as usize),
        ColumnType::String => DatValueModel::Str(
            spec_variable_string(variable, le64(d, pos) as int),
        ),
        ColumnType::Row => DatValueModel::Row(spec_wrap_key(le64(d, pos))),
        ColumnType::ForeignRow => DatValueModel::ForeignRow {
            rid: spec_wrap_key(le64(d, pos)),
            unknown: spec_wrap_key(le64(d, pos + 8)),
        },
        ColumnType::Array => DatValueModel::UnknownArray(le64(d, pos + 8), le64(d, pos)),
    }
}

/// Whether an array column at `pos` can be read: its length and offset
/// words, and every element in the heap.
pub open spec fn spec_array_ok(t: ColumnType, d: Seq<u8>, pos: int, variable: Seq<u8>) -> bool {
    &&& 0 <= pos
    &&& pos + 16 <= d.len()
    &&& {
        let n = le64(d, pos) as int;
        let off = le64(d, pos + 8) as int;
        &&& off + n * scalar_width(t) <= variable.len()
        &&& forall|i: int|
            0 <= i < n ==> #[trigger] spec_scalar_ok(t, variable, off + i * scalar_width(t), variable)
    }
}

/// The element list an array column decodes to.
pub open spec fn spec_array_value(
    t: ColumnType,
    d: Seq<u8>,
    pos: int,
    variable: Seq<u8>,
) -> DatValueModel {
    let n = le64(d, pos) as int;
    let off = le64(d, pos + 8) as int;
    DatValueModel::Array(
        Seq::new(n as nat, |i: int| spec_scalar_value(t, variable, off + i * scalar_width(t), variable)),
    )
}

/// The fixed-area width one column occupies.
pub open spec fn col_width(c: TableColumn) -> int {
    if c.array {
        16
    } else {
        scalar_width(c.ttype)
    }
}

/// The fixed-area width of the first `n` columns together.
pub open spec fn cols_width(cs: Seq<TableColumn>, n: int) -> int
    decreases n,
{
    if n <= 0 {
        0
    } else {
        cols_width(cs, n - 1) + col_width(cs[n - 1])
    }
}

/// Whether column `c` can be read at `pos`.
pub open spec fn spec_col_ok(c: TableColumn, d: Seq<u8>, pos: int, variable: Seq<u8>) -> bool {
    if c.array {
        spec_array_ok(c.ttype, d, pos, variable)
    } else {
        spec_scalar_ok(c.ttype, d, pos, variable)
    }
}

/// The value column `c` at `pos` decodes to.
pub open spec fn spec_col_value(
    c: TableColumn,
    d: Seq<u8>,
    pos: int,
    variable: Seq<u8>,
) -> DatValueModel {
    if c.array {
        spec_array_value(c.ttype, d, pos, variable)
    } else {
        spec_scalar_value(c.ttype, d, pos, variable)
    }
}


/// The name a column reports when it is the `k`th unnamed one.
pub open spec fn spec_column_name(c: TableColumn, k: nat) -> Seq<char> {
    match c.name {
        Some(nm) => nm@,
        None => "Unknown"@ + crate::text::dec_digits(k),
    }
}

/// How many of the first `n` columns are unnamed.
pub open spec fn unnamed_before(cs: Seq<TableColumn>, n: int) -> nat
    decreases n,
{
    if n <= 0 {
        0
    } else if cs[n - 1].name is None {
        unnamed_before(cs, n - 1) + 1
    } else {
        unnamed_before(cs, n - 1)
    }
}

/// The name of column `i` in its row map.
pub open spec fn name_of_col(cs: Seq<TableColumn>, i: int) -> Seq<char> {
    spec_column_name(cs[i], unnamed_before(cs, i))
}

/// The value the first `n` columns leave under name `kk`, a later column
/// of the same name replacing an earlier one.
pub open spec fn spec_map_value(
    cs: Seq<TableColumn>,
    n: int,
    fixed: Seq<u8>,
    pos0: int,
    variable: Seq<u8>,
    kk: Seq<char>,
) -> Option<DatValueModel>
    decreases n,
{
    if n <= 0 {
        None
    } else if name_of_col(cs, n - 1) == kk {
        Some(spec_col_value(cs[n - 1], fixed, pos0 + cols_width(cs, n - 1), variable))
    } else {
        spec_map_value(cs, n - 1, fixed, pos0, variable, kk)
    }
}

/// The first value stored under a column name.
pub open spec fn pair_lookup(m: Seq<(String, DatValue)>, kk: Seq<char>) -> Option<DatValue>
    decreases m.len(),
{
    if m.len() == 0 {
        None
    } else if m[0].0@ == kk {
        Some(m[0].1)
    } else {
        pair_lookup(m.drop_first(), kk)
    }
}

/// The abstract value stored under a column name, if any.
pub open spec fn pair_model(m: Seq<(String, DatValue)>, kk: Seq<char>) -> Option<DatValueModel> {
    match pair_lookup(m, kk) {
        None => None,
        Some(v) => Some(v.model()),
    }
}

/// With no match among the first `i` pairs and a match at `i`, the
/// lookup lands on pair `i`.
proof fn lemma_pair_lookup_at(m: Seq<(String, DatValue)>, kk: Seq<char>, i: int)
    requires
        0 <= i < m.len(),
        m[i].0@ == kk,
        forall|j: int| 0 <= j < i ==> (#[trigger] m[j]).0@ != kk,
    ensures
        pair_lookup(m, kk) == Some(m[i].1),
    decreases i,
{
    if i > 0 {
        lemma_pair_lookup_at(m.drop_first(), kk, i - 1);
    }
}

/// With no match anywhere, the lookup is empty.
proof fn lemma_pair_lookup_none(m: Seq<(String, DatValue)>, kk: Seq<char>)
    requires
        forall|j: int| 0 <= j < m.len() ==> (#[trigger] m[j]).0@ != kk,
    ensures
        pair_lookup(m, kk) is None,
    decreases m.len(),
{
    if m.len() > 0 {
        lemma_pair_lookup_none(m.drop_first(), kk);
    }
}

/// Appending a pair changes only lookups that were empty and match its
/// name.
proof fn lemma_pair_lookup_push(m: Seq<(String, DatValue)>, e: (String, DatValue), kk: Seq<char>)
    ensures
        pair_lookup(m.push(e), kk) == if pair_lookup(m, kk) is Some {
            pair_lookup(m, kk)
        } else if e.0@ == kk {
            Some(e.1)
        } else {
            None
        },
    decreases m.len(),
{
    if m.len() == 0 {
        assert(m.push(e)[0] == e);
        assert(m.push(e).drop_first() =~= Seq::<(String, DatValue)>::empty());
        assert(pair_lookup(m, kk) is None);
        if e.0@ == kk {
            assert(pair_lookup(m.push(e), kk) == Some(e.1));
        } else {
            assert(pair_lookup(m.push(e), kk) == pair_lookup(
                Seq::<(String, DatValue)>::empty(),
                kk,
            ));
        }
    } else {
        assert(m.push(e)[0] == m[0]);
        assert(m.push(e).drop_first() =~= m.drop_first().push(e));
        lemma_pair_lookup_push(m.drop_first(), e, kk);
        if m[0].0@ == kk {
            assert(pair_lookup(m.push(e), kk) == Some(m[0].1));
            assert(pair_lookup(m, kk) == Some(m[0].1));
        } else {
            assert(pair_lookup(m.push(e), kk) == pair_lookup(m.drop_first().push(e), kk));
            assert(pair_lookup(m, kk) == pair_lookup(m.drop_first(), kk));
        }
    }
}

/// Replacing the value at the first index bearing a name changes exactly
/// that name's lookup.
proof fn lemma_pair_lookup_replace(
    old: Seq<(String, DatValue)>,
    new: Seq<(String, DatValue)>,
    ix: int,
    kk: Seq<char>,
)
    requires
        old.len() == new.len(),
        0 <= ix < old.len(),
        forall|j: int| 0 <= j < old.len() ==> (#[trigger] new[j]).0@ == old[j].0@,
        forall|j: int| 0 <= j < old.len() && j != ix ==> #[trigger] new[j] == old[j],
        forall|j: int| 0 <= j < ix ==> (#[trigger] old[j]).0@ != old[ix].0@,
    ensures
        pair_lookup(new, kk) == if kk == old[ix].0@ {
            Some(new[ix].1)
        } else {
            pair_lookup(old, kk)
        },
    decreases ix,
{
    if kk == old[ix].0@ {
        assert forall|j: int| 0 <= j < ix implies (#[trigger] new[j]).0@ != kk by {
            assert(old[j].0@ != old[ix].0@);
        }
        lemma_pair_lookup_at(new, kk, ix);
    } else {
        if ix == 0 {
            assert(new[0].0@ == old[0].0@);
            assert(new.drop_first() =~= old.drop_first());
        } else {
            assert(new[0] == old[0]);
            assert forall|j: int| 0 <= j < old.drop_first().len() implies (
            #[trigger] new.drop_first()[j]).0@ == old.drop_first()[j].0@ by {
                assert(new[j + 1].0@ == old[j + 1].0@);
            }
            assert forall|j: int|
                0 <= j < old.drop_first().len() && j != ix - 1 implies #[trigger] new.drop_first()[j]
                    == old.drop_first()[j] by {
                assert(new[j + 1] == old[j + 1]);
            }
            assert forall|j: int| 0 <= j < ix - 1 implies (#[trigger] old.drop_first()[j]).0@
                != old.drop_first()[ix - 1].0@ by {
                assert(old[j + 1].0@ != old[ix].0@);
            }
            lemma_pair_lookup_replace(old.drop_first(), new.drop_first(), ix - 1, kk);
        }
    }
}

/// A cursor over one row's fixed bytes beside the variable heap.
#[derive(Debug)]
pub struct DatRow<'a> {
    pub fixed: &'a [u8],
    pub pos: usize,
    pub variable: &'a [u8],
}

/// Reads one scalar of type `t` at `pos` of `d`, against the heap.
/// Succeeds exactly when the scalar lies inside `d` and, for a string
/// column, the heap holds a terminated string at its offset.
fn read_scalar_at(d: &[u8], pos: usize, t: ColumnType, variable: &[u8]) -> (r: Result<
    (DatValue, usize),
    Error,
>)
    ensures
        r matches Ok((v, end)) ==> {
            &&& spec_scalar_ok(t, d@, pos as int, variable@)
            &&& v.model() == spec_scalar_value(t, d@, pos as int, variable@)
            &&& v.leaf_model() == spec_scalar_value(t, d@, pos as int, variable@)
            &&& end == pos + scalar_width(t)
        },
        r is Ok <==> spec_scalar_ok(t, d@, pos as int, variable@),
{
    let len = d.len();
    match t {
        ColumnType::Bool => {
            if pos >= len {
                return Err(Error::Format);
            }
            Ok((DatValue::Bool(d[pos] != 0), pos + 1))
        },
        ColumnType::I16 => {
            if len < 2 || pos > len - 2 {
                return Err(Error::Format);
            }
            Ok((DatValue::I16(read_i16_at(d, pos)), pos + 2))
        },
        ColumnType::U16 => {
            if len < 2 || pos > len - 2 {
                return Err(Error::Format);
            }
            Ok((DatValue::U16(read_u16_at(d, pos)), pos + 2))
        },
        ColumnType::I32 => {
            if len < 4 || pos > len - 4 {
                return Err(Error::Format);
            }
            Ok((DatValue::I32(read_i32_at(d, pos)), pos + 4))
        },
        ColumnType::U32 => {
            if len < 4 || pos > len - 4 {
                return Err(Error::Format);
            }
            Ok((DatValue::U32(read_u32_at(d, pos)), pos + 4))
        },
        ColumnType::F32 => {
            if len < 4 || pos > len - 4 {
                return Err(Error::Format);
            }
            Ok((DatValue::F32Bits(read_u32_at(d, pos)), pos + 4))
        },
        ColumnType::EnumRow => {
            if len < 4 || pos > len - 4 {
                return Err(Error::Format);
            }
            Ok((DatValue::EnumRow(#[verifier::truncate] (read_i32_at(d, pos) as usize)), pos + 4))
        },
        ColumnType::String => {
            if len < 8 || pos > len - 8 {
                return Err(Error::Format);
            }
            let off = read_u64_at(d, pos);
            let vl = variable.len();
            if off > vl as u64 {
                return Err(Error::Format);
            }
            let string = read_variable_string(variable, off as usize)?;
            Ok((DatValue::String(string), pos + 8))
        },
        ColumnType::Row => {
            if len < 8 || pos > len - 8 {
                return Err(Error::Format);
            }
            let key = read_u64_at(d, pos);
            Ok((DatValue::Row(wrap_usize(#[verifier::truncate] (key as usize))), pos + 8))
        },
        ColumnType::ForeignRow => {
            if len < 16 || pos > len - 16 {
                return Err(Error::Format);
            }
            let rid = read_u64_at(d, pos);
            let unknown = read_u64_at(d, pos + 8);
            Ok(
                (
                    DatValue::ForeignRow {
                        rid: wrap_usize(#[verifier::truncate] (rid as usize)),
                        unknown: wrap_usize(#[verifier::truncate] (unknown as usize)),
                    },
                    pos + 16,
                ),
            )
        },
        ColumnType::Array => {
            if len < 16 || pos > len - 16 {
                return Err(Error::Format);
            }
            let n = read_u64_at(d, pos);
            let off = read_u64_at(d, pos + 8);
            Ok((DatValue::UnknownArray(off, n), pos + 16))
        },
    }
}

impl<'a> DatRow<'a> {
    /// Reads a `u32` at the cursor and advances it.
    pub fn read_u32(&mut self) -> (r: Result<u32, Error>)
        ensures
            final(self).fixed == old(self).fixed,
            final(self).variable == old(self).variable,
            r matches Ok(v) ==> old(self).pos + 4 <= old(self).fixed@.len() && v == le32(
                old(self).fixed@,
                old(self).pos as int,
            ) && final(self).pos == old(self).pos + 4,
            r is Err ==> *final(self) == *old(self),
            r is Ok <==> old(self).pos + 4 <= old(self).fixed@.len(),
    {
        let len = self.fixed.len();
        if len < 4 || self.pos > len - 4 {
            return Err(Error::Format);
        }
        let v = read_u32_at(self.fixed, self.pos);
        self.pos = self.pos + 4;
        Ok(v)
    }

    /// Reads a `u64` at the cursor and advances it.
    pub fn read_u64(&mut self) -> (r: Result<u64, Error>)
        ensures
            final(self).fixed == old(self).fixed,
            final(self).variable == old(self).variable,
            r matches Ok(v) ==> old(self).pos + 8 <= old(self).fixed@.len() && v == le64(
                old(self).fixed@,
                old(self).pos as int,
            ) && final(self).pos == old(self).pos + 8,
            r is Err ==> *final(self) == *old(self),
            r is Ok <==> old(self).pos + 8 <= old(self).fixed@.len(),
    {
        let len = self.fixed.len();
        if len < 8 || self.pos > len - 8 {
            return Err(Error::Format);
        }
        let v = read_u64_at(self.fixed, self.pos);
        self.pos = self.pos + 8;
        Ok(v)
    }

    /// Reads an `i32` at the cursor and advances it.
    pub fn read_i32(&mut self) -> (r: Result<i32, Error>)
        ensures
            final(self).fixed == old(self).fixed,
            final(self).variable == old(self).variable,
            r matches Ok(v) ==> old(self).pos + 4 <= old(self).fixed@.len() && v == le32(
                old(self).fixed@,
                old(self).pos as int,
            ) as i32 && final(self).pos == old(self).pos + 4,
            r is Err ==> *final(self) == *old(self),
            r is Ok <==> old(self).pos + 4 <= old(self).fixed@.len(),
    {
        let len = self.fixed.len();
        if len < 4 || self.pos > len - 4 {
            return Err(Error::Format);
        }
        let v = read_i32_at(self.fixed, self.pos);
        self.pos = self.pos + 4;
        Ok(v)
    }

    /// Reads one non-array column at the cursor.
    pub fn read_scalar(&mut self, column: &TableColumn) -> (r: Result<DatValue, Error>)
        ensures
            final(self).fixed == old(self).fixed,
            final(self).variable == old(self).variable,
            r matches Ok(v) ==> {
                &&& spec_scalar_ok(column.ttype, old(self).fixed@, old(self).pos as int, old(self).variable@)
                &&& v.model() == spec_scalar_value(
                    column.ttype,
                    old(self).fixed@,
                    old(self).pos as int,
                    old(self).variable@,
                )
                &&& final(self).pos == old(self).pos + scalar_width(column.ttype)
            },
            r is Ok <==> spec_scalar_ok(
                column.ttype,
                old(self).fixed@,
                old(self).pos as int,
                old(self).variable@,
            ),
    {
        let (v, end) = read_scalar_at(self.fixed, self.pos, column.ttype, self.variable)?;
        self.pos = end;
        Ok(v)
    }

    /// Reads one array column at the cursor: a length and a heap offset,
    /// then that many elements of the column's type out of the heap.
    #[verifier::rlimit(50)]
    pub fn read_array(&mut self, column: &TableColumn) -> (r: Result<DatValue, Error>)
        ensures
            final(self).fixed == old(self).fixed,
            final(self).variable == old(self).variable,
            r matches Ok(v) ==> {
                &&& v.model() == spec_array_value(
                    column.ttype,
                    old(self).fixed@,
                    old(self).pos as int,
                    old(self).variable@,
                )
                &&& final(self).pos == old(self).pos + 16
            },
            r is Ok <==> spec_array_ok(
                column.ttype,
                old(self).fixed@,
                old(self).pos as int,
                old(self).variable@,
            ),
    {
        let len = self.fixed.len();
        if len < 16 || self.pos > len - 16 {
            return Err(Error::Format);
        }
        let n = read_u64_at(self.fixed, self.pos);
        let off = read_u64_at(self.fixed, self.pos + 8);
        let vlen = self.variable.len();
        let t = column.ttype;
        let width: usize = match t {
            ColumnType::Bool => 1,
            ColumnType::I16 => 2,
            ColumnType::U16 => 2,
            ColumnType::I32 => 4,
            ColumnType::U32 => 4,
            ColumnType::F32 => 4,
            ColumnType::EnumRow => 4,
            ColumnType::String => 8,
            ColumnType::Row => 8,
            ColumnType::ForeignRow => 16,
            ColumnType::Array => 16,
        };
        if off > vlen as u64 || n > ((vlen as u64) - off) / (width as u64) {
            proof {
                if off as int <= vlen as int {
                    lemma_fundamental_div_mod((vlen as int) - off as int, width as int);
                    assert((n as int) * (width as int) > (vlen as int) - off as int)
                        by (nonlinear_arith)
                        requires
                            1 <= width as int,
                            0 <= (vlen as int) - off as int,
                            (n as int) > ((vlen as int) - off as int) / (width as int),
                            (vlen as int) - off as int == (width as int) * (((vlen as int) - off
                                as int) / (width as int)) + ((vlen as int) - off as int) % (
                            width as int),
                            0 <= ((vlen as int) - off as int) % (width as int) < width as int,
                    ;
                } else {
                    assert((n as int) * (width as int) >= 0) by (nonlinear_arith)
                        requires
                            0 <= n as int,
                            1 <= width as int,
                    ;
                }
            }
            return Err(Error::Format);
        }
        proof {
            assert((n as int) * (width as int) <= (vlen as int) - off as int) by (nonlinear_arith)
                requires
                    0 <= n as int,
                    1 <= width as int,
                    off as int <= vlen as int,
                    n as int <= ((vlen as int) - off as int) / (width as int),
            ;
            assert(n as int <= vlen as int) by (nonlinear_arith)
                requires
                    0 <= n as int,
                    1 <= width as int,
                    0 <= off as int,
                    (n as int) * (width as int) <= (vlen as int) - off as int,
            ;
        }
        let mut arr: Vec<DatValue> = Vec::new();
        let mut i: usize = 0;
        let mut epos = off as usize;
        while i < n as usize
            invariant
                self.fixed == old(self).fixed,
                self.pos == old(self).pos,
                self.variable == old(self).variable,
                t == column.ttype,
                old(self).pos + 16 <= old(self).fixed@.len(),
                n == le64(old(self).fixed@, old(self).pos as int),
                off == le64(old(self).fixed@, old(self).pos as int + 8),
                vlen == self.variable@.len(),
                width == scalar_width(t),
                i <= n,
                n <= vlen as u64,
                off + n * width <= vlen,
                epos == off + i * width,
                arr@.len() == i,
                forall|j: int|
                    0 <= j < i ==> #[trigger] spec_scalar_ok(
                        t,
                        self.variable@,
                        off as int + j * scalar_width(t),
                        self.variable@,
                    ),
                forall|j: int|
                    0 <= j < i ==> (#[trigger] arr@[j]).leaf_model() == spec_scalar_value(
                        t,
                        self.variable@,
                        off as int + j * scalar_width(t),
                        self.variable@,
                    ),
            decreases n - i,
        {
            proof {
                assert((i as int + 1) * (width as int) <= (n as int) * (width as int)
                    && (i as int + 1) * (width as int) == (i as int) * (width as int) + width as int)
                    by (nonlinear_arith)
                    requires
                        0 <= i as int && (i as int) < n as int,
                        1 <= width as int,
                ;
            }
            let (v, end) = read_scalar_at(self.variable, epos, t, self.variable)?;
            arr.push(v);
            epos = end;
            i = i + 1;
        }
        proof {
            let d0 = old(self).fixed@;
            let p0 = old(self).pos as int;
            let var = old(self).variable@;
            let nn = le64(d0, p0) as int;
            let o0 = le64(d0, p0 + 8) as int;
            assert forall|ii: int| 0 <= ii < nn implies #[trigger] spec_scalar_ok(
                t,
                var,
                o0 + ii * scalar_width(t),
                var,
            ) by {
                assert(spec_scalar_ok(
                    t,
                    self.variable@,
                    off as int + ii * scalar_width(t),
                    self.variable@,
                ));
            }
            assert(spec_array_ok(column.ttype, d0, p0, var));
        }
        self.pos = self.pos + 16;
        let result = DatValue::Array(arr);
        proof {
            let m = result.model();
            let expected = spec_array_value(
                t,
                old(self).fixed@,
                old(self).pos as int,
                old(self).variable@,
            );
            assert(m->Array_0 =~= expected->Array_0);
            assert(m == expected);
        }
        Ok(result)
    }

    /// Reads every column of the schema in declared order, arrays through
    /// the heap and scalars at the cursor.
    #[verifier::rlimit(50)]
    pub fn read_with_schema(&mut self, columns: &Vec<TableColumn>) -> (r: Result<
        Vec<DatValue>,
        Error,
    >)
        ensures
            final(self).fixed == old(self).fixed,
            final(self).variable == old(self).variable,
            r matches Ok(vs) ==> {
                &&& vs@.len() == columns@.len()
                &&& forall|i: int|
                    0 <= i < columns@.len() ==> spec_col_ok(
                        #[trigger] columns@[i],
                        old(self).fixed@,
                        old(self).pos + cols_width(columns@, i),
                        old(self).variable@,
                    ) && vs@[i].model() == spec_col_value(
                        columns@[i],
                        old(self).fixed@,
                        old(self).pos + cols_width(columns@, i),
                        old(self).variable@,
                    )
                &&& final(self).pos == old(self).pos + cols_width(columns@, columns@.len() as int)
            },
            r is Ok <==> forall|i: int|
                0 <= i < columns@.len() ==> spec_col_ok(
                    #[trigger] columns@[i],
                    old(self).fixed@,
                    old(self).pos + cols_width(columns@, i),
                    old(self).variable@,
                ),
    {
        let n = columns.len();
        let mut values: Vec<DatValue> = Vec::new();
        let mut i: usize = 0;
        while i < n
            invariant
                n == columns@.len(),
                i <= n,
                values@.len() == i,
                self.fixed == old(self).fixed,
                self.variable == old(self).variable,
                self.pos == old(self).pos + cols_width(columns@, i as int),
                forall|j: int|
                    0 <= j < i ==> spec_col_ok(
                        #[trigger] columns@[j],
                        old(self).fixed@,
                        old(self).pos + cols_width(columns@, j),
                        old(self).variable@,
                    ) && values@[j].model() == spec_col_value(
                        columns@[j],
                        old(self).fixed@,
                        old(self).pos + cols_width(columns@, j),
                        old(self).variable@,
                    ),
            decreases n - i,
        {
            let column = &columns[i];
            proof {
                assert(cols_width(columns@, i as int + 1) == cols_width(columns@, i as int)
                    + col_width(columns@[i as int]));
            }
            let attempt = if column.array {
                self.read_array(column)
            } else {
                self.read_scalar(column)
            };
            let value = match attempt {
                Ok(v) => v,
                Err(e) => {
                    proof {
                        assert(!spec_col_ok(
                            columns@[i as int],
                            old(self).fixed@,
                            old(self).pos + cols_width(columns@, i as int),
                            old(self).variable@,
                        ));
                    }
                    return Err(e);
                },
            };
            values.push(value);
            i = i + 1;
        }
        Ok(values)
    }
}


/// Finds the first pair whose name equals `name`.
fn pair_find(m: &Vec<(String, DatValue)>, name: &String) -> (r: Option<usize>)
    ensures
        r matches Some(i) ==> i < m@.len() && m@[i as int].0@ == name@ && (forall|j: int|
            0 <= j < i ==> (#[trigger] m@[j]).0@ != name@),
        r is None ==> forall|j: int| 0 <= j < m@.len() ==> (#[trigger] m@[j]).0@ != name@,
{
    let n = m.len();
    let mut t: usize = 0;
    while t < n
        invariant
            n == m@.len(),
            t <= n,
            forall|j: int| 0 <= j < t ==> (#[trigger] m@[j]).0@ != name@,
        decreases n - t,
    {
        if m[t].0.eq(name) {
            return Some(t);
        }
        t = t + 1;
    }
    None
}

impl<'a> DatRow<'a> {
    /// Reads every column and pairs each value with its column's name, an
    /// unnamed column counting as `Unknown<k>` for its position among the
    /// unnamed; a later column of a name already used replaces the
    /// earlier value.
    pub fn read_to_map(&mut self, columns: &Vec<TableColumn>) -> (r: Result<
        Vec<(String, DatValue)>,
        Error,
    >)
        ensures
            final(self).fixed == old(self).fixed,
            final(self).variable == old(self).variable,
            r is Ok <==> forall|i: int|
                0 <= i < columns@.len() ==> spec_col_ok(
                    #[trigger] columns@[i],
                    old(self).fixed@,
                    old(self).pos + cols_width(columns@, i),
                    old(self).variable@,
                ),
            r matches Ok(m) ==> {
                &&& forall|a: int, b: int|
                    0 <= a < b < m@.len() ==> (#[trigger] m@[a]).0@ != (#[trigger] m@[b]).0@
                &&& forall|kk: Seq<char>|
                    #[trigger] pair_model(m@, kk) == spec_map_value(
                        columns@,
                        columns@.len() as int,
                        old(self).fixed@,
                        old(self).pos as int,
                        old(self).variable@,
                        kk,
                    )
            },
    {
        let ghost fixed0 = old(self).fixed@;
        let ghost pos0 = old(self).pos as int;
        let ghost var0 = old(self).variable@;
        let mut values = self.read_with_schema(columns)?;
        let ghost vals0 = values@;
        let n = columns.len();
        let mut m: Vec<(String, DatValue)> = Vec::new();
        let mut unknown: u64 = 0;
        let mut i: usize = 0;
        while i < n
            invariant
                n == columns@.len(),
                i <= n,
                vals0.len() == n,
                values@ == vals0.skip(i as int),
                unknown == unnamed_before(columns@, i as int),
                unknown <= i,
                forall|j: int|
                    0 <= j < n ==> (#[trigger] vals0[j]).model() == spec_col_value(
                        columns@[j],
                        fixed0,
                        pos0 + cols_width(columns@, j),
                        var0,
                    ),
                forall|a: int, b: int|
                    0 <= a < b < m@.len() ==> (#[trigger] m@[a]).0@ != (#[trigger] m@[b]).0@,
                forall|kk: Seq<char>|
                    #[trigger] pair_model(m@, kk) == spec_map_value(
                        columns@,
                        i as int,
                        fixed0,
                        pos0,
                        var0,
                        kk,
                    ),
            decreases n - i,
        {
            let v = values.remove(0);
            proof {
                assert(vals0.skip(i as int)[0] == vals0[i as int]);
                assert(vals0.skip(i as int).remove(0) =~= vals0.skip(i as int + 1));
            }
            let name: String = match &columns[i].name {
                Some(nm) => nm.clone(),
                None => {
                    let tail = crate::text::u64_to_string(unknown);
                    let s = String::from_str("Unknown").concat(tail.as_str());
                    unknown = unknown + 1;
                    s
                },
            };
            proof {
                assert(name@ == name_of_col(columns@, i as int));
                assert(unnamed_before(columns@, i as int + 1) == unknown);
            }
            let found = pair_find(&m, &name);
            let ghost pre = m@;
            match found {
                Some(ix) => {
                    proof {
                        lemma_pair_lookup_at(pre, name@, ix as int);
                    }
                    let _old = m.remove(ix);
                    m.insert(ix, (name, v));
                    proof {
                        assert(m@ =~= pre.update(ix as int, m@[ix as int]));
                        assert forall|a: int, b: int|
                            0 <= a < b < m@.len() implies (#[trigger] m@[a]).0@ != (
                        #[trigger] m@[b]).0@ by {
                            assert(m@[a].0@ == pre[a].0@);
                            assert(m@[b].0@ == pre[b].0@);
                            assert(pre[a].0@ != pre[b].0@);
                        }
                        assert forall|kk: Seq<char>| #[trigger] pair_model(m@, kk) == (if kk
                            == name@ {
                            Some(v.model())
                        } else {
                            pair_model(pre, kk)
                        }) by {
                            assert forall|j: int| 0 <= j < ix implies (#[trigger] pre[j]).0@
                                != pre[ix as int].0@ by {}
                            lemma_pair_lookup_replace(pre, m@, ix as int, kk);
                        }
                    }
                },
                None => {
                    m.push((name, v));
                    proof {
                        assert forall|a: int, b: int|
                            0 <= a < b < m@.len() implies (#[trigger] m@[a]).0@ != (
                        #[trigger] m@[b]).0@ by {
                            if b < m@.len() - 1 {
                                assert(pre[a].0@ != pre[b].0@);
                            }
                        }
                        assert forall|kk: Seq<char>| #[trigger] pair_model(m@, kk) == (if kk
                            == name@ {
                            Some(v.model())
                        } else {
                            pair_model(pre, kk)
                        }) by {
                            lemma_pair_lookup_push(pre, m@[pre.len() as int], kk);
                            if kk == name@ {
                                lemma_pair_lookup_none(pre, kk);
                            }
                        }
                    }
                },
            }
            i = i + 1;
        }
        Ok(m)
    }
}

impl DatFile {
    /// Decodes every row under the schema's columns, in row order.
    pub fn iter_rows_vec(&self, columns: &Vec<TableColumn>) -> (r: Result<
        Vec<Vec<DatValue>>,
        Error,
    >)
        requires
            self.wf(),
        ensures
            r matches Ok(rows) ==> rows@.len() == self.row_count,
    {
        let mut rows: Vec<Vec<DatValue>> = Vec::new();
        let mut n: usize = 0;
        while n < self.row_count as usize
            invariant
                self.wf(),
                n <= self.row_count,
                rows@.len() == n,
            decreases self.row_count - n,
        {
            let mut row = self.nth_row(n);
            let values = row.read_with_schema(columns)?;
            rows.push(values);
            n = n + 1;
        }
        Ok(rows)
    }

    /// Decodes every row under the schema's columns into named maps, in
    /// row order.
    pub fn iter_rows_map(&self, columns: &Vec<TableColumn>) -> (r: Result<
        Vec<Vec<(String, DatValue)>>,
        Error,
    >)
        requires
            self.wf(),
        ensures
            r matches Ok(rows) ==> rows@.len() == self.row_count,
    {
        let mut rows: Vec<Vec<(String, DatValue)>> = Vec::new();
        let mut n: usize = 0;
        while n < self.row_count as usize
            invariant
                self.wf(),
                n <= self.row_count,
                rows@.len() == n,
            decreases self.row_count - n,
        {
            let mut row = self.nth_row(n);
            let pairs = row.read_to_map(columns)?;
            rows.push(pairs);
            n = n + 1;
        }
        Ok(rows)
    }
}


impl DatFile {
    /// A structurally fresh copy of the table.
    pub fn clone_file(&self) -> (r: DatFile)
        ensures
            r.data@ == self.data@,
            r.row_count == self.row_count,
            r.boundary == self.boundary,
            r.row_length == self.row_length,
            self.wf() ==> r.wf(),
    {
        let data = crate::bytes::copy_range(self.data.as_slice(), 0, self.data.len());
        proof {
            assert(data@ =~= self.data@);
        }
        DatFile {
            data,
            row_count: self.row_count,
            boundary: self.boundary,
            row_length: self.row_length,
        }
    }
}

} // verus!
