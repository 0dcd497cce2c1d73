//! The translation descriptor format: a line-oriented state machine that
//! registers statistic-formatting rows per language under single or
//! multiple statistic ids.
use vstd::prelude::*;
use vstd::string::{StrSliceExecFns, StringExecFns};

use crate::Error;

verus! {

broadcast use vstd::std_specs::vec::group_vec_axioms, vstd::seq::group_seq_axioms;

/// The key a description block registers under: one statistic id or an
/// ordered tuple of them.
#[derive(Debug)]
pub enum StatKey {
    Single(String),
    Multiple(Vec<String>),
}

/// The abstract value of a key.
pub enum StatKeyModel {
    One(Seq<char>),
    Many(Seq<Seq<char>>),
}

impl StatKey {
    /// The key's abstract value.
    pub open spec fn model(self) -> StatKeyModel {
        match self {
            StatKey::Single(s) => StatKeyModel::One(s@),
            StatKey::Multiple(v) => StatKeyModel::Many(v.deep_view()),
        }
    }

    /// A fresh copy with the same abstract value.
    fn clone_key(&self) -> (r: StatKey)
        ensures
            r.model() == self.model(),
    {
        match self {
            StatKey::Single(s) => StatKey::Single(s.clone()),
            StatKey::Multiple(v) => {
                let n = v.len();
                let mut out: Vec<String> = Vec::new();
                let mut i: usize = 0;
                while i < n
                    invariant
                        n == v@.len(),
                        i <= n,
                        out@.len() == i,
                        forall|j: int| 0 <= j < i ==> (#[trigger] out@[j])@ == v@[j]@,
                    decreases n - i,
                {
                    out.push(v[i].clone());
                    i = i + 1;
                }
                proof {
                    assert(out.deep_view() =~= v.deep_view());
                }
                StatKey::Multiple(out)
            },
        }
    }
}

/// Whether two keys have the same abstract value.
fn key_eq(a: &StatKey, b: &StatKey) -> (r: bool)
    ensures
        r == (a.model() == b.model()),
{
    match (a, b) {
        (StatKey::Single(x), StatKey::Single(y)) => x.eq(y),
        (StatKey::Multiple(x), StatKey::Multiple(y)) => {
            let n = x.len();
            if n != y.len() {
                proof {
                    assert(x.deep_view().len() == x@.len());
                    assert(y.deep_view().len() == y@.len());
                }
                return false;
            }
            let mut i: usize = 0;
            while i < n
                invariant
                    n == x@.len(),
                    n == y@.len(),
                    i <= n,
                    a is Multiple,
                    b is Multiple,
                    a->Multiple_0 == *x,
                    b->Multiple_0 == *y,
                    forall|j: int| 0 <= j < i ==> (#[trigger] x@[j])@ == y@[j]@,
                decreases n - i,
            {
                if !x[i].eq(&y[i]) {
                    proof {
                        assert(x.deep_view().len() == n && y.deep_view().len() == n);
                        assert(x.deep_view()[i as int] != y.deep_view()[i as int]);
                        assert(a.model() == StatKeyModel::Many(x.deep_view()));
                        assert(b.model() == StatKeyModel::Many(y.deep_view()));
                        if a.model() == b.model() {
                            assert(x.deep_view() == y.deep_view());
                            assert(false);
                        }
                    }
                    return false;
                }
                i = i + 1;
            }
            proof {
                assert(x.deep_view() =~= y.deep_view());
            }
            true
        },
        _ => false,
    }
}

/// One formatting rule: its range condition, format string and
/// quantifier modifiers, as written.
#[derive(Debug)]
pub struct TranslationRow {
    pub condition: String,
    pub format_string: String,
    pub modifiers: String,
}

/// The rows registered for one key.
pub struct KeyRows {
    pub key: StatKey,
    pub rows: Vec<TranslationRow>,
}

/// The blocks registered for one language.
pub struct LangBlock {
    pub lang: String,
    pub keys: Vec<KeyRows>,
}

/// Language names are distinct and the keys within one language are
/// distinct.
pub open spec fn translation_wf(out: Seq<LangBlock>) -> bool {
    &&& forall|i: int, j: int|
        0 <= i < j < out.len() ==> (#[trigger] out[i]).lang@ != (#[trigger] out[j]).lang@
    &&& forall|i: int|
        0 <= i < out.len() ==> forall|a: int, b: int|
            0 <= a < b < (#[trigger] out[i]).keys.len() ==> (#[trigger] out[i].keys[a]).key.model()
                != (#[trigger] out[i].keys[b]).key.model()
}


/// Whether `c` is whitespace, at spec level.
pub open spec fn t_is_ws(c: char) -> bool {
    c == ' ' || c == '\t' || c == '\r' || c == '\n'
}

/// Whether `c` may appear in an identifier or quantifier word, at spec
/// level: a word character, a percent sign, or anything beyond ASCII.
pub open spec fn t_is_word(c: char) -> bool {
    ('a' <= c && c <= 'z') || ('A' <= c && c <= 'Z') || ('0' <= c && c <= '9') || c == '_' || c
        == '%' || (c as u32) >= 0x80
}

/// Whether `c` may appear in a row's range condition, at spec level.
pub open spec fn t_is_cond(c: char) -> bool {
    ('0' <= c && c <= '9') || c == '-' || c == '|' || c == '#' || c == '!'
}

/// The position after the run of whitespace at `i`, not passing `b`.
pub open spec fn t_ws_end(s: Seq<char>, i: int, b: int) -> int
    decreases b - i,
{
    if 0 <= i < b && i < s.len() && t_is_ws(s[i]) {
        t_ws_end(s, i + 1, b)
    } else {
        i
    }
}

/// The position after the run of decimal digits at `i`, not passing `b`.
pub open spec fn t_digit_end(s: Seq<char>, i: int, b: int) -> int
    decreases b - i,
{
    if 0 <= i < b && i < s.len() && '0' <= s[i] && s[i] <= '9' {
        t_digit_end(s, i + 1, b)
    } else {
        i
    }
}

/// The position after the run of non-whitespace at `i`, not passing `b`.
pub open spec fn t_nonws_end(s: Seq<char>, i: int, b: int) -> int
    decreases b - i,
{
    if 0 <= i < b && i < s.len() && !t_is_ws(s[i]) {
        t_nonws_end(s, i + 1, b)
    } else {
        i
    }
}

/// The position after the run of condition characters at `i`, not
/// passing `b`.
pub open spec fn t_cond_end(s: Seq<char>, i: int, b: int) -> int
    decreases b - i,
{
    if 0 <= i < b && i < s.len() && t_is_cond(s[i]) {
        t_cond_end(s, i + 1, b)
    } else {
        i
    }
}

/// The position of the next quote at or after `i`, or `b`.
pub open spec fn t_quote_end(s: Seq<char>, i: int, b: int) -> int
    decreases b - i,
{
    if 0 <= i < b && i < s.len() && s[i] != '"' {
        t_quote_end(s, i + 1, b)
    } else {
        i
    }
}

/// The position of the next newline at or after `i`, or the end.
pub open spec fn t_line_end(s: Seq<char>, i: int) -> int
    decreases s.len() - i,
{
    if 0 <= i < s.len() && s[i] != '\n' {
        t_line_end(s, i + 1)
    } else {
        i
    }
}

/// Every bounded scanner lands at or after its start, within its bound.
proof fn lemma_t_scan_bounds(s: Seq<char>, i: int, b: int)
    requires
        0 <= i <= b,
    ensures
        i <= t_ws_end(s, i, b) <= b,
        i <= t_digit_end(s, i, b) <= b,
        i <= t_nonws_end(s, i, b) <= b,
        i <= t_cond_end(s, i, b) <= b,
        i <= t_quote_end(s, i, b) <= b,
    decreases b - i,
{
    if i < b {
        lemma_t_scan_bounds(s, i + 1, b);
    }
}

/// A blank line: whitespace only.
pub open spec fn t_blank_line(s: Seq<char>, a: int, b: int) -> bool {
    forall|j: int| a <= j < b ==> t_is_ws(#[trigger] s[j])
}


/// Whether the literal's characters sit at `i`, inside the bound `b`.
pub open spec fn t_lit_at(s: Seq<char>, i: int, b: int, lit: Seq<char>) -> bool {
    0 <= i && i + lit.len() <= b && b <= s.len() && s.subrange(i, i + lit.len()) == lit
}

/// A description line: the word `description` at the line start, then an
/// optional identifier, then nothing.
pub open spec fn t_desc_line(s: Seq<char>, a: int, b: int) -> bool {
    let d = "description"@;
    &&& t_lit_at(s, a, b, d)
    &&& {
        let p = t_ws_end(s, a + d.len(), b);
        let p2 = t_nonws_end(s, p, b);
        t_ws_end(s, p2, b) == b
    }
}

/// A statistics line: optional whitespace, a count, then one space.
pub open spec fn t_stats_line(s: Seq<char>, a: int, b: int) -> bool {
    let p = t_ws_end(s, a, b);
    let d = t_digit_end(s, p, b);
    &&& d != p
    &&& d < b
    &&& s[d] == ' '
}

/// A language line: `lang "<name>"` with a non-empty name, then nothing.
pub open spec fn t_lang_line(s: Seq<char>, a: int, b: int) -> bool {
    let lt = "lang \""@;
    let p = t_ws_end(s, a, b);
    &&& t_lit_at(s, p, b, lt)
    &&& {
        let ns = p + lt.len();
        let q = t_quote_end(s, ns, b);
        &&& q < b
        &&& q != ns
        &&& t_ws_end(s, q + 1, b) == b
    }
}

/// The digit scan of a count line: consumes digits while the value stays
/// under the cap, returning the stop position and the value.
pub open spec fn t_count_scan(s: Seq<char>, p: int, b: int, n: u32) -> (int, u32)
    decreases b - p,
{
    if 0 <= p < b && p < s.len() && '0' <= s[p] && s[p] <= '9' && n < 100000000 {
        t_count_scan(s, p + 1, b, ((n * 10 + (s[p] as u32 - '0' as u32)) as u32))
    } else {
        (p, n)
    }
}

/// A row-count line: digits alone, and the count they spell.
pub open spec fn t_count_line(s: Seq<char>, a: int, b: int) -> Option<u32> {
    let p = t_ws_end(s, a, b);
    let scan = t_count_scan(s, p, b, 0);
    if scan.0 == p {
        None
    } else if t_ws_end(s, scan.0, b) == b {
        Some(scan.1)
    } else {
        None
    }
}


/// The position after the run of spaces and tabs at `i`, not passing
/// `b`.
pub open spec fn t_blank2_end(s: Seq<char>, i: int, b: int) -> int
    decreases b - i,
{
    if 0 <= i < b && i < s.len() && (s[i] == ' ' || s[i] == '\t') {
        t_blank2_end(s, i + 1, b)
    } else {
        i
    }
}

/// The blank2 scanner lands at or after its start, within its bound.
proof fn lemma_t_blank2_bounds(s: Seq<char>, i: int, b: int)
    requires
        0 <= i <= b,
    ensures
        i <= t_blank2_end(s, i, b) <= b,
    decreases b - i,
{
    if i < b {
        lemma_t_blank2_bounds(s, i + 1, b);
    }
}

/// The condition groups at `p`: one or more runs of condition characters
/// each followed by at least one space or tab. Yields the position after
/// the groups and their number, or nothing when a run is not followed by
/// a blank.
pub open spec fn t_groups(s: Seq<char>, p: int, b: int) -> Option<(int, int)>
    decreases b - p, 0int,
    via t_groups_decreases
{
    if p < 0 || p > b {
        None
    } else {
        let t = t_cond_end(s, p, b);
        if t == p {
            Some((p, 0))
        } else {
            let bl = t_blank2_end(s, t, b);
            if bl == t {
                None
            } else {
                match t_groups(s, bl, b) {
                    None => None,
                    Some(r) => Some((r.0, r.1 + 1)),
                }
            }
        }
    }
}

#[via_fn]
proof fn t_groups_decreases(s: Seq<char>, p: int, b: int) {
    if 0 <= p <= b {
        lemma_t_scan_bounds(s, p, b);
        let t = t_cond_end(s, p, b);
        if t != p {
            lemma_t_blank2_bounds(s, t, b);
        }
    }
}

/// The position of the last quote in `[q, b)`, or `cur` when none
/// remains.
pub open spec fn t_last_quote(s: Seq<char>, q: int, b: int, cur: int) -> int
    decreases b - q,
{
    if 0 <= q < b && q < s.len() {
        if s[q] == '"' {
            t_last_quote(s, q + 1, b, q)
        } else {
            t_last_quote(s, q + 1, b, cur)
        }
    } else {
        cur
    }
}

/// The end of the quantifier region: `m` walked back over spaces and
/// tabs, not below `floor`.
pub open spec fn t_mods_end(s: Seq<char>, floor: int, m: int) -> int
    decreases m,
{
    if m > floor && 0 < m <= s.len() && (s[m - 1] == ' ' || s[m - 1] == '\t') {
        t_mods_end(s, floor, m - 1)
    } else {
        m
    }
}

/// A row line: condition groups, a quoted format string whose closing
/// quote is the line's last, then quantifier words.
pub open spec fn t_row_line(s: Seq<char>, a: int, b: int) -> bool {
    let p = t_ws_end(s, a, b);
    match t_groups(s, p, b) {
        None => false,
        Some(eg) => {
            &&& eg.1 > 0
            &&& eg.0 < b
            &&& s[eg.0] == '"'
            &&& {
                let lq = t_last_quote(s, eg.0 + 1, b, eg.0);
                &&& lq >= eg.0 + 1
                &&& {
                    let me = t_mods_end(s, lq + 1, b);
                    forall|j: int|
                        lq + 1 <= j < me ==> (s[j] == ' ' || s[j] == '\t' || t_is_word(
                            #[trigger] s[j],
                        ))
                }
            }
        },
    }
}

/// Scans the condition groups at `start`: their end and number, or
/// nothing when a run is not followed by a blank.
fn scan_cond_groups(cs: &Vec<char>, start: usize, to: usize) -> (r: Option<(usize, usize)>)
    requires
        start <= to <= cs@.len(),
    ensures
        r matches Some(eg) ==> t_groups(cs@, start as int, to as int) == Some(
            (eg.0 as int, eg.1 as int),
        ) && start <= eg.0 <= to,
        r is None <==> t_groups(cs@, start as int, to as int) is None,
{
    let mut p = start;
    let mut groups: usize = 0;
    loop
        invariant
            start <= p <= to,
            groups <= p,
            to <= cs@.len(),
            t_groups(cs@, start as int, to as int) == match t_groups(cs@, p as int, to as int) {
                None => None::<(int, int)>,
                Some(r0) => Some((r0.0, r0.1 + groups as int)),
            },
        decreases to - p + 1,
    {
        let t_start = p;
        while p < to && is_cond_char(cs[p])
            invariant
                t_start <= p <= to,
                to <= cs@.len(),
                t_cond_end(cs@, t_start as int, to as int) == t_cond_end(
                    cs@,
                    p as int,
                    to as int,
                ),
            decreases to - p,
        {
            p = p + 1;
        }
        if p == t_start {
            proof {
                assert(t_groups(cs@, p as int, to as int) == Some((p as int, 0int)));
            }
            return Some((p, groups));
        }
        let b_start = p;
        while p < to && (cs[p] == ' ' || cs[p] == '\t')
            invariant
                b_start <= p <= to,
                to <= cs@.len(),
                t_blank2_end(cs@, b_start as int, to as int) == t_blank2_end(
                    cs@,
                    p as int,
                    to as int,
                ),
            decreases to - p,
        {
            p = p + 1;
        }
        if p == b_start {
            proof {
                assert(t_groups(cs@, t_start as int, to as int) is None);
            }
            return None;
        }
        groups = groups + 1;
    }
}


/// The line scanner lands at or after its start, inside the text.
proof fn lemma_t_line_end_bounds(s: Seq<char>, i: int)
    requires
        0 <= i <= s.len(),
    ensures
        i <= t_line_end(s, i) <= s.len(),
    decreases s.len() - i,
{
    if i < s.len() && s[i] != '\n' {
        lemma_t_line_end_bounds(s, i + 1);
    }
}

/// Whether the state machine accepts the text from `pos` on, in the
/// given state with the given remaining row count: blank lines are
/// skipped; a description line is awaited, then a statistics line is
/// demanded; language, count and description lines steer the block, a
/// zero count closing it at once; and a positive count demands that many
/// row lines.
pub open spec fn t_accept(s: Seq<char>, pos: int, state: int, rc: u32) -> bool
    decreases s.len() - pos,
    via t_accept_decreases
{
    if pos < 0 {
        false
    } else if pos >= s.len() {
        true
    } else {
        let le = t_line_end(s, pos);
        let next = if le < s.len() {
            le + 1
        } else {
            le
        };
        let eol = if le > pos && s[le - 1] == '\r' {
            le - 1
        } else {
            le
        };
        if t_blank_line(s, pos, eol) {
            t_accept(s, next, state, rc)
        } else if state == 0 {
            if t_desc_line(s, pos, eol) {
                t_accept(s, next, 1, rc)
            } else {
                t_accept(s, next, 0, rc)
            }
        } else if state == 1 {
            if t_stats_line(s, pos, eol) {
                t_accept(s, next, 2, rc)
            } else {
                false
            }
        } else if state == 2 {
            if t_lang_line(s, pos, eol) {
                t_accept(s, next, 3, rc)
            } else {
                match t_count_line(s, pos, eol) {
                    Some(n) => if n == 0 {
                        t_accept(s, next, 2, n)
                    } else {
                        t_accept(s, next, 4, n)
                    },
                    None => if t_desc_line(s, pos, eol) {
                        t_accept(s, next, 1, rc)
                    } else {
                        t_accept(s, next, 2, rc)
                    },
                }
            }
        } else if state == 3 {
            match t_count_line(s, pos, eol) {
                Some(n) => if n == 0 {
                    t_accept(s, next, 2, n)
                } else {
                    t_accept(s, next, 4, n)
                },
                None => false,
            }
        } else {
            if t_row_line(s, pos, eol) {
                let rc2: u32 = if rc > 0 {
                    (rc - 1) as u32
                } else {
                    0
                };
                if rc2 == 0 {
                    t_accept(s, next, 2, rc2)
                } else {
                    t_accept(s, next, 4, rc2)
                }
            } else {
                false
            }
        }
    }
}

#[via_fn]
proof fn t_accept_decreases(s: Seq<char>, pos: int, state: int, rc: u32) {
    if 0 <= pos < s.len() {
        lemma_t_line_end_bounds(s, pos);
    }
}


/// The first block of the given language, or `-1`.
pub open spec fn lb_index(out: Seq<LangBlock>, lang: Seq<char>) -> int
    decreases out.len(),
{
    if out.len() == 0 {
        -1
    } else if out[0].lang@ == lang {
        0
    } else {
        let r = lb_index(out.drop_first(), lang);
        if r < 0 {
            -1
        } else {
            r + 1
        }
    }
}

/// The first key row list of the given key, or `-1`.
pub open spec fn kr_index(keys: Seq<KeyRows>, k: StatKeyModel) -> int
    decreases keys.len(),
{
    if keys.len() == 0 {
        -1
    } else if keys[0].key.model() == k {
        0
    } else {
        let r = kr_index(keys.drop_first(), k);
        if r < 0 {
            -1
        } else {
            r + 1
        }
    }
}

/// The abstract value of a row list: each row's condition, format string
/// and modifiers.
pub open spec fn rows_model(rows: Seq<TranslationRow>) -> Seq<(Seq<char>, Seq<char>, Seq<char>)> {
    rows.map_values(|r: TranslationRow| (r.condition@, r.format_string@, r.modifiers@))
}

/// The rows registered under a language and key.
pub open spec fn registered(out: Seq<LangBlock>, lang: Seq<char>, k: StatKeyModel) -> Seq<
    (Seq<char>, Seq<char>, Seq<char>),
> {
    let i = lb_index(out, lang);
    if i < 0 {
        Seq::empty()
    } else {
        let j = kr_index(out[i].keys@, k);
        if j < 0 {
            Seq::empty()
        } else {
            rows_model(out[i].keys@[j].rows@)
        }
    }
}

/// A found block index is in range and bears the language.
proof fn lemma_lb_index_valid(out: Seq<LangBlock>, lang: Seq<char>)
    requires
        lb_index(out, lang) >= 0,
    ensures
        lb_index(out, lang) < out.len(),
        out[lb_index(out, lang)].lang@ == lang,
    decreases out.len(),
{
    if out.len() > 0 && out[0].lang@ != lang {
        lemma_lb_index_valid(out.drop_first(), lang);
    }
}

/// With no match among the first `i` blocks and a match at `i`, the
/// index is `i`.
proof fn lemma_lb_index_at(out: Seq<LangBlock>, lang: Seq<char>, i: int)
    requires
        0 <= i < out.len(),
        out[i].lang@ == lang,
        forall|j: int| 0 <= j < i ==> (#[trigger] out[j]).lang@ != lang,
    ensures
        lb_index(out, lang) == i,
    decreases i,
{
    if i > 0 {
        lemma_lb_index_at(out.drop_first(), lang, i - 1);
    }
}

/// With no match anywhere, there is no index.
proof fn lemma_lb_index_none(out: Seq<LangBlock>, lang: Seq<char>)
    requires
        forall|j: int| 0 <= j < out.len() ==> (#[trigger] out[j]).lang@ != lang,
    ensures
        lb_index(out, lang) == -1,
    decreases out.len(),
{
    if out.len() > 0 {
        lemma_lb_index_none(out.drop_first(), lang);
    }
}

/// Appending a block changes only the index of its own language, and
/// only when that language had none.
proof fn lemma_lb_index_push(out: Seq<LangBlock>, b: LangBlock, lang: Seq<char>)
    ensures
        lb_index(out.push(b), lang) == if lb_index(out, lang) >= 0 {
            lb_index(out, lang)
        } else if b.lang@ == lang {
            out.len() as int
        } else {
            -1
        },
    decreases out.len(),
{
    if out.len() == 0 {
        assert(out.push(b)[0] == b);
        assert(out.push(b).drop_first() =~= Seq::<LangBlock>::empty());
        assert(lb_index(out, lang) == -1);
        assert(lb_index(Seq::<LangBlock>::empty(), lang) == -1);
    } else {
        assert(out.push(b)[0] == out[0]);
        assert(out.push(b).drop_first() =~= out.drop_first().push(b));
        lemma_lb_index_push(out.drop_first(), b, lang);
        if out[0].lang@ == lang {
            assert(lb_index(out.push(b), lang) == 0);
            assert(lb_index(out, lang) == 0);
        } else {
            assert(lb_index(out.push(b), lang) == {
                let r = lb_index(out.drop_first().push(b), lang);
                if r < 0 {
                    -1int
                } else {
                    r + 1
                }
            });
            assert(lb_index(out, lang) == {
                let r = lb_index(out.drop_first(), lang);
                if r < 0 {
                    -1int
                } else {
                    r + 1
                }
            });
        }
    }
}

/// Block lists with pointwise equal languages index alike.
proof fn lemma_lb_index_congruent(a: Seq<LangBlock>, b: Seq<LangBlock>, lang: Seq<char>)
    requires
        a.len() == b.len(),
        forall|j: int| 0 <= j < a.len() ==> (#[trigger] a[j]).lang@ == b[j].lang@,
    ensures
        lb_index(a, lang) == lb_index(b, lang),
    decreases a.len(),
{
    if a.len() > 0 {
        assert(a[0].lang@ == b[0].lang@);
        assert forall|j: int| 0 <= j < a.drop_first().len() implies (
        #[trigger] a.drop_first()[j]).lang@ == b.drop_first()[j].lang@ by {
            assert(a[j + 1].lang@ == b[j + 1].lang@);
        }
        lemma_lb_index_congruent(a.drop_first(), b.drop_first(), lang);
    }
}

/// A found key index is in range and bears the key.
proof fn lemma_kr_index_valid(keys: Seq<KeyRows>, k: StatKeyModel)
    requires
        kr_index(keys, k) >= 0,
    ensures
        kr_index(keys, k) < keys.len(),
        keys[kr_index(keys, k)].key.model() == k,
    decreases keys.len(),
{
    if keys.len() > 0 && keys[0].key.model() != k {
        lemma_kr_index_valid(keys.drop_first(), k);
    }
}

/// With no match among the first `i` key lists and a match at `i`, the
/// index is `i`.
proof fn lemma_kr_index_at(keys: Seq<KeyRows>, k: StatKeyModel, i: int)
    requires
        0 <= i < keys.len(),
        keys[i].key.model() == k,
        forall|j: int| 0 <= j < i ==> (#[trigger] keys[j]).key.model() != k,
    ensures
        kr_index(keys, k) == i,
    decreases i,
{
    if i > 0 {
        lemma_kr_index_at(keys.drop_first(), k, i - 1);
    }
}

/// With no match anywhere, there is no key index.
proof fn lemma_kr_index_none(keys: Seq<KeyRows>, k: StatKeyModel)
    requires
        forall|j: int| 0 <= j < keys.len() ==> (#[trigger] keys[j]).key.model() != k,
    ensures
        kr_index(keys, k) == -1,
    decreases keys.len(),
{
    if keys.len() > 0 {
        lemma_kr_index_none(keys.drop_first(), k);
    }
}

/// Appending a key list changes only the index of its own key, and only
/// when that key had none.
proof fn lemma_kr_index_push(keys: Seq<KeyRows>, kr: KeyRows, k: StatKeyModel)
    ensures
        kr_index(keys.push(kr), k) == if kr_index(keys, k) >= 0 {
            kr_index(keys, k)
        } else if kr.key.model() == k {
            keys.len() as int
        } else {
            -1
        },
    decreases keys.len(),
{
    if keys.len() == 0 {
        assert(keys.push(kr)[0] == kr);
        assert(keys.push(kr).drop_first() =~= Seq::<KeyRows>::empty());
        assert(kr_index(keys, k) == -1);
        assert(kr_index(Seq::<KeyRows>::empty(), k) == -1);
    } else {
        assert(keys.push(kr)[0] == keys[0]);
        assert(keys.push(kr).drop_first() =~= keys.drop_first().push(kr));
        lemma_kr_index_push(keys.drop_first(), kr, k);
        if keys[0].key.model() == k {
            assert(kr_index(keys.push(kr), k) == 0);
            assert(kr_index(keys, k) == 0);
        } else {
            assert(kr_index(keys.push(kr), k) == {
                let r = kr_index(keys.drop_first().push(kr), k);
                if r < 0 {
                    -1int
                } else {
                    r + 1
                }
            });
            assert(kr_index(keys, k) == {
                let r = kr_index(keys.drop_first(), k);
                if r < 0 {
                    -1int
                } else {
                    r + 1
                }
            });
        }
    }
}

/// Key lists with pointwise equal keys index alike.
proof fn lemma_kr_index_congruent(a: Seq<KeyRows>, b: Seq<KeyRows>, k: StatKeyModel)
    requires
        a.len() == b.len(),
        forall|j: int| 0 <= j < a.len() ==> (#[trigger] a[j]).key.model() == b[j].key.model(),
    ensures
        kr_index(a, k) == kr_index(b, k),
    decreases a.len(),
{
    if a.len() > 0 {
        assert(a[0].key.model() == b[0].key.model());
        assert forall|j: int| 0 <= j < a.drop_first().len() implies (
        #[trigger] a.drop_first()[j]).key.model() == b.drop_first()[j].key.model() by {
            assert(a[j + 1].key.model() == b[j + 1].key.model());
        }
        lemma_kr_index_congruent(a.drop_first(), b.drop_first(), k);
    }
}


/// The position of the next space at or after `i`, or `b`.
pub open spec fn t_space_end(s: Seq<char>, i: int, b: int) -> int
    decreases b - i,
{
    if 0 <= i < b && i < s.len() && s[i] != ' ' {
        t_space_end(s, i + 1, b)
    } else {
        i
    }
}

/// The space scanner lands at or after its start, within its bound.
proof fn lemma_t_space_bounds(s: Seq<char>, i: int, b: int)
    requires
        0 <= i <= b,
    ensures
        i <= t_space_end(s, i, b) <= b,
    decreases b - i,
{
    if i < b {
        lemma_t_space_bounds(s, i + 1, b);
    }
}

/// The segments of `[a, b)` split on every single space.
pub open spec fn t_split(s: Seq<char>, a: int, b: int) -> Seq<Seq<char>>
    decreases b - a,
    via t_split_decreases
{
    if a < 0 || a > b || b > s.len() {
        Seq::empty()
    } else {
        let sp = t_space_end(s, a, b);
        if sp >= b {
            seq![s.subrange(a, b)]
        } else {
            seq![s.subrange(a, sp)] + t_split(s, sp + 1, b)
        }
    }
}

#[via_fn]
proof fn t_split_decreases(s: Seq<char>, a: int, b: int) {
    if 0 <= a <= b <= s.len() {
        lemma_t_space_bounds(s, a, b);
    }
}

/// The key a statistics line declares: its ids split on spaces, one id
/// giving a single key, several the ordered tuple.
pub open spec fn t_stats_key(s: Seq<char>, a: int, b: int) -> StatKeyModel {
    let p = t_ws_end(s, a, b);
    let d = t_digit_end(s, p, b);
    let ids = t_split(s, d + 1, b);
    if ids.len() == 1 {
        StatKeyModel::One(ids[0])
    } else {
        StatKeyModel::Many(ids)
    }
}

/// The name a language line declares.
pub open spec fn t_lang_name(s: Seq<char>, a: int, b: int) -> Seq<char> {
    let lt = "lang \""@;
    let p = t_ws_end(s, a, b);
    let ns = p + lt.len();
    s.subrange(ns, t_quote_end(s, ns, b))
}

/// The condition, format string and modifiers a row line carries.
pub open spec fn t_row_model(s: Seq<char>, a: int, b: int) -> (Seq<char>, Seq<char>, Seq<char>) {
    let p = t_ws_end(s, a, b);
    match t_groups(s, p, b) {
        None => (Seq::empty(), Seq::empty(), Seq::empty()),
        Some(eg) => {
            let lq = t_last_quote(s, eg.0 + 1, b, eg.0);
            let me = t_mods_end(s, lq + 1, b);
            (s.subrange(p, eg.0), s.subrange(eg.0 + 1, lq), s.subrange(lq + 1, me))
        },
    }
}


/// The rows the machine appends under language `l` and key `kk` from
/// `pos` on, in file order, starting in the given state with the given
/// remaining row count, current language and current key. Each accepted
/// row line in the row state contributes its condition, format string
/// and modifiers under the then-current language and key; a statistics
/// line resets the language to English and fixes the key; a language
/// line renames the language.
pub open spec fn t_rows(
    s: Seq<char>,
    pos: int,
    state: int,
    rc: u32,
    lang: Seq<char>,
    key: StatKeyModel,
    l: Seq<char>,
    kk: StatKeyModel,
) -> Seq<(Seq<char>, Seq<char>, Seq<char>)>
    decreases s.len() - pos,
    via t_rows_decreases
{
    if pos < 0 || pos >= s.len() {
        Seq::empty()
    } else {
        let le = t_line_end(s, pos);
        let next = if le < s.len() {
            le + 1
        } else {
            le
        };
        let eol = if le > pos && s[le - 1] == '\r' {
            le - 1
        } else {
            le
        };
        if t_blank_line(s, pos, eol) {
            t_rows(s, next, state, rc, lang, key, l, kk)
        } else if state == 0 {
            if t_desc_line(s, pos, eol) {
                t_rows(s, next, 1, rc, lang, key, l, kk)
            } else {
                t_rows(s, next, 0, rc, lang, key, l, kk)
            }
        } else if state == 1 {
            if t_stats_line(s, pos, eol) {
                t_rows(s, next, 2, rc, "English"@, t_stats_key(s, pos, eol), l, kk)
            } else {
                Seq::empty()
            }
        } else if state == 2 {
            if t_lang_line(s, pos, eol) {
                t_rows(s, next, 3, rc, t_lang_name(s, pos, eol), key, l, kk)
            } else {
                match t_count_line(s, pos, eol) {
                    Some(n) => if n == 0 {
                        t_rows(s, next, 2, n, lang, key, l, kk)
                    } else {
                        t_rows(s, next, 4, n, lang, key, l, kk)
                    },
                    None => if t_desc_line(s, pos, eol) {
                        t_rows(s, next, 1, rc, lang, key, l, kk)
                    } else {
                        t_rows(s, next, 2, rc, lang, key, l, kk)
                    },
                }
            }
        } else if state == 3 {
            match t_count_line(s, pos, eol) {
                Some(n) => if n == 0 {
                    t_rows(s, next, 2, n, lang, key, l, kk)
                } else {
                    t_rows(s, next, 4, n, lang, key, l, kk)
                },
                None => Seq::empty(),
            }
        } else {
            if t_row_line(s, pos, eol) {
                let this: Seq<(Seq<char>, Seq<char>, Seq<char>)> = if l == lang && kk == key {
                    seq![t_row_model(s, pos, eol)]
                } else {
                    Seq::empty()
                };
                let rc2: u32 = if rc > 0 {
                    (rc - 1) as u32
                } else {
                    0
                };
                if rc2 == 0 {
                    this + t_rows(s, next, 2, rc2, lang, key, l, kk)
                } else {
                    this + t_rows(s, next, 4, rc2, lang, key, l, kk)
                }
            } else {
                Seq::empty()
            }
        }
    }
}

#[via_fn]
proof fn t_rows_decreases(
    s: Seq<char>,
    pos: int,
    state: int,
    rc: u32,
    lang: Seq<char>,
    key: StatKeyModel,
    l: Seq<char>,
    kk: StatKeyModel,
) {
    if 0 <= pos < s.len() {
        lemma_t_line_end_bounds(s, pos);
    }
}

/// A translation file, its byte-order mark stripped.
pub struct TranslationFile {
    pub file: String,
}

/// Whether every character is whitespace.
fn line_is_blank(cs: &Vec<char>, from: usize, to: usize) -> (r: bool)
    requires
        from <= to <= cs@.len(),
    ensures
        r == t_blank_line(cs@, from as int, to as int),
{
    let mut p = from;
    while p < to
        invariant
            from <= p <= to,
            to <= cs@.len(),
            forall|j: int| from <= j < p ==> t_is_ws(#[trigger] cs@[j]),
        decreases to - p,
    {
        let c = cs[p];
        if !(c == ' ' || c == '\t' || c == '\r' || c == '\n') {
            return false;
        }
        p = p + 1;
    }
    true
}

/// Whether `c` may appear in an identifier or quantifier word.
fn is_word(c: char) -> (r: bool)
    ensures
        r == t_is_word(c),
{
    ('a' <= c && c <= 'z') || ('A' <= c && c <= 'Z') || ('0' <= c && c <= '9') || c == '_' || c
        == '%' || (c as u32) >= 0x80
}

/// Whether `c` may appear in a row's range condition.
fn is_cond_char(c: char) -> (r: bool)
    ensures
        r == t_is_cond(c),
{
    ('0' <= c && c <= '9') || c == '-' || c == '|' || c == '#' || c == '!'
}

/// Skips spaces and tabs.
fn skip_blank(cs: &Vec<char>, from: usize, to: usize) -> (r: usize)
    requires
        from <= to <= cs@.len(),
    ensures
        from <= r <= to,
        r == t_ws_end(cs@, from as int, to as int),
{
    let mut p = from;
    while p < to && (cs[p] == ' ' || cs[p] == '\t' || cs[p] == '\r' || cs[p] == '\n')
        invariant
            from <= p <= to,
            to <= cs@.len(),
            t_ws_end(cs@, from as int, to as int) == t_ws_end(cs@, p as int, to as int),
        decreases to - p,
    {
        p = p + 1;
    }
    p
}

/// A description line: the word `description` at the line start, then an
/// optional identifier.
fn line_is_description(cs: &Vec<char>, s: &str, from: usize, to: usize) -> (r: bool)
    requires
        from <= to <= cs@.len(),
        cs@ == s@,
    ensures
        r == t_desc_line(cs@, from as int, to as int),
{
    proof {
        reveal_strlit("description");
    }
    let lit = crate::text::chars_of("description");
    let ll = lit.len();
    if to - from < ll {
        return false;
    }
    let mut i: usize = 0;
    while i < ll
        invariant
            lit@ == "description"@,
            ll == lit@.len(),
            from + ll <= to <= cs@.len(),
            i <= ll,
            forall|j: int| 0 <= j < i ==> cs@[from + j] == lit@[j],
        decreases ll - i,
    {
        if cs[from + i] != lit[i] {
            proof {
                assert(cs@.subrange(from as int, from + ll) != lit@) by {
                    if cs@.subrange(from as int, from + ll) == lit@ {
                        assert(cs@.subrange(from as int, from + ll)[i as int] == lit@[i as int]);
                        assert(false);
                    }
                }
            }
            return false;
        }
        i = i + 1;
    }
    proof {
        assert(cs@.subrange(from as int, from + ll) =~= lit@);
    }
    let mut p = skip_blank(cs, from + ll, to);
    let ghost p0 = p as int;
    while p < to && cs[p] != ' ' && cs[p] != '\t' && cs[p] != '\r' && cs[p] != '\n'
        invariant
            from <= p <= to,
            to <= cs@.len(),
            t_nonws_end(cs@, p0, to as int) == t_nonws_end(cs@, p as int, to as int),
        decreases to - p,
    {
        p = p + 1;
    }
    let p2 = skip_blank(cs, p, to);
    p2 == to
}

impl TranslationFile {
    /// Wraps a file's text, stripping a leading byte-order mark.
    pub fn new(file: String) -> (r: TranslationFile)
        ensures
            r.file@ == if file@.len() > 0 && file@[0] == '\u{feff}' {
                file@.drop_first()
            } else {
                file@
            },
    {
        let total = file.unicode_len();
        if total > 0 && file.as_str().get_char(0) == '\u{feff}' {
            let rest = file.as_str().substring_char(1, total).to_owned();
            proof {
                assert(file@.subrange(1, total as int) =~= file@.drop_first());
            }
            TranslationFile { file: rest }
        } else {
            TranslationFile { file }
        }
    }

    /// Runs the line-oriented state machine: a description line opens a
    /// block, a statistics line fixes its key and resets the language to
    /// English, `lang` lines name further languages, a count line
    /// announces that many row lines (a zero count closes the run), and
    /// each row line adds a formatting rule under the current language
    /// and key. Blank lines are skipped everywhere; a malformed line
    /// where the machine requires one fails.
    pub fn parse(&self) -> (r: Result<Vec<LangBlock>, Error>)
        ensures
            r matches Ok(out) ==> translation_wf(out@),
            r is Ok <==> t_accept(self.file@, 0, 0, 0),
            r matches Ok(out) ==> forall|l: Seq<char>, kk: StatKeyModel|
                #[trigger] registered(out@, l, kk) == t_rows(
                    self.file@,
                    0,
                    0,
                    0,
                    "English"@,
                    StatKeyModel::One(Seq::empty()),
                    l,
                    kk,
                ),
            self.file@.len() == 0 ==> {
                &&& r matches Ok(out)
                &&& out@.len() == 0
            },
    {
        let cs = crate::text::chars_of(self.file.as_str());
        let len = cs.len();
        let mut out: Vec<LangBlock> = Vec::new();
        // States: 0 = Description, 1 = Stats, 2 = Lang, 3 = RowCount, 4 = Rows.
        let mut state: u8 = 0;
        let mut lang = String::from_str("English");
        let mut row_count: u32 = 0;
        let mut stats_ids = StatKey::Single(String::new());
        let mut pos: usize = 0;
        while pos < len
            invariant
                len == cs@.len(),
                cs@ == self.file@,
                pos <= len,
                state <= 4,
                translation_wf(out@),
                len == 0 ==> out@.len() == 0,
                t_accept(self.file@, 0, 0, 0) == t_accept(
                    self.file@,
                    pos as int,
                    state as int,
                    row_count,
                ),
                forall|l: Seq<char>, kk: StatKeyModel|
                    #[trigger] t_rows(
                        self.file@,
                        0,
                        0,
                        0,
                        "English"@,
                        StatKeyModel::One(Seq::empty()),
                        l,
                        kk,
                    ) == registered(out@, l, kk) + t_rows(
                        self.file@,
                        pos as int,
                        state as int,
                        row_count,
                        lang@,
                        stats_ids.model(),
                        l,
                        kk,
                    ),
            decreases len - pos,
        {
            let line_start = pos;
            let mut line_end = pos;
            while line_end < len && cs[line_end] != '\n'
                invariant
                    line_start <= line_end <= len,
                    len == cs@.len(),
                    t_line_end(cs@, line_start as int) == t_line_end(cs@, line_end as int),
                decreases len - line_end,
            {
                line_end = line_end + 1;
            }
            proof {
                assert(t_line_end(cs@, line_start as int) == line_end as int);
            }
            let next_pos = if line_end < len {
                line_end + 1
            } else {
                line_end
            };
            let eol = if line_end > line_start && cs[line_end - 1] == '\r' {
                line_end - 1
            } else {
                line_end
            };
            if !line_is_blank(&cs, line_start, eol) {
                if state == 0 {
                    if line_is_description(&cs, self.file.as_str(), line_start, eol) {
                        state = 1;
                    }
                } else if state == 1 {
                    match parse_stats_line(&cs, self.file.as_str(), line_start, eol) {
                        Some(ids) => {
                            stats_ids = ids;
                            lang = String::from_str("English");
                            state = 2;
                        },
                        None => {
                            proof {
                                assert(!t_accept(
                                    self.file@,
                                    line_start as int,
                                    state as int,
                                    row_count,
                                ));
                            }
                            return Err(Error::Format);
                        },
                    }
                } else if state == 2 {
                    match parse_lang_line(&cs, self.file.as_str(), line_start, eol) {
                        Some(l) => {
                            lang = l;
                            state = 3;
                        },
                        None => {
                            match parse_count_line(&cs, line_start, eol) {
                                Some(n) => {
                                    row_count = n;
                                    state = if n == 0 {
                                        2
                                    } else {
                                        4
                                    };
                                },
                                None => {
                                    if line_is_description(
                                        &cs,
                                        self.file.as_str(),
                                        line_start,
                                        eol,
                                    ) {
                                        state = 1;
                                    }
                                },
                            }
                        },
                    }
                } else if state == 3 {
                    match parse_count_line(&cs, line_start, eol) {
                        Some(n) => {
                            row_count = n;
                            state = if n == 0 {
                                2
                            } else {
                                4
                            };
                        },
                        None => {
                            proof {
                                assert(!t_accept(
                                    self.file@,
                                    line_start as int,
                                    state as int,
                                    row_count,
                                ));
                            }
                            return Err(Error::Format);
                        },
                    }
                } else {
                    match parse_row_line(&cs, self.file.as_str(), line_start, eol) {
                        Some(row) => {
                            let ghost reg_pre = out@;
                            let ghost rowm = (row.condition@, row.format_string@, row.modifiers@);
                            push_row(&mut out, &lang, &stats_ids, row);
                            proof {
                                assert forall|l: Seq<char>, kk: StatKeyModel|
                                    #[trigger] registered(out@, l, kk) + t_rows(
                                        self.file@,
                                        next_pos as int,
                                        if row_count > 1 {
                                            4int
                                        } else {
                                            2int
                                        },
                                        if row_count > 0 {
                                            (row_count - 1) as u32
                                        } else {
                                            0u32
                                        },
                                        lang@,
                                        stats_ids.model(),
                                        l,
                                        kk,
                                    ) == registered(reg_pre, l, kk) + t_rows(
                                        self.file@,
                                        line_start as int,
                                        4,
                                        row_count,
                                        lang@,
                                        stats_ids.model(),
                                        l,
                                        kk,
                                    ) by {
                                    if l == lang@ && kk == stats_ids.model() {
                                        assert(registered(out@, l, kk) == registered(
                                            reg_pre,
                                            l,
                                            kk,
                                        ).push(rowm));
                                        assert(registered(reg_pre, l, kk).push(rowm) + t_rows(
                                            self.file@,
                                            next_pos as int,
                                            if row_count > 1 {
                                                4int
                                            } else {
                                                2int
                                            },
                                            if row_count > 0 {
                                                (row_count - 1) as u32
                                            } else {
                                                0u32
                                            },
                                            lang@,
                                            stats_ids.model(),
                                            l,
                                            kk,
                                        ) =~= registered(reg_pre, l, kk) + (seq![rowm] + t_rows(
                                            self.file@,
                                            next_pos as int,
                                            if row_count > 1 {
                                                4int
                                            } else {
                                                2int
                                            },
                                            if row_count > 0 {
                                                (row_count - 1) as u32
                                            } else {
                                                0u32
                                            },
                                            lang@,
                                            stats_ids.model(),
                                            l,
                                            kk,
                                        )));
                                    }
                                }
                            }
                            row_count = if row_count > 0 {
                                row_count - 1
                            } else {
                                0
                            };
                            if row_count == 0 {
                                state = 2;
                            }
                        },
                        None => {
                            proof {
                                assert(!t_accept(
                                    self.file@,
                                    line_start as int,
                                    state as int,
                                    row_count,
                                ));
                            }
                            return Err(Error::Format);
                        },
                    }
                }
            }
            pos = next_pos;
            proof {
                assert(t_accept(self.file@, 0, 0, 0) == t_accept(
                    self.file@,
                    pos as int,
                    state as int,
                    row_count,
                ));
            }
        }
        Ok(out)
    }
}

/// A statistics line: a count, one space, then ids split on single
/// spaces.
fn parse_stats_line(cs: &Vec<char>, s: &str, from: usize, to: usize) -> (r: Option<StatKey>)
    requires
        from <= to <= cs@.len(),
        cs@ == s@,
    ensures
        r is Some <==> t_stats_line(cs@, from as int, to as int),
        r matches Some(k) ==> k.model() == t_stats_key(cs@, from as int, to as int),
{
    let mut p = skip_blank(cs, from, to);
    let d_start = p;
    while p < to && '0' <= cs[p] && cs[p] <= '9'
        invariant
            d_start <= p <= to,
            to <= cs@.len(),
            t_digit_end(cs@, d_start as int, to as int) == t_digit_end(cs@, p as int, to as int),
        decreases to - p,
    {
        p = p + 1;
    }
    if p == d_start || p >= to || cs[p] != ' ' {
        return None;
    }
    p = p + 1;
    let mut ids: Vec<String> = Vec::new();
    let mut seg_start = p;
    let mut q = p;
    while q < to
        invariant
            p <= seg_start <= q <= to,
            to <= cs@.len(),
            cs@ == s@,
            t_space_end(cs@, seg_start as int, to as int) == t_space_end(cs@, q as int, to as int),
            t_split(cs@, p as int, to as int) == ids.deep_view() + t_split(
                cs@,
                seg_start as int,
                to as int,
            ),
        decreases to - q,
    {
        if cs[q] == ' ' {
            let ghost pre = ids.deep_view();
            ids.push(s.substring_char(seg_start, q).to_owned());
            proof {
                assert(t_space_end(cs@, seg_start as int, to as int) == q);
                assert(ids.deep_view() =~= pre.push(cs@.subrange(seg_start as int, q as int)));
                assert(ids.deep_view() + t_split(cs@, q as int + 1, to as int) =~= pre + (seq![
                    cs@.subrange(seg_start as int, q as int),
                ] + t_split(cs@, q as int + 1, to as int)));
            }
            seg_start = q + 1;
        }
        q = q + 1;
    }
    let ghost pre = ids.deep_view();
    ids.push(s.substring_char(seg_start, to).to_owned());
    proof {
        assert(t_space_end(cs@, seg_start as int, to as int) >= to);
        assert(t_split(cs@, seg_start as int, to as int) == seq![
            cs@.subrange(seg_start as int, to as int),
        ]);
        assert(ids.deep_view() =~= pre + seq![cs@.subrange(seg_start as int, to as int)]);
        assert(ids.deep_view() == t_split(cs@, p as int, to as int));
        assert(p == t_digit_end(cs@, t_ws_end(cs@, from as int, to as int), to as int) + 1);
    }
    if ids.len() == 1 {
        let first = ids[0].clone();
        proof {
            assert(first@ == ids.deep_view()[0]);
        }
        Some(StatKey::Single(first))
    } else {
        Some(StatKey::Multiple(ids))
    }
}

/// A language line: `lang "<name>"`.
fn parse_lang_line(cs: &Vec<char>, s: &str, from: usize, to: usize) -> (r: Option<String>)
    requires
        from <= to <= cs@.len(),
        cs@ == s@,
    ensures
        r is Some <==> t_lang_line(cs@, from as int, to as int),
        r matches Some(nm) ==> nm@ == t_lang_name(cs@, from as int, to as int),
{
    proof {
        reveal_strlit("lang \"");
    }
    let mut p = skip_blank(cs, from, to);
    let lit = crate::text::chars_of("lang \"");
    let ll = lit.len();
    if to - p < ll {
        return None;
    }
    let mut i: usize = 0;
    while i < ll
        invariant
            lit@ == "lang \""@,
            ll == lit@.len(),
            from <= p,
            p == t_ws_end(cs@, from as int, to as int),
            p + ll <= to <= cs@.len(),
            i <= ll,
            forall|j: int| 0 <= j < i ==> cs@[p + j] == lit@[j],
        decreases ll - i,
    {
        if cs[p + i] != lit[i] {
            proof {
                assert(cs@.subrange(p as int, p + ll) != lit@) by {
                    if cs@.subrange(p as int, p + ll) == lit@ {
                        assert(cs@.subrange(p as int, p + ll)[i as int] == lit@[i as int]);
                        assert(false);
                    }
                }
                assert(p as int == t_ws_end(cs@, from as int, to as int));
                assert(!t_lit_at(cs@, p as int, to as int, "lang \""@));
                assert(!t_lang_line(cs@, from as int, to as int));
            }
            return None;
        }
        i = i + 1;
    }
    proof {
        assert(cs@.subrange(p as int, p + ll) =~= lit@);
    }
    p = p + ll;
    let name_start = p;
    while p < to && cs[p] != '"'
        invariant
            name_start <= p <= to,
            to <= cs@.len(),
            t_quote_end(cs@, name_start as int, to as int) == t_quote_end(
                cs@,
                p as int,
                to as int,
            ),
        decreases to - p,
    {
        p = p + 1;
    }
    if p >= to || p == name_start {
        return None;
    }
    let name = s.substring_char(name_start, p).to_owned();
    let rest = skip_blank(cs, p + 1, to);
    if rest != to {
        return None;
    }
    Some(name)
}

/// A row-count line: digits alone.
fn parse_count_line(cs: &Vec<char>, from: usize, to: usize) -> (r: Option<u32>)
    requires
        from <= to <= cs@.len(),
    ensures
        r == t_count_line(cs@, from as int, to as int),
{
    let mut p = skip_blank(cs, from, to);
    let d_start = p;
    let mut n: u32 = 0;
    while p < to && '0' <= cs[p] && cs[p] <= '9' && n < 100000000
        invariant
            d_start <= p <= to,
            to <= cs@.len(),
            n <= 999999999,
            t_count_scan(cs@, d_start as int, to as int, 0) == t_count_scan(
                cs@,
                p as int,
                to as int,
                n,
            ),
        decreases to - p,
    {
        n = n * 10 + ((cs[p] as u32) - ('0' as u32));
        p = p + 1;
    }
    if p == d_start {
        return None;
    }
    let rest = skip_blank(cs, p, to);
    if rest != to {
        return None;
    }
    Some(n)
}

/// A row line: one or more range-condition tokens each followed by
/// blanks, a quoted format string (its closing quote the line's last),
/// then quantifier words.
fn parse_row_line(cs: &Vec<char>, s: &str, from: usize, to: usize) -> (r: Option<TranslationRow>)
    requires
        from <= to <= cs@.len(),
        cs@ == s@,
    ensures
        r is Some <==> t_row_line(cs@, from as int, to as int),
        r matches Some(row) ==> (row.condition@, row.format_string@, row.modifiers@)
            == t_row_model(cs@, from as int, to as int),
{
    let p = skip_blank(cs, from, to);
    let cond_start = p;
    let (p, groups) = match scan_cond_groups(cs, p, to) {
        Some(eg) => eg,
        None => {
            return None;
        },
    };
    if groups == 0 {
        return None;
    }
    if p >= to || cs[p] != '"' {
        return None;
    }
    let condition = s.substring_char(cond_start, p).to_owned();
    let f_start = p + 1;
    let mut last_quote = p;
    let mut q = f_start;
    while q < to
        invariant
            p < f_start <= q + 1,
            q <= to <= cs@.len(),
            p <= last_quote && last_quote < to,
            t_last_quote(cs@, f_start as int, to as int, p as int) == t_last_quote(
                cs@,
                q as int,
                to as int,
                last_quote as int,
            ),
        decreases to - q,
    {
        if cs[q] == '"' {
            last_quote = q;
        }
        q = q + 1;
    }
    if last_quote < f_start {
        return None;
    }
    let format_string = s.substring_char(f_start, last_quote).to_owned();
    let mut m_end = to;
    while m_end > last_quote + 1 && (cs[m_end - 1] == ' ' || cs[m_end - 1] == '\t')
        invariant
            to <= cs@.len(),
            last_quote + 1 <= m_end <= to,
            t_mods_end(cs@, last_quote as int + 1, to as int) == t_mods_end(
                cs@,
                last_quote as int + 1,
                m_end as int,
            ),
        decreases m_end,
    {
        m_end = m_end - 1;
    }
    proof {
        assert(t_mods_end(cs@, last_quote as int + 1, to as int) == m_end as int);
    }
    let ghost lq = last_quote as int;
    let ghost me = m_end as int;
    let mut v = last_quote + 1;
    while v < m_end
        invariant
            to <= cs@.len(),
            lq == last_quote as int,
            me == m_end as int,
            lq + 1 <= v as int <= me <= to,
            t_row_line(cs@, from as int, to as int) == (forall|j: int|
                lq + 1 <= j < me ==> (cs@[j] == ' ' || cs@[j] == '\t' || t_is_word(
                    #[trigger] cs@[j],
                ))),
            forall|j: int|
                lq + 1 <= j < v ==> (cs@[j] == ' ' || cs@[j] == '\t' || t_is_word(
                    #[trigger] cs@[j],
                )),
        decreases m_end - v,
    {
        let c = cs[v];
        if !(c == ' ' || c == '\t') && !is_word(c) {
            return None;
        }
        v = v + 1;
    }
    let modifiers = s.substring_char(last_quote + 1, m_end).to_owned();
    Some(TranslationRow { condition, format_string, modifiers })
}

/// Appends a row under its language and key, creating either on first
/// sight: afterwards exactly that row stands appended under that
/// language and key, and every other registration is untouched.
fn push_row(out: &mut Vec<LangBlock>, lang: &String, key: &StatKey, row: TranslationRow)
    requires
        translation_wf(old(out)@),
    ensures
        translation_wf(final(out)@),
        registered(final(out)@, lang@, key.model()) == registered(
            old(out)@,
            lang@,
            key.model(),
        ).push((row.condition@, row.format_string@, row.modifiers@)),
        forall|l: Seq<char>, kk: StatKeyModel|
            l != lang@ || kk != key.model() ==> #[trigger] registered(final(out)@, l, kk)
                == registered(old(out)@, l, kk),
{
    let ghost rowm = (row.condition@, row.format_string@, row.modifiers@);
    let n = out.len();
    let mut i: usize = 0;
    while i < n
        invariant
            n == out@.len(),
            i <= n,
            translation_wf(out@),
            out@ == old(out)@,
            forall|j: int| 0 <= j < i ==> (#[trigger] out@[j]).lang@ != lang@,
        decreases n - i,
    {
        if out[i].lang.eq(lang) {
            let keys_len = out[i].keys.len();
            let mut k: usize = 0;
            while k < keys_len
                invariant
                    i < out@.len(),
                    out@[i as int].lang@ == lang@,
                    keys_len == out@[i as int].keys.len(),
                    k <= keys_len,
                    translation_wf(out@),
                    out@ == old(out)@,
                    forall|j: int| 0 <= j < i ==> (#[trigger] out@[j]).lang@ != lang@,
                    forall|j: int|
                        0 <= j < k ==> (#[trigger] out@[i as int].keys[j]).key.model()
                            != key.model(),
                decreases keys_len - k,
            {
                if key_eq(&out[i].keys[k].key, key) {
                    proof {
                        lemma_lb_index_at(out@, lang@, i as int);
                        lemma_kr_index_at(out@[i as int].keys@, key.model(), k as int);
                    }
                    return push_row_at(out, i, k, row);
                }
                k = k + 1;
            }
            proof {
                lemma_lb_index_at(out@, lang@, i as int);
                lemma_kr_index_none(out@[i as int].keys@, key.model());
            }
            return push_key_at(out, i, key, row);
        }
        i = i + 1;
    }
    proof {
        lemma_lb_index_none(out@, lang@);
    }
    let mut rows: Vec<TranslationRow> = Vec::new();
    rows.push(row);
    let mut keys: Vec<KeyRows> = Vec::new();
    keys.push(KeyRows { key: key.clone_key(), rows });
    let new_block = LangBlock { lang: lang.clone(), keys };
    let ghost pre = out@;
    out.push(new_block);
    proof {
        assert forall|a: int, b: int|
            0 <= a < b < out@.len() implies (#[trigger] out@[a]).lang@ != (
        #[trigger] out@[b]).lang@ by {
            if b < out@.len() - 1 {
                assert(pre[a].lang@ != pre[b].lang@);
            } else {
                assert(pre[a].lang@ != lang@);
            }
        }
        assert(translation_wf(out@));
        assert(rows_model(out@[pre.len() as int].keys@[0].rows@) =~= Seq::empty().push(rowm));
        assert forall|l: Seq<char>, kk: StatKeyModel| #[trigger] registered(out@, l, kk) == (if l
            == lang@ && kk == key.model() {
            registered(pre, l, kk).push(rowm)
        } else {
            registered(pre, l, kk)
        }) by {
            lemma_lb_index_push(pre, out@[pre.len() as int], l);
            if lb_index(pre, l) >= 0 {
                lemma_lb_index_valid(pre, l);
                assert(out@[lb_index(pre, l)] == pre[lb_index(pre, l)]);
            } else if l == lang@ {
                assert(lb_index(out@, l) == pre.len());
                assert(out@[pre.len() as int].keys@.len() == 1);
                assert(out@[pre.len() as int].keys@[0].key.model() == key.model());
                assert(out@[pre.len() as int].keys@.drop_first() =~= Seq::<KeyRows>::empty());
                if kk == key.model() {
                    assert(kr_index(out@[pre.len() as int].keys@, kk) == 0);
                } else {
                    assert(kr_index(out@[pre.len() as int].keys@.drop_first(), kk) == -1);
                    assert(kr_index(out@[pre.len() as int].keys@, kk) == -1);
                }
            }
        }
    }
}

/// Appends a row to an existing key of an existing language: that key's
/// rows grow by the row; everything else is untouched.
fn push_row_at(out: &mut Vec<LangBlock>, i: usize, k: usize, row: TranslationRow)
    requires
        i < old(out)@.len(),
        k < old(out)@[i as int].keys.len(),
        translation_wf(old(out)@),
        lb_index(old(out)@, old(out)@[i as int].lang@) == i,
        kr_index(
            old(out)@[i as int].keys@,
            old(out)@[i as int].keys@[k as int].key.model(),
        ) == k,
    ensures
        translation_wf(final(out)@),
        registered(
            final(out)@,
            old(out)@[i as int].lang@,
            old(out)@[i as int].keys@[k as int].key.model(),
        ) == registered(
            old(out)@,
            old(out)@[i as int].lang@,
            old(out)@[i as int].keys@[k as int].key.model(),
        ).push((row.condition@, row.format_string@, row.modifiers@)),
        forall|l: Seq<char>, kk: StatKeyModel|
            l != old(out)@[i as int].lang@ || kk != old(out)@[i as int].keys@[k as int].key.model()
                ==> #[trigger] registered(final(out)@, l, kk) == registered(old(out)@, l, kk),
{
    let ghost pre = out@;
    let ghost lang0 = pre[i as int].lang@;
    let ghost key0 = pre[i as int].keys@[k as int].key.model();
    let ghost rowm = (row.condition@, row.format_string@, row.modifiers@);
    let mut block = out.remove(i);
    let mut kr = block.keys.remove(k);
    let ghost keys_pre = pre[i as int].keys@;
    kr.rows.push(row);
    block.keys.insert(k, kr);
    proof {
        assert(block.keys@ =~= keys_pre.update(k as int, block.keys@[k as int]));
        assert(block.keys@.len() == keys_pre.len());
        assert forall|j: int| 0 <= j < block.keys@.len() implies (
        #[trigger] block.keys@[j]).key == keys_pre[j].key by {
            if j < k {
            } else if j == k {
            } else {
            }
        }
        assert(block.keys@[k as int].rows@ =~= keys_pre[k as int].rows@.push(row));
    }
    out.insert(i, block);
    proof {
        assert(out@ =~= pre.update(i as int, out@[i as int]));
        assert(out@.len() == pre.len());
        assert forall|j: int| 0 <= j < out@.len() implies (#[trigger] out@[j]).lang@
            == pre[j].lang@ by {}
        assert forall|j: int, a: int, b: int|
            0 <= j < out@.len() && 0 <= a < b < (#[trigger] out@[j]).keys.len() implies (
        #[trigger] out@[j].keys[a]).key.model() != (#[trigger] out@[j].keys[b]).key.model() by {
            if j == i {
                assert(pre[j].keys[a].key.model() != pre[j].keys[b].key.model());
            } else {
                assert(out@[j] == pre[j]);
                assert(pre[j].keys[a].key.model() != pre[j].keys[b].key.model());
            }
        }
        assert(translation_wf(out@));
        assert(rows_model(out@[i as int].keys@[k as int].rows@) =~= rows_model(
            keys_pre[k as int].rows@,
        ).push(rowm));
        assert forall|l: Seq<char>, kk: StatKeyModel| #[trigger] registered(out@, l, kk) == (if l
            == lang0 && kk == key0 {
            registered(pre, l, kk).push(rowm)
        } else {
            registered(pre, l, kk)
        }) by {
            lemma_lb_index_congruent(out@, pre, l);
            if lb_index(pre, l) >= 0 {
                lemma_lb_index_valid(pre, l);
                let t = lb_index(pre, l);
                if t == i {
                    lemma_kr_index_congruent(out@[t].keys@, pre[t].keys@, kk);
                    if kr_index(pre[t].keys@, kk) >= 0 {
                        lemma_kr_index_valid(pre[t].keys@, kk);
                        let u = kr_index(pre[t].keys@, kk);
                        if u == k {
                            assert(l == lang0 && kk == key0);
                        } else {
                            assert(out@[t].keys@[u] == pre[t].keys@[u]);
                        }
                    }
                } else {
                    assert(out@[t] == pre[t]);
                }
            }
        }
    }
}

/// Opens a new key under an existing language: that key registers
/// exactly the row; everything else is untouched.
fn push_key_at(out: &mut Vec<LangBlock>, i: usize, key: &StatKey, row: TranslationRow)
    requires
        i < old(out)@.len(),
        translation_wf(old(out)@),
        lb_index(old(out)@, old(out)@[i as int].lang@) == i,
        kr_index(old(out)@[i as int].keys@, key.model()) == -1,
    ensures
        translation_wf(final(out)@),
        registered(final(out)@, old(out)@[i as int].lang@, key.model()) == registered(
            old(out)@,
            old(out)@[i as int].lang@,
            key.model(),
        ).push((row.condition@, row.format_string@, row.modifiers@)),
        forall|l: Seq<char>, kk: StatKeyModel|
            l != old(out)@[i as int].lang@ || kk != key.model() ==> #[trigger] registered(
                final(out)@,
                l,
                kk,
            ) == registered(old(out)@, l, kk),
{
    let ghost pre = out@;
    let ghost lang0 = pre[i as int].lang@;
    let ghost key0 = key.model();
    let ghost rowm = (row.condition@, row.format_string@, row.modifiers@);
    let mut block = out.remove(i);
    let ghost keys_pre = pre[i as int].keys@;
    let mut rows: Vec<TranslationRow> = Vec::new();
    rows.push(row);
    block.keys.push(KeyRows { key: key.clone_key(), rows });
    proof {
        assert(block.keys@ =~= keys_pre.push(block.keys@[keys_pre.len() as int]));
        assert(block.keys@[keys_pre.len() as int].key.model() == key0);
        assert(rows_model(block.keys@[keys_pre.len() as int].rows@) =~= Seq::empty().push(rowm));
    }
    out.insert(i, block);
    proof {
        assert(out@ =~= pre.update(i as int, out@[i as int]));
        assert(out@.len() == pre.len());
        assert forall|j: int| 0 <= j < out@.len() implies (#[trigger] out@[j]).lang@
            == pre[j].lang@ by {}
        assert forall|j: int, a: int, b: int|
            0 <= j < out@.len() && 0 <= a < b < (#[trigger] out@[j]).keys.len() implies (
        #[trigger] out@[j].keys[a]).key.model() != (#[trigger] out@[j].keys[b]).key.model() by {
            if j == i {
                if b < out@[j].keys@.len() - 1 {
                    assert(pre[j].keys[a].key.model() != pre[j].keys[b].key.model());
                } else {
                    lemma_kr_index_none_keys(keys_pre, key0, a);
                }
            } else {
                assert(out@[j] == pre[j]);
                assert(pre[j].keys[a].key.model() != pre[j].keys[b].key.model());
            }
        }
        assert(translation_wf(out@));
        assert forall|l: Seq<char>, kk: StatKeyModel| #[trigger] registered(out@, l, kk) == (if l
            == lang0 && kk == key0 {
            registered(pre, l, kk).push(rowm)
        } else {
            registered(pre, l, kk)
        }) by {
            lemma_lb_index_congruent(out@, pre, l);
            if lb_index(pre, l) >= 0 {
                lemma_lb_index_valid(pre, l);
                let t = lb_index(pre, l);
                if t == i {
                    lemma_kr_index_push(keys_pre, out@[t].keys@[keys_pre.len() as int], kk);
                    if kr_index(keys_pre, kk) >= 0 {
                        lemma_kr_index_valid(keys_pre, kk);
                        let u = kr_index(keys_pre, kk);
                        assert(out@[t].keys@[u] == keys_pre[u]);
                    } else if kk == key0 {
                        assert(kr_index(out@[t].keys@, kk) == keys_pre.len());
                        assert(registered(pre, l, kk) =~= Seq::<(
                            Seq<char>,
                            Seq<char>,
                            Seq<char>,
                        )>::empty());
                    }
                } else {
                    assert(out@[t] == pre[t]);
                }
            }
        }
    }
}

/// A key absent from a list differs from every key in it.
proof fn lemma_kr_index_none_keys(keys: Seq<KeyRows>, k: StatKeyModel, a: int)
    requires
        kr_index(keys, k) == -1,
        0 <= a < keys.len(),
    ensures
        keys[a].key.model() != k,
    decreases a,
{
    if keys.len() > 0 {
        if a == 0 {
        } else {
            assert(kr_index(keys.drop_first(), k) == -1);
            lemma_kr_index_none_keys(keys.drop_first(), k, a - 1);
        }
    }
}

} // verus!
