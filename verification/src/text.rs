//! Text helpers: the few std conversions the library relies on, each behind
//! a single trusted wrapper, and verified helpers built on top of them.
use vstd::prelude::*;
use vstd::string::StrSliceExecFns;

verus! {

/// What lossy UTF-16 decoding yields for a unit sequence.
pub uninterp spec fn utf16_lossy_of(units: Seq<u16>) -> Seq<char>;

/// Relies on String::from_utf16_lossy: decodes UTF-16 code units, replacing
/// unpaired surrogates; the result depends on the units alone.
#[verifier::external_body]
pub fn utf16_lossy(units: &Vec<u16>) -> (r: String)
    ensures
        r@ == utf16_lossy_of(units@),
        units@.len() == 0 ==> r@.len() == 0,
{
    String::from_utf16_lossy(units)
}

/// What lossy UTF-8 decoding yields for a byte sequence.
pub uninterp spec fn utf8_lossy_of(bytes: Seq<u8>) -> Seq<char>;

/// Relies on String::from_utf8_lossy: decodes UTF-8, replacing invalid
/// sequences; the result depends on the bytes alone.
#[verifier::external_body]
pub fn utf8_lossy(bytes: &Vec<u8>) -> (r: String)
    ensures
        r@ == utf8_lossy_of(bytes@),
        bytes@.len() == 0 ==> r@.len() == 0,
{
    String::from_utf8_lossy(bytes).to_string()
}

/// What Unicode lowercasing yields for a character sequence.
pub uninterp spec fn lower_of(s: Seq<char>) -> Seq<char>;

/// Relies on str::to_lowercase: the result depends on the characters alone.
#[verifier::external_body]
pub fn to_lowercase(s: &str) -> (r: String)
    ensures
        r@ == lower_of(s@),
        s@.len() == 0 ==> r@.len() == 0,
{
    s.to_lowercase()
}

/// A sequence with its trailing NUL characters removed.
pub open spec fn trim_nul(s: Seq<char>) -> Seq<char>
    decreases s.len(),
{
    if s.len() > 0 && s[s.len() - 1] == '\0' {
        trim_nul(s.drop_last())
    } else {
        s
    }
}

/// Removes every trailing NUL character.
pub fn trim_trailing_nul(s: &str) -> (r: String)
    ensures
        r@ == trim_nul(s@),
{
    let total = s.unicode_len();
    let mut keep = total;
    proof {
        assert(s@.subrange(0, total as int) =~= s@);
    }
    while keep > 0 && s.get_char(keep - 1) == '\0'
        invariant
            keep <= total,
            total == s@.len(),
            trim_nul(s@) == trim_nul(s@.subrange(0, keep as int)),
        decreases keep,
    {
        proof {
            assert(s@.subrange(0, keep as int).drop_last() =~= s@.subrange(0, keep as int - 1));
        }
        keep = keep - 1;
    }
    proof {
        if keep > 0 {
            assert(trim_nul(s@.subrange(0, keep as int)) == s@.subrange(0, keep as int));
        } else {
            assert(s@.subrange(0, 0) =~= Seq::<char>::empty());
        }
    }
    s.substring_char(0, keep).to_owned()
}

/// The UTF-16 code units stored as consecutive little-endian byte pairs,
/// any trailing odd byte ignored.
pub open spec fn utf16_units_of(b: Seq<u8>) -> Seq<u16> {
    Seq::new((b.len() / 2) as nat, |i: int| crate::bytes::le16(b, 2 * i))
}

/// Collects little-endian byte pairs into UTF-16 code units.
pub fn utf16_units(b: &[u8]) -> (r: Vec<u16>)
    ensures
        r@ == utf16_units_of(b@),
{
    let bl = b.len();
    let n = bl / 2;
    let mut out: Vec<u16> = Vec::new();
    let mut i: usize = 0;
    while i < n
        invariant
            bl == b@.len(),
            n == bl / 2,
            i <= n,
            out@.len() == i,
            forall|k: int| 0 <= k < i ==> out@[k] == crate::bytes::le16(b@, 2 * k),
        decreases n - i,
    {
        out.push(crate::bytes::read_u16_at(b, 2 * i));
        i = i + 1;
    }
    proof {
        assert(out@ =~= utf16_units_of(b@));
    }
    out
}


/// Whether `c` is a decimal digit.
pub open spec fn spec_is_digit(c: char) -> bool {
    '0' <= c && c <= '9'
}

/// The value of a digit string folded left onto `acc`.
pub open spec fn digits_val(s: Seq<char>, acc: int) -> int
    decreases s.len(),
{
    if s.len() == 0 {
        acc
    } else {
        digits_val(s.drop_first(), acc * 10 + (s[0] as int - '0' as int))
    }
}

/// The digit part of a number token: everything after an optional sign.
pub open spec fn sign_stripped(s: Seq<char>) -> Seq<char> {
    if s.len() > 0 && (s[0] == '-' || s[0] == '+') {
        s.drop_first()
    } else {
        s
    }
}

/// What `str::parse::<i32>` yields: an optional sign, then at least one
/// digit and nothing else, with the signed value in range.
pub open spec fn spec_parse_i32(s: Seq<char>) -> Option<i32> {
    let neg = s.len() > 0 && s[0] == '-';
    let ds = sign_stripped(s);
    if ds.len() == 0 || exists|i: int| 0 <= i < ds.len() && !spec_is_digit(#[trigger] ds[i]) {
        None
    } else {
        let v = digits_val(ds, 0);
        let signed = if neg {
            -v
        } else {
            v
        };
        if i32::MIN <= signed <= i32::MAX {
            Some(signed as i32)
        } else {
            None
        }
    }
}

/// Leading zeros do not change a digit string's value.
proof fn lemma_digits_skip_zeros(s: Seq<char>, i: int)
    requires
        0 <= i <= s.len(),
        forall|j: int| 0 <= j < i ==> s[j] == '0',
    ensures
        digits_val(s, 0) == digits_val(s.skip(i), 0),
    decreases i,
{
    if i == 0 {
        assert(s.skip(0) =~= s);
    } else {
        assert(s[0] == '0');
        assert(s[0] as int - '0' as int == 0);
        assert(digits_val(s, 0) == digits_val(s.drop_first(), 0));
        assert(s.drop_first().skip(i - 1) =~= s.skip(i));
        assert forall|j: int| 0 <= j < i - 1 implies s.drop_first()[j] == '0' by {
            assert(s[j + 1] == '0');
        }
        lemma_digits_skip_zeros(s.drop_first(), i - 1);
    }
}

/// Folding one more digit.
proof fn lemma_digits_step(s: Seq<char>, i: int, acc: int)
    requires
        0 <= i < s.len(),
    ensures
        digits_val(s.skip(i), acc) == digits_val(s.skip(i + 1), acc * 10 + (s[i] as int - '0' as int)),
{
    assert(s.skip(i).drop_first() =~= s.skip(i + 1));
    assert(s.skip(i)[0] == s[i]);
}

/// Parses a signed 32-bit integer exactly as `str::parse::<i32>` does.
pub fn parse_i32_str(s: &str) -> (r: Option<i32>)
    ensures
        r == spec_parse_i32(s@),
{
    let total = s.unicode_len();
    let mut pos: usize = 0;
    let mut neg = false;
    if total > 0 {
        let c0 = s.get_char(0);
        if c0 == '-' {
            neg = true;
            pos = 1;
        } else if c0 == '+' {
            pos = 1;
        }
    }
    let ghost ds = sign_stripped(s@);
    proof {
        assert(ds =~= s@.subrange(pos as int, total as int));
    }
    if pos == total {
        proof {
            assert(ds.len() == 0);
        }
        return None;
    }
    let mut k: usize = pos;
    while k < total
        invariant
            total == s@.len(),
            pos <= k <= total,
            ds =~= s@.subrange(pos as int, total as int),
            ds == sign_stripped(s@),
            neg == (s@.len() > 0 && s@[0] == '-'),
            forall|j: int| 0 <= j < k - pos ==> spec_is_digit(#[trigger] ds[j]),
        decreases total - k,
    {
        let c = s.get_char(k);
        if !(c >= '0' && c <= '9') {
            proof {
                assert(ds[k - pos as int] == s@[k as int]);
                assert(!spec_is_digit(ds[k - pos as int]));
                assert(exists|i: int| 0 <= i < ds.len() && !spec_is_digit(#[trigger] ds[i]));
                assert(spec_parse_i32(s@) is None);
            }
            return None;
        }
        proof {
            assert(ds[k - pos as int] == s@[k as int]);
        }
        k = k + 1;
    }
    let mut z: usize = pos;
    while z < total && s.get_char(z) == '0'
        invariant
            total == s@.len(),
            pos <= z <= total,
            forall|j: int| 0 <= j < z - pos ==> ds[j] == '0',
            ds =~= s@.subrange(pos as int, total as int),
            ds == sign_stripped(s@),
            neg == (s@.len() > 0 && s@[0] == '-'),
            forall|j: int| 0 <= j < total - pos ==> spec_is_digit(#[trigger] ds[j]),
            ds == sign_stripped(s@),
            neg == (s@.len() > 0 && s@[0] == '-'),
        decreases total - z,
    {
        proof {
            assert(ds[z - pos as int] == s@[z as int]);
        }
        z = z + 1;
    }
    proof {
        lemma_digits_skip_zeros(ds, z - pos as int);
    }
    if total - z > 10 {
        proof {
            let rest = ds.skip(z - pos as int);
            assert(rest.len() >= 11);
            assert(rest[0] != '0' && spec_is_digit(rest[0]));
            assert(rest.skip(1) =~= ds.skip(z - pos as int + 1));
            lemma_digits_step(ds, z - pos as int, 0);
            assert forall|j: int| 0 <= j < rest.skip(1).len() implies spec_is_digit(
                #[trigger] rest.skip(1)[j],
            ) by {
                assert(rest.skip(1)[j] == ds[z - pos as int + 1 + j]);
            }
            lemma_digits_ten_floor(rest);
            assert(digits_val(ds, 0) > 0x100000000);
        }
        return None;
    }
    let mut acc: i64 = 0;
    let mut t: usize = z;
    while t < total
        invariant
            total == s@.len(),
            z <= t <= total,
            pos <= z,
            total - z <= 10,
            ds =~= s@.subrange(pos as int, total as int),
            ds == sign_stripped(s@),
            neg == (s@.len() > 0 && s@[0] == '-'),
            forall|j: int| 0 <= j < total - pos ==> spec_is_digit(#[trigger] ds[j]),
            0 <= acc,
            acc < 0x2540be400i64,
            digits_val(ds.skip(z - pos as int), 0) == digits_val(
                ds.skip(t - pos as int),
                acc as int,
            ),
            acc < pow10((t - z) as nat),
        decreases total - t,
    {
        let c = s.get_char(t);
        proof {
            assert(ds[t - pos as int] == s@[t as int]);
            assert(spec_is_digit(ds[t - pos as int]));
            lemma_digits_step(ds, t - pos as int, acc as int);
            lemma_pow10_mono(((t - z) + 1) as nat, 10nat);
            reveal_with_fuel(pow10, 12);
            assert(pow10(10nat) == 10000000000);
            assert(acc * 10 + (c as int - '0' as int) < pow10(((t - z) + 1) as nat))
                by (nonlinear_arith)
                requires
                    0 <= acc,
                    acc < pow10((t - z) as nat),
                    0 <= c as int - '0' as int <= 9,
                    pow10(((t - z) + 1) as nat) == 10 * pow10((t - z) as nat),
            ;
        }
        acc = acc * 10 + ((c as u32) - ('0' as u32)) as i64;
        t = t + 1;
    }
    proof {
        assert(ds.skip(total - pos as int) =~= Seq::<char>::empty());
        assert(digits_val(ds, 0) == acc as int);
    }
    let signed: i64 = if neg {
        -acc
    } else {
        acc
    };
    if signed < (i32::MIN as i64) || signed > (i32::MAX as i64) {
        return None;
    }
    Some(signed as i32)
}

/// Ten to the `n`th power.
pub open spec fn pow10(n: nat) -> int
    decreases n,
{
    if n == 0 {
        1
    } else {
        10 * pow10((n - 1) as nat)
    }
}

proof fn lemma_pow10_mono(a: nat, b: nat)
    requires
        a <= b,
    ensures
        pow10(a) <= pow10(b),
        pow10(a) >= 1,
    decreases b,
{
    if a == b {
        lemma_pow10_pos(a);
    } else {
        lemma_pow10_mono(a, (b - 1) as nat);
    }
}

proof fn lemma_pow10_pos(n: nat)
    ensures
        pow10(n) >= 1,
    decreases n,
{
    if n > 0 {
        lemma_pow10_pos((n - 1) as nat);
    }
}

/// A digit string of eleven or more places starting with a nonzero digit
/// exceeds any 32-bit value.
proof fn lemma_digits_ten_floor(s: Seq<char>)
    requires
        s.len() >= 11,
        spec_is_digit(s[0]),
        s[0] != '0',
        forall|j: int| 0 <= j < s.len() ==> spec_is_digit(#[trigger] s[j]),
    ensures
        digits_val(s, 0) > 0x100000000,
{
    assert(digits_val(s, 0) == digits_val(s.drop_first(), s[0] as int - '0' as int));
    assert(s[0] as int - '0' as int >= 1);
    assert forall|j: int| 0 <= j < s.drop_first().len() implies spec_is_digit(
        #[trigger] s.drop_first()[j],
    ) by {
        assert(s.drop_first()[j] == s[j + 1]);
    }
    lemma_digits_amplify(s.drop_first(), s[0] as int - '0' as int);
    lemma_pow10_mono(10nat, (s.len() - 1) as nat);
    reveal_with_fuel(pow10, 12);
    assert(pow10(10nat) == 10000000000);
    assert(digits_val(s.drop_first(), s[0] as int - '0' as int) >= pow10(
        (s.len() - 1) as nat,
    )) by (nonlinear_arith)
        requires
            digits_val(s.drop_first(), s[0] as int - '0' as int) >= (s[0] as int - '0' as int)
                * pow10((s.len() - 1) as nat),
            s[0] as int - '0' as int >= 1,
            pow10((s.len() - 1) as nat) >= 1,
    ;
}

/// Each digit multiplies the accumulator's floor by ten.
proof fn lemma_digits_amplify(s: Seq<char>, acc: int)
    requires
        acc >= 1,
        forall|j: int| 0 <= j < s.len() ==> spec_is_digit(#[trigger] s[j]),
    ensures
        digits_val(s, acc) >= acc * pow10(s.len() as nat),
    decreases s.len(),
{
    if s.len() == 0 {
    } else {
        assert(spec_is_digit(s[0]));
        assert forall|j: int| 0 <= j < s.drop_first().len() implies spec_is_digit(
            #[trigger] s.drop_first()[j],
        ) by {
            assert(s.drop_first()[j] == s[j + 1]);
        }
        lemma_digits_amplify(s.drop_first(), acc * 10 + (s[0] as int - '0' as int));
        lemma_pow10_pos(s.drop_first().len() as nat);
        assert((acc * 10 + (s[0] as int - '0' as int)) * pow10(s.drop_first().len() as nat) >= acc
            * pow10(s.len() as nat)) by (nonlinear_arith)
            requires
                acc >= 1,
                s.len() >= 1,
                s[0] as int - '0' as int >= 0,
                pow10(s.drop_first().len() as nat) >= 1,
                pow10(s.len() as nat) == 10 * pow10(s.drop_first().len() as nat),
                s.drop_first().len() == s.len() - 1,
        ;
    }
}

/// The characters of a string, in order.
pub fn chars_of(s: &str) -> (r: Vec<char>)
    ensures
        r@ == s@,
{
    let total = s.unicode_len();
    let mut out: Vec<char> = Vec::new();
    let mut i: usize = 0;
    while i < total
        invariant
            total == s@.len(),
            i <= total,
            out@.len() == i,
            forall|j: int| 0 <= j < i ==> out@[j] == s@[j],
        decreases total - i,
    {
        out.push(s.get_char(i));
        i = i + 1;
    }
    proof {
        assert(out@ =~= s@);
    }
    out
}


/// A byte string with a leading UTF-16LE byte-order mark removed.
pub open spec fn spec_strip_bom(b: Seq<u8>) -> Seq<u8> {
    if b.len() >= 2 && b[0] == 0xffu8 && b[1] == 0xfeu8 {
        b.subrange(2, b.len() as int)
    } else {
        b
    }
}

/// Decodes a UTF-16LE text file: strips a leading byte-order mark, pairs
/// the remaining bytes into little-endian code units, and decodes them
/// lossily.
pub fn decode_utf16_text(bytes: &Vec<u8>) -> (r: String)
    ensures
        r@ == utf16_lossy_of(utf16_units_of(spec_strip_bom(bytes@))),
{
    let body: &[u8] = if bytes.len() >= 2 && bytes[0] == 0xff && bytes[1] == 0xfe {
        &bytes.as_slice()[2..bytes.len()]
    } else {
        bytes.as_slice()
    };
    let units = utf16_units(body);
    utf16_lossy(&units)
}


/// The character of one decimal digit.
pub open spec fn dec_digit(d: nat) -> char {
    if d == 0 {
        '0'
    } else if d == 1 {
        '1'
    } else if d == 2 {
        '2'
    } else if d == 3 {
        '3'
    } else if d == 4 {
        '4'
    } else if d == 5 {
        '5'
    } else if d == 6 {
        '6'
    } else if d == 7 {
        '7'
    } else if d == 8 {
        '8'
    } else {
        '9'
    }
}

/// The decimal digits of `n`, most significant first.
pub open spec fn dec_digits(n: nat) -> Seq<char>
    decreases n,
{
    if n < 10 {
        seq![dec_digit(n)]
    } else {
        dec_digits(n / 10).push(dec_digit(n % 10))
    }
}

/// One decimal digit as text.
fn dec_digit_str(d: u64) -> (r: &'static str)
    requires
        d < 10,
    ensures
        r@ == seq![dec_digit(d as nat)],
{
    proof {
        reveal_strlit("0");
        reveal_strlit("1");
        reveal_strlit("2");
        reveal_strlit("3");
        reveal_strlit("4");
        reveal_strlit("5");
        reveal_strlit("6");
        reveal_strlit("7");
        reveal_strlit("8");
        reveal_strlit("9");
    }
    let r: &'static str = if d == 0 {
        "0"
    } else if d == 1 {
        "1"
    } else if d == 2 {
        "2"
    } else if d == 3 {
        "3"
    } else if d == 4 {
        "4"
    } else if d == 5 {
        "5"
    } else if d == 6 {
        "6"
    } else if d == 7 {
        "7"
    } else if d == 8 {
        "8"
    } else {
        "9"
    };
    proof {
        assert(r@ =~= seq![dec_digit(d as nat)]);
    }
    r
}

/// Writes `n` in decimal.
pub fn u64_to_string(n: u64) -> (r: String)
    ensures
        r@ == dec_digits(n as nat),
    decreases n,
{
    if n < 10 {
        dec_digit_str(n).to_owned()
    } else {
        let rest = u64_to_string(n / 10);
        let r = rest.concat(dec_digit_str(n % 10));
        proof {
            assert(r@ =~= dec_digits((n / 10) as nat).push(dec_digit((n % 10) as nat)));
        }
        r
    }
}

} // verus!



