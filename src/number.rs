//! Sizes written for people: "10", "500k", "2M", "1g".
use vstd::prelude::*;
use vstd::string::StringSliceAdditionalSpecFns;

verus! {

/// ASCII whitespace: space, tab, line feed, vertical tab, form feed, carriage return.
pub open spec fn is_ascii_space(b: u8) -> bool {
    b == 0x20 || (0x09 <= b && b <= 0x0d)
}

/// The three-byte UTF-8 encodings of whitespace characters: U+1680, U+2000 to
/// U+200A, U+2028, U+2029, U+202F, U+205F and U+3000.
pub open spec fn is_wide_space(a: u8, b: u8, c: u8) -> bool {
    (a == 0xe1 && b == 0x9a && c == 0x80) || (a == 0xe2 && b == 0x80 && ((0x80 <= c && c <= 0x8a)
        || c == 0xa8 || c == 0xa9 || c == 0xaf)) || (a == 0xe2 && b == 0x81 && c == 0x9f) || (a
        == 0xe3 && b == 0x80 && c == 0x80)
}

/// The UTF-8 length of the whitespace character (in the sense of
/// `char::is_whitespace`) that `s` starts with, or 0.
pub open spec fn leading_space_len(s: Seq<u8>) -> int {
    if s.len() >= 1 && is_ascii_space(s[0]) {
        1
    } else if s.len() >= 2 && s[0] == 0xc2 && (s[1] == 0x85 || s[1] == 0xa0) {
        2
    } else if s.len() >= 3 && is_wide_space(s[0], s[1], s[2]) {
        3
    } else {
        0
    }
}

/// The UTF-8 length of the whitespace character that `s` ends with, or 0.
pub open spec fn trailing_space_len(s: Seq<u8>) -> int {
    let n = s.len() as int;
    if n >= 1 && is_ascii_space(s[n - 1]) {
        1
    } else if n >= 2 && s[n - 2] == 0xc2 && (s[n - 1] == 0x85 || s[n - 1] == 0xa0) {
        2
    } else if n >= 3 && is_wide_space(s[n - 3], s[n - 2], s[n - 1]) {
        3
    } else {
        0
    }
}

pub open spec fn is_digit(b: u8) -> bool {
    0x30 <= b && b <= 0x39
}

pub open spec fn is_letter(b: u8) -> bool {
    (0x41 <= b && b <= 0x5a) || (0x61 <= b && b <= 0x7a)
}

pub open spec fn to_lower(b: u8) -> u8 {
    if 0x41 <= b && b <= 0x5a {
        (b + 32) as u8
    } else {
        b
    }
}

/// `s` without its leading whitespace characters.
pub open spec fn trim_start(s: Seq<u8>) -> Seq<u8>
    decreases s.len(),
{
    let k = leading_space_len(s);
    if k > 0 {
        trim_start(s.subrange(k, s.len() as int))
    } else {
        s
    }
}

/// `s` without its trailing whitespace characters.
pub open spec fn trim_end(s: Seq<u8>) -> Seq<u8>
    decreases s.len(),
{
    let k = trailing_space_len(s);
    if k > 0 {
        trim_end(s.subrange(0, s.len() - k))
    } else {
        s
    }
}

/// `s` ends with the Kelvin sign U+212A, whose lower case is the letter k.
pub open spec fn ends_with_kelvin(s: Seq<u8>) -> bool {
    let n = s.len() as int;
    n >= 3 && s[n - 3] == 0xe2 && s[n - 2] == 0x84 && s[n - 1] == 0xaa
}

/// The UTF-8 length of the unit character that ends `t`: a character whose lower
/// case is an ASCII letter (the ASCII letters and the Kelvin sign), or 0 for none.
pub open spec fn unit_len(t: Seq<u8>) -> int {
    if ends_with_kelvin(t) {
        3
    } else if t.len() > 0 && is_letter(t.last()) {
        1
    } else {
        0
    }
}

/// The lower case of the unit character that ends `t`.
pub open spec fn unit_char(t: Seq<u8>) -> u8 {
    if ends_with_kelvin(t) {
        0x6b
    } else {
        to_lower(t.last())
    }
}

/// The value of a string of decimal digits.
pub open spec fn decimal_value(s: Seq<u8>) -> int
    decreases s.len(),
{
    if s.len() == 0 {
        0
    } else {
        decimal_value(s.drop_last()) * 10 + (s.last() - 0x30)
    }
}

pub open spec fn all_digits(s: Seq<u8>) -> bool {
    forall|i: int| 0 <= i < s.len() ==> #[trigger] is_digit(s[i])
}

/// The text after an optional leading '+'.
pub open spec fn unsigned_digits(s: Seq<u8>) -> Seq<u8> {
    if s.len() > 0 && s[0] == 0x2b {
        s.drop_first()
    } else {
        s
    }
}

/// An unsigned decimal: an optional '+', then at least one digit, fitting 64 bits.
pub open spec fn parse_u64(s: Seq<u8>) -> Option<u64> {
    let body = unsigned_digits(s);
    if body.len() > 0 && all_digits(body) && decimal_value(body) <= u64::MAX {
        Some(decimal_value(body) as u64)
    } else {
        None
    }
}

/// The multiplier of a unit letter (lower case): k, m, g.
pub open spec fn unit_multiplier(u: u8) -> Option<int> {
    if u == 0x6b {
        Some(1_000)
    } else if u == 0x6d {
        Some(1_000_000)
    } else if u == 0x67 {
        Some(1_000_000_000)
    } else {
        None
    }
}

/// What a size text denotes: after trimming whitespace (as `str::trim` does), a
/// number and an optional unit whose lower case is k, m or g (as after
/// `str::to_lowercase`). Errors: 0 empty, 1 bad number, 2 unknown unit, 3 too large
/// for 32 bits.
pub open spec fn size_of_text(s: Seq<u8>) -> Result<u32, int> {
    let t = trim_end(trim_start(s));
    if t.len() == 0 {
        Err(0)
    } else {
        let u = unit_len(t);
        match parse_u64(t.subrange(0, t.len() - u)) {
            None => Err(1),
            Some(v) => {
                let m = if u > 0 {
                    unit_multiplier(unit_char(t))
                } else {
                    Some(1)
                };
                match m {
                    None => Err(2),
                    Some(m) => if v * m > u32::MAX {
                        Err(3)
                    } else {
                        Ok((v * m) as u32)
                    },
                }
            },
        }
    }
}

/// The message of each error of `size_of_text`.
pub open spec fn size_error_text(k: int) -> &'static str {
    if k == 0 {
        "Input string cannot be empty"
    } else if k == 1 {
        "Failed to parse the number part"
    } else if k == 2 {
        "Unsupported unit character"
    } else {
        "Result value exceeds the maximum value for u32"
    }
}

proof fn lemma_decimal_grows(s: Seq<u8>, k: int)
    requires
        0 <= k <= s.len(),
        all_digits(s),
    ensures
        0 <= decimal_value(s.subrange(0, k)) <= decimal_value(s),
    decreases k,
{
    if k > 0 {
        lemma_decimal_grows(s, k - 1);
        assert(s.subrange(0, k).drop_last() =~= s.subrange(0, k - 1));
        assert(is_digit(s[k - 1]));
    }
    lemma_decimal_prefix_le(s, k);
}

proof fn lemma_decimal_prefix_le(s: Seq<u8>, k: int)
    requires
        0 <= k <= s.len(),
        all_digits(s),
    ensures
        decimal_value(s.subrange(0, k)) <= decimal_value(s),
    decreases s.len() - k,
{
    if k < s.len() {
        lemma_decimal_prefix_le(s, k + 1);
        assert(s.subrange(0, k + 1).drop_last() =~= s.subrange(0, k));
        assert(is_digit(s[k]));
        lemma_decimal_nonneg(s.subrange(0, k));
    } else {
        assert(s.subrange(0, k) =~= s);
    }
}

proof fn lemma_decimal_nonneg(s: Seq<u8>)
    requires
        all_digits(s),
    ensures
        decimal_value(s) >= 0,
    decreases s.len(),
{
    if s.len() > 0 {
        assert(all_digits(s.drop_last())) by {
            assert forall|i: int| 0 <= i < s.drop_last().len() implies #[trigger] is_digit(
                s.drop_last()[i],
            ) by {
                assert(s.drop_last()[i] == s[i]);
            }
        }
        lemma_decimal_nonneg(s.drop_last());
        assert(is_digit(s[s.len() - 1]));
    }
}

/// The value of the decimal `b[lo..hi]`, with an optional leading '+'.
fn parse_decimal(b: &[u8], lo: usize, hi: usize) -> (r: Option<u64>)
    requires
        lo <= hi <= b@.len(),
    ensures
        r == parse_u64(b@.subrange(lo as int, hi as int)),
{
    let ghost s = b@.subrange(lo as int, hi as int);
    let mut start = lo;
    if lo < hi && b[lo] == 0x2b {
        start = lo + 1;
    }
    let ghost body = b@.subrange(start as int, hi as int);
    assert(body =~= unsigned_digits(s));
    if start == hi {
        return None;
    }
    let mut acc: u128 = 0;
    let mut i = start;
    while i < hi
        invariant
            lo <= start <= i <= hi <= b@.len(),
            body == b@.subrange(start as int, hi as int),
            body == unsigned_digits(s),
            s == b@.subrange(lo as int, hi as int),
            acc == decimal_value(b@.subrange(start as int, i as int)),
            acc <= u64::MAX,
            all_digits(b@.subrange(start as int, i as int)),
        decreases hi - i,
    {
        let c = b[i];
        if c < 0x30 || c > 0x39 {
            proof {
                assert(body[i - start] == b@[i as int]);
                assert(!is_digit(body[i - start]));
                assert(!all_digits(body));
                assert(parse_u64(s) is None);
            }
            return None;
        }
        proof {
            assert(b@.subrange(start as int, i + 1).drop_last() =~= b@.subrange(start as int, i as int));
            assert(all_digits(b@.subrange(start as int, i + 1))) by {
                assert forall|k: int| 0 <= k < i + 1 - start implies #[trigger] is_digit(
                    b@.subrange(start as int, i + 1)[k],
                ) by {
                    if k < i - start {
                        assert(b@.subrange(start as int, i + 1)[k] == b@.subrange(
                            start as int,
                            i as int,
                        )[k]);
                    }
                }
            }
        }
        acc = acc * 10 + (c - 0x30) as u128;
        i += 1;
        assert(acc == decimal_value(b@.subrange(start as int, i as int)));
        if acc > u64::MAX as u128 {
            proof {
                if all_digits(body) {
                    lemma_decimal_grows(body, i - start);
                    assert(body.subrange(0, i - start) =~= b@.subrange(start as int, i as int));
                    assert(decimal_value(body) > u64::MAX);
                }
                assert(parse_u64(s) is None);
            }
            return None;
        }
    }
    assert(b@.subrange(start as int, i as int) =~= body);
    Some(acc as u64)
}

/// Whitespace character length at the start of `b[lo..hi]`.
fn leading_space(b: &[u8], lo: usize, hi: usize) -> (k: usize)
    requires
        lo <= hi <= b@.len(),
    ensures
        k == leading_space_len(b@.subrange(lo as int, hi as int)),
        k <= hi - lo,
{
    let n = hi - lo;
    if n >= 1 && (b[lo] == 0x20 || (0x09 <= b[lo] && b[lo] <= 0x0d)) {
        1
    } else if n >= 2 && b[lo] == 0xc2 && (b[lo + 1] == 0x85 || b[lo + 1] == 0xa0) {
        2
    } else if n >= 3 && wide_space(b[lo], b[lo + 1], b[lo + 2]) {
        3
    } else {
        0
    }
}

/// Whitespace character length at the end of `b[lo..hi]`.
fn trailing_space(b: &[u8], lo: usize, hi: usize) -> (k: usize)
    requires
        lo <= hi <= b@.len(),
    ensures
        k == trailing_space_len(b@.subrange(lo as int, hi as int)),
        k <= hi - lo,
{
    let n = hi - lo;
    if n >= 1 && (b[hi - 1] == 0x20 || (0x09 <= b[hi - 1] && b[hi - 1] <= 0x0d)) {
        1
    } else if n >= 2 && b[hi - 2] == 0xc2 && (b[hi - 1] == 0x85 || b[hi - 1] == 0xa0) {
        2
    } else if n >= 3 && wide_space(b[hi - 3], b[hi - 2], b[hi - 1]) {
        3
    } else {
        0
    }
}

fn wide_space(a: u8, b: u8, c: u8) -> (r: bool)
    ensures
        r == is_wide_space(a, b, c),
{
    (a == 0xe1 && b == 0x9a && c == 0x80) || (a == 0xe2 && b == 0x80 && ((0x80 <= c && c <= 0x8a)
        || c == 0xa8 || c == 0xa9 || c == 0xaf)) || (a == 0xe2 && b == 0x81 && c == 0x9f) || (a
        == 0xe3 && b == 0x80 && c == 0x80)
}

/// Parses a size such as "10", "500k", "2M" or "1G" (units k, m, g in either case,
/// for thousands, millions, billions), after trimming whitespace. It reads the text
/// as `str::trim` and `str::to_lowercase` leave it: every Unicode whitespace
/// character is trimmed, and the Kelvin sign, which lowers to k, is a unit too.
pub fn parse_human_readable_u32(s: &str) -> (r: Result<u32, &'static str>)
    ensures
        match size_of_text(s.spec_bytes()) {
            Ok(v) => r == Ok::<u32, &'static str>(v),
            Err(k) => r is Err && r->Err_0 == size_error_text(k),
        },
{
    let b = s.as_bytes();
    let n = b.len();
    let mut lo: usize = 0;
    assert(b@.subrange(0, n as int) =~= b@);
    let mut k = leading_space(b, lo, n);
    while k > 0
        invariant
            lo <= n == b@.len(),
            k == leading_space_len(b@.subrange(lo as int, n as int)),
            trim_start(b@) == trim_start(b@.subrange(lo as int, n as int)),
        decreases n - lo,
    {
        assert(b@.subrange(lo as int, n as int).subrange(k as int, n - lo) =~= b@.subrange(
            lo + k,
            n as int,
        ));
        lo = lo + k;
        k = leading_space(b, lo, n);
    }
    let ghost t0 = b@.subrange(lo as int, n as int);
    assert(trim_start(b@) == t0);
    let mut hi: usize = n;
    let mut j = trailing_space(b, lo, hi);
    while j > 0
        invariant
            lo <= hi <= n == b@.len(),
            j == trailing_space_len(b@.subrange(lo as int, hi as int)),
            t0 == b@.subrange(lo as int, n as int),
            trim_end(t0) == trim_end(b@.subrange(lo as int, hi as int)),
        decreases hi - lo,
    {
        assert(b@.subrange(lo as int, hi as int).subrange(0, hi - lo - j) =~= b@.subrange(
            lo as int,
            hi - j,
        ));
        hi = hi - j;
        j = trailing_space(b, lo, hi);
    }
    let ghost t = b@.subrange(lo as int, hi as int);
    assert(trim_end(trim_start(b@)) == t);
    if lo == hi {
        return Err("Input string cannot be empty");
    }
    let last = b[hi - 1];
    let kelvin = hi - lo >= 3 && b[hi - 3] == 0xe2 && b[hi - 2] == 0x84 && last == 0xaa;
    let letter = (0x41 <= last && last <= 0x5a) || (0x61 <= last && last <= 0x7a);
    let u: usize = if kelvin {
        3
    } else if letter {
        1
    } else {
        0
    };
    assert(u == unit_len(t));
    let num_hi = hi - u;
    assert(b@.subrange(lo as int, num_hi as int) =~= t.subrange(0, t.len() - u));
    let value = match parse_decimal(b, lo, num_hi) {
        Some(v) => v,
        None => {
            return Err("Failed to parse the number part");
        },
    };
    let multiplier: u64 = if u == 0 {
        1
    } else {
        let unit = if kelvin {
            0x6b
        } else if 0x41 <= last && last <= 0x5a {
            last + 32
        } else {
            last
        };
        assert(unit == unit_char(t));
        if unit == 0x6b {
            1_000
        } else if unit == 0x6d {
            1_000_000
        } else if unit == 0x67 {
            1_000_000_000
        } else {
            return Err("Unsupported unit character");
        }
    };
    let total = value as u128 * multiplier as u128;
    proof {
        assert(value * multiplier <= 0xffff_ffff_ffff_ffffint * 1_000_000_000) by (nonlinear_arith)
            requires
                value <= 0xffff_ffff_ffff_ffffint,
                multiplier <= 1_000_000_000,
        ;
    }
    if total > u32::MAX as u128 {
        Err("Result value exceeds the maximum value for u32")
    } else {
        Ok(total as u32)
    }
}

} // verus!
