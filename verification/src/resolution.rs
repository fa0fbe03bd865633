//! Output resolution: a `"<width>x<height>"` string parsed into a pair,
//! and the pixel count of a frame.

use vstd::prelude::*;
use vstd::string::StrSliceExecFns;

verus! {

/// A frame's width and height in pixels.
pub type Resolution = (i32, i32);

/// Number of pixels in a frame of the given resolution.
pub fn area(resolution: Resolution) -> (n: usize)
    requires
        0 <= resolution.0,
        0 <= resolution.1,
        resolution.0 * resolution.1 <= i32::MAX,
    ensures
        n == resolution.0 * resolution.1,
{
    let (width, height) = resolution;
    (width as usize) * (height as usize)
}

/// A decimal digit, by code point.
pub open spec fn is_digit_char(c: char) -> bool {
    48 <= c as u32 && c as u32 <= 57
}

/// Numeric value of one decimal digit.
pub open spec fn digit_of(c: char) -> int {
    c as u32 - 48
}

/// Every character of `s` is a decimal digit.
pub open spec fn all_digits(s: Seq<char>) -> bool {
    forall|i: int| 0 <= i < s.len() ==> is_digit_char(#[trigger] s[i])
}

/// Value of a digit string read in base ten.
pub open spec fn dec_value(s: Seq<char>) -> int
    decreases s.len(),
{
    if s.len() == 0 {
        0
    } else {
        10 * dec_value(s.drop_last()) + digit_of(s.last())
    }
}

/// Index of the first `'x'` in `s`, or `s.len()` if there is none.
pub open spec fn sep_pos(s: Seq<char>) -> int
    decreases s.len(),
{
    if s.len() == 0 {
        0
    } else if s[0] == 'x' {
        0
    } else {
        1 + sep_pos(s.subrange(1, s.len() as int))
    }
}

/// The characters before the first `'x'`.
pub open spec fn width_field(s: Seq<char>) -> Seq<char> {
    s.subrange(0, sep_pos(s))
}

/// The characters between the first `'x'` and the next `'x'` (or the end).
pub open spec fn height_field(s: Seq<char>) -> Seq<char> {
    let rest = s.subrange(sep_pos(s) + 1, s.len() as int);
    rest.subrange(0, sep_pos(rest))
}

/// A well-formed resolution string: a nonempty run of digits, an `'x'`,
/// and a nonempty run of digits (anything from a second `'x'` on is
/// ignored), with both values fitting in an `i32`.
pub open spec fn wf_resolution_str(s: Seq<char>) -> bool {
    &&& sep_pos(s) < s.len()
    &&& width_field(s).len() > 0
    &&& height_field(s).len() > 0
    &&& all_digits(width_field(s))
    &&& all_digits(height_field(s))
    &&& dec_value(width_field(s)) <= i32::MAX
    &&& dec_value(height_field(s)) <= i32::MAX
}

/// `sep_pos` really is the position of the first `'x'`.
proof fn lemma_sep_pos(s: Seq<char>)
    ensures
        0 <= sep_pos(s) <= s.len(),
        sep_pos(s) < s.len() ==> s[sep_pos(s)] == 'x',
        forall|i: int| 0 <= i < sep_pos(s) ==> s[i] != 'x',
    decreases s.len(),
{
    if s.len() > 0 && s[0] != 'x' {
        let rest = s.subrange(1, s.len() as int);
        lemma_sep_pos(rest);
        assert(forall|i: int| 0 <= i < sep_pos(rest) ==> rest[i] != 'x');
        assert(forall|i: int| 1 <= i < sep_pos(s) ==> s[i] == rest[i - 1]);
    }
}

/// A digit string's value is nonnegative.
proof fn lemma_dec_value_nonneg(s: Seq<char>)
    requires
        all_digits(s),
    ensures
        dec_value(s) >= 0,
    decreases s.len(),
{
    if s.len() > 0 {
        assert(forall|i: int| 0 <= i < s.drop_last().len() ==> s.drop_last()[i] == s[i]);
        lemma_dec_value_nonneg(s.drop_last());
    }
}

/// A prefix of a digit string never has a larger value than the whole.
proof fn lemma_dec_value_prefix(s: Seq<char>, i: int)
    requires
        all_digits(s),
        0 <= i <= s.len(),
    ensures
        0 <= dec_value(s.take(i)) <= dec_value(s),
    decreases s.len() - i,
{
    assert(forall|j: int| 0 <= j < s.take(i).len() ==> s.take(i)[j] == s[j]);
    lemma_dec_value_nonneg(s.take(i));
    if i < s.len() {
        assert(s.take(i + 1).drop_last() =~= s.take(i));
        assert(dec_value(s.take(i + 1)) == 10 * dec_value(s.take(i)) + digit_of(s[i]));
        lemma_dec_value_prefix(s, i + 1);
    } else {
        assert(s.take(i) =~= s);
    }
}

/// Reads the decimal value of the digits of `st` at positions `from..to`.
fn parse_digits(st: &str, from: usize, to: usize) -> (v: i32)
    requires
        from <= to <= st@.len(),
        all_digits(st@.subrange(from as int, to as int)),
        dec_value(st@.subrange(from as int, to as int)) <= i32::MAX,
    ensures
        v == dec_value(st@.subrange(from as int, to as int)),
{
    let ghost sub = st@.subrange(from as int, to as int);
    let mut acc: i64 = 0;
    let mut i: usize = from;
    while i < to
        invariant
            from <= i <= to <= st@.len(),
            sub == st@.subrange(from as int, to as int),
            all_digits(sub),
            dec_value(sub) <= i32::MAX,
            acc == dec_value(sub.take(i - from)),
            0 <= acc <= i32::MAX,
        decreases to - i,
    {
        let c = st.get_char(i);
        proof {
            assert(sub[i - from] == st@[i as int]);
            assert(is_digit_char(c));
        }
        let d: u32 = c as u32 - 48;
        proof {
            assert(sub.take(i - from + 1).drop_last() =~= sub.take(i - from));
            assert(sub.take(i - from + 1).last() == c);
            lemma_dec_value_prefix(sub, i - from + 1);
        }
        acc = acc * 10 + d as i64;
        i = i + 1;
    }
    proof {
        assert(sub.take(to - from) =~= sub);
    }
    acc as i32
}

/// Parses a `"<width>x<height>"` string into a resolution pair, the way
/// the renderer's command line expects it.
pub fn parse_resolution(s: &String) -> (r: Resolution)
    requires
        wf_resolution_str(s@),
    ensures
        r.0 == dec_value(width_field(s@)),
        r.1 == dec_value(height_field(s@)),
{
    let st: &str = s.as_str();
    let len = st.unicode_len();
    let ghost k0: int = sep_pos(s@);
    proof {
        lemma_sep_pos(s@);
    }
    let mut k: usize = 0;
    while st.get_char(k) != 'x'
        invariant
            0 <= k <= k0 < len == s@.len(),
            st@ == s@,
            k0 == sep_pos(s@),
            s@[k0] == 'x',
            forall|i: int| 0 <= i < k0 ==> s@[i] != 'x',
        decreases k0 - k,
    {
        k = k + 1;
    }
    proof {
        assert(k == k0);
    }
    let ghost rest: Seq<char> = s@.subrange(k0 + 1, s@.len() as int);
    let ghost m0: int = sep_pos(rest);
    proof {
        lemma_sep_pos(rest);
    }
    let mut m: usize = k + 1;
    while m < len && st.get_char(m) != 'x'
        invariant
            k + 1 <= m <= k + 1 + m0,
            k == k0,
            0 <= k0 < len == s@.len(),
            st@ == s@,
            rest == s@.subrange(k0 + 1, s@.len() as int),
            m0 == sep_pos(rest),
            0 <= m0 <= rest.len(),
            m0 < rest.len() ==> rest[m0] == 'x',
            forall|i: int| 0 <= i < m0 ==> rest[i] != 'x',
        decreases k + 1 + m0 - m,
    {
        proof {
            assert(rest[m - (k0 + 1)] == s@[m as int]);
        }
        m = m + 1;
    }
    proof {
        if m < len {
            assert(rest[m - (k0 + 1)] == s@[m as int]);
        }
        assert(m == k0 + 1 + m0);
        assert(width_field(s@) == st@.subrange(0, k as int));
        assert(height_field(s@) =~= st@.subrange(k + 1, m as int)) by {
            assert(forall|i: int|
                0 <= i < rest.len() ==> rest[i] == s@[k0 + 1 + i]);
        }
    }
    let width = parse_digits(st, 0, k);
    let height = parse_digits(st, k + 1, m);
    (width, height)
}

} // verus!
