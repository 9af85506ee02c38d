use vstd::prelude::*;

verus! {

/// Whether a byte is an ASCII decimal digit.
pub open spec fn is_digit(b: u8) -> bool {
    0x30 <= b && b <= 0x39
}

/// The first position at or after `i` that does not hold a digit.
pub open spec fn digits_end(s: Seq<u8>, i: int) -> int
    decreases s.len() - i,
{
    if 0 <= i < s.len() && is_digit(s[i]) {
        digits_end(s, i + 1)
    } else {
        i
    }
}

/// An ASCII byte folded to lower case.
pub open spec fn lower(b: u8) -> u8 {
    if 0x41 <= b && b <= 0x5a {
        (b + 0x20) as u8
    } else {
        b
    }
}

/// Whether the bytes of `s` from `i` to the end spell `kw`, ignoring ASCII
/// case.
pub open spec fn tail_is(s: Seq<u8>, i: int, kw: Seq<u8>) -> bool {
    s.len() - i == kw.len() && (forall|j: int|
        0 <= j < kw.len() ==> lower(s[i + j]) == #[trigger] kw[j])
}

/// Whether the bytes of `s` from `j` to the end form an optional exponent:
/// either nothing, or `e`/`E`, an optional sign, and at least one digit
/// running to the end.
pub open spec fn exp_tail(s: Seq<u8>, j: int) -> bool {
    j == s.len() || (0 <= j < s.len() && (s[j] == 0x65 || s[j] == 0x45) && {
        let k = if j + 1 < s.len() && (s[j + 1] == 0x2b || s[j + 1] == 0x2d) {
            j + 2
        } else {
            j + 1
        };
        digits_end(s, k) > k && digits_end(s, k) == s.len()
    })
}

/// Whether the bytes of `s` from `i` to the end form a decimal number:
/// digits with an optional point and fraction, or a point with a fraction,
/// followed by an optional exponent.
pub open spec fn number_tail(s: Seq<u8>, i: int) -> bool {
    let d1 = digits_end(s, i);
    if d1 > i {
        let j = if d1 < s.len() && s[d1] == 0x2e {
            digits_end(s, d1 + 1)
        } else {
            d1
        };
        exp_tail(s, j)
    } else if 0 <= i < s.len() && s[i] == 0x2e {
        let d2 = digits_end(s, i + 1);
        d2 > i + 1 && exp_tail(s, d2)
    } else {
        false
    }
}

/// Whether `s` is a float literal: an optional sign followed by `inf`,
/// `infinity` or `nan` (ignoring case), or by a decimal number. This is the
/// grammar that the standard library documents for parsing floats, so a
/// payload that satisfies it can be turned into a float by the host.
pub open spec fn is_float_literal(s: Seq<u8>) -> bool {
    let i0: int = if s.len() > 0 && (s[0] == 0x2b || s[0] == 0x2d) {
        1
    } else {
        0
    };
    tail_is(s, i0, seq![0x69u8, 0x6eu8, 0x66u8]) || tail_is(
        s,
        i0,
        seq![0x69u8, 0x6eu8, 0x66u8, 0x69u8, 0x6eu8, 0x69u8, 0x74u8, 0x79u8],
    ) || tail_is(s, i0, seq![0x6eu8, 0x61u8, 0x6eu8]) || number_tail(s, i0)
}

fn scan_digits(s: &Vec<u8>, i: usize) -> (r: usize)
    requires
        i <= s@.len(),
    ensures
        r == digits_end(s@, i as int),
        i <= r <= s@.len(),
{
    let mut j = i;
    while j < s.len() && s[j] >= 0x30 && s[j] <= 0x39
        invariant
            i <= j <= s@.len(),
            digits_end(s@, i as int) == digits_end(s@, j as int),
        decreases s@.len() - j,
    {
        j = j + 1;
    }
    j
}

fn lower_byte(b: u8) -> (r: u8)
    ensures
        r == lower(b),
{
    if b >= 0x41 && b <= 0x5a {
        b + 0x20
    } else {
        b
    }
}

fn tail_matches(s: &Vec<u8>, i: usize, kw: &Vec<u8>) -> (r: bool)
    requires
        i <= s@.len(),
    ensures
        r == tail_is(s@, i as int, kw@),
{
    if s.len() - i != kw.len() {
        return false;
    }
    let end = s.len();
    let mut j: usize = 0;
    while j < kw.len()
        invariant
            j <= kw@.len(),
            end == s@.len(),
            i + kw@.len() == end,
            forall|m: int| 0 <= m < j ==> lower(s@[i + m]) == #[trigger] kw@[m],
        decreases kw@.len() - j,
    {
        if lower_byte(s[i + j]) != kw[j] {
            return false;
        }
        j = j + 1;
    }
    true
}

fn exp_matches(s: &Vec<u8>, j: usize) -> (r: bool)
    requires
        j <= s@.len(),
    ensures
        r == exp_tail(s@, j as int),
{
    if j == s.len() {
        return true;
    }
    if !(s[j] == 0x65 || s[j] == 0x45) {
        return false;
    }
    let k: usize = if j + 1 < s.len() && (s[j + 1] == 0x2b || s[j + 1] == 0x2d) {
        j + 2
    } else {
        j + 1
    };
    let d = scan_digits(s, k);
    d > k && d == s.len()
}

/// Whether `text` is a float literal (see [`is_float_literal`]).
pub fn is_float_text(text: &Vec<u8>) -> (r: bool)
    ensures
        r == is_float_literal(text@),
{
    let i0: usize = if text.len() > 0 && (text[0] == 0x2b || text[0] == 0x2d) {
        1
    } else {
        0
    };
    let kw_inf: Vec<u8> = vec![0x69, 0x6e, 0x66];
    let kw_infinity: Vec<u8> = vec![0x69, 0x6e, 0x66, 0x69, 0x6e, 0x69, 0x74, 0x79];
    let kw_nan: Vec<u8> = vec![0x6e, 0x61, 0x6e];
    proof {
        assert(kw_inf@ =~= seq![0x69u8, 0x6eu8, 0x66u8]);
        assert(kw_infinity@ =~= seq![
            0x69u8,
            0x6eu8,
            0x66u8,
            0x69u8,
            0x6eu8,
            0x69u8,
            0x74u8,
            0x79u8,
        ]);
        assert(kw_nan@ =~= seq![0x6eu8, 0x61u8, 0x6eu8]);
    }
    if tail_matches(text, i0, &kw_inf) {
        return true;
    }
    if tail_matches(text, i0, &kw_infinity) {
        return true;
    }
    if tail_matches(text, i0, &kw_nan) {
        return true;
    }
    // a decimal number
    let d1 = scan_digits(text, i0);
    if d1 > i0 {
        let j: usize = if d1 < text.len() && text[d1] == 0x2e {
            scan_digits(text, d1 + 1)
        } else {
            d1
        };
        exp_matches(text, j)
    } else if i0 < text.len() && text[i0] == 0x2e {
        let d2 = scan_digits(text, i0 + 1);
        d2 > i0 + 1 && exp_matches(text, d2)
    } else {
        false
    }
}

} // verus!
