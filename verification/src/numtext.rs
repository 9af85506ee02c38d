use vstd::prelude::*;

verus! {

/// The character for one decimal digit.
pub open spec fn digit_char(d: nat) -> char
    recommends
        d < 10,
{
    ((0x30 + d) as u8) as char
}

/// The decimal digits of `n`, most significant first, without sign.
pub open spec fn dec_digits(n: nat) -> Seq<char>
    decreases n,
{
    if n < 10 {
        seq![digit_char(n)]
    } else {
        dec_digits(n / 10).push(digit_char(n % 10))
    }
}

/// The canonical decimal text of an integer: a `-` sign for negative values,
/// followed by the decimal digits of the magnitude.
pub open spec fn int_text(n: int) -> Seq<char> {
    if n < 0 {
        seq!['-'] + dec_digits((-n) as nat)
    } else {
        dec_digits(n as nat)
    }
}

/// The value of base-256 digits in little-endian order (least significant
/// digit first).
pub open spec fn base256(digits: Seq<u8>) -> nat
    decreases digits.len(),
{
    if digits.len() == 0 {
        0
    } else {
        (digits[0] + 256 * base256(digits.drop_first())) as nat
    }
}

/// The signed value of an arbitrary-precision integer given by a sign flag
/// and little-endian base-256 digits.
pub open spec fn big_value(negative: bool, digits: Seq<u8>) -> int {
    if negative {
        -(base256(digits) as int)
    } else {
        base256(digits) as int
    }
}

/// The reverse of a sequence.
pub open spec fn seq_rev<A>(s: Seq<A>) -> Seq<A>
    decreases s.len(),
{
    if s.len() == 0 {
        Seq::empty()
    } else {
        seq![s.last()] + seq_rev(s.drop_last())
    }
}

pub proof fn lemma_seq_rev_len<A>(s: Seq<A>)
    ensures
        seq_rev(s).len() == s.len(),
    decreases s.len(),
{
    if s.len() > 0 {
        lemma_seq_rev_len(s.drop_last());
    }
}

pub proof fn lemma_seq_rev_index<A>(s: Seq<A>, i: int)
    requires
        0 <= i < s.len(),
    ensures
        seq_rev(s).len() == s.len(),
        seq_rev(s)[i] == s[s.len() - 1 - i],
    decreases s.len(),
{
    lemma_seq_rev_len(s);
    if i > 0 {
        lemma_seq_rev_index(s.drop_last(), i - 1);
    }
}

/// The decimal text of an unsigned value.
pub fn u64_chars(n0: u64) -> (r: Vec<char>)
    ensures
        r@ == dec_digits(n0 as nat),
{
    let mut rev: Vec<char> = Vec::new();
    let mut n: u64 = n0;
    let d0: u8 = (n % 10) as u8;
    rev.push((0x30 + d0) as char);
    n = n / 10;
    proof {
        let c = digit_char((n0 as nat) % 10);
        assert(rev@ =~= seq![c]);
        assert(seq![c].drop_last() =~= Seq::<char>::empty());
        assert(seq_rev(Seq::<char>::empty()) =~= Seq::<char>::empty());
        assert(seq_rev(seq![c]) =~= seq![c] + Seq::<char>::empty());
        assert(seq![c] + Seq::<char>::empty() =~= seq![c]);
        if n0 >= 10 {
            assert(dec_digits(n0 as nat) =~= dec_digits((n0 / 10) as nat).push(c));
            assert(dec_digits((n0 / 10) as nat).push(c) =~= dec_digits((n0 / 10) as nat)
                + seq![c]);
        }
    }
    while n > 0
        invariant
            dec_digits(n0 as nat) == if n > 0 {
                dec_digits(n as nat) + seq_rev(rev@)
            } else {
                seq_rev(rev@)
            },
        decreases n,
    {
        let d: u8 = (n % 10) as u8;
        let ghost prev = rev@;
        rev.push((0x30 + d) as char);
        proof {
            let c = digit_char((n as nat) % 10);
            assert(rev@.drop_last() =~= prev);
            assert(rev@.last() == c);
            assert(seq_rev(rev@) =~= seq![c] + seq_rev(prev));
            if n >= 10 {
                assert(dec_digits(n as nat) =~= dec_digits((n / 10) as nat).push(c));
                assert(dec_digits((n / 10) as nat).push(c) =~= dec_digits((n / 10) as nat)
                    + seq![c]);
                assert(dec_digits((n / 10) as nat) + seq![c] + seq_rev(prev)
                    =~= dec_digits((n / 10) as nat) + (seq![c] + seq_rev(prev)));
            } else {
                assert(dec_digits(n as nat) =~= seq![c]);
            }
        }
        n = n / 10;
    }
    let mut r: Vec<char> = Vec::with_capacity(rev.len());
    let len = rev.len();
    let mut i: usize = 0;
    while i < len
        invariant
            i <= len,
            len == rev@.len(),
            dec_digits(n0 as nat) == seq_rev(rev@),
            r@ == seq_rev(rev@).subrange(0, i as int),
        decreases len - i,
    {
        proof {
            lemma_seq_rev_index(rev@, i as int);
            assert(seq_rev(rev@).subrange(0, i + 1)
                == seq_rev(rev@).subrange(0, i as int).push(seq_rev(rev@)[i as int]));
        }
        r.push(rev[len - 1 - i]);
        i = i + 1;
    }
    proof {
        lemma_seq_rev_len(rev@);
        assert(seq_rev(rev@).subrange(0, seq_rev(rev@).len() as int) == seq_rev(rev@));
    }
    r
}

/// The canonical decimal text of a signed 32-bit value.
pub fn i32_chars(n: i32) -> (r: Vec<char>)
    ensures
        r@ == int_text(n as int),
{
    if n >= 0 {
        u64_chars(n as u64)
    } else {
        let m: u64 = (-(n as i64)) as u64;
        let digits = u64_chars(m);
        let mut r: Vec<char> = Vec::new();
        r.push('-');
        let mut i: usize = 0;
        while i < digits.len()
            invariant
                i <= digits@.len(),
                r@ == seq!['-'] + digits@.subrange(0, i as int),
            decreases digits@.len() - i,
        {
            proof {
                assert(digits@.subrange(0, i + 1)
                    == digits@.subrange(0, i as int).push(digits@[i as int]));
            }
            r.push(digits[i]);
            i = i + 1;
        }
        proof {
            assert(digits@.subrange(0, digits@.len() as int) == digits@);
        }
        r
    }
}

/// Relies on `num::bigint::BigInt::from_bytes_le` to build the integer with
/// the given sign and little-endian base-256 digits, and on its `Display`
/// impl, which prints the exact decimal value.
#[verifier::external_body]
pub(crate) fn bigint_chars(negative: bool, digits: &Vec<u8>) -> (r: Vec<char>)
    ensures
        r@ == int_text(big_value(negative, digits@)),
{
    let sign = if negative { num::bigint::Sign::Minus } else { num::bigint::Sign::Plus };
    let n = num::bigint::BigInt::from_bytes_le(sign, digits.as_slice());
    format!("{}", n).chars().collect()
}

} // verus!
