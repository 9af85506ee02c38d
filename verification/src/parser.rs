use vstd::prelude::*;

use crate::bertterm::{lemma_seq_deep_push, seq_deep, BertTerm, FloatEnc, FloatV, TermV};
use crate::error::BertError;
use crate::floatlit::{is_float_literal, is_float_text};
use crate::symtable::Symtable;

verus! {

pub const BERT_MAGIC_NUMBER: u8 = 131;

pub const SMALL_INTEGER_EXT: u8 = 97;

pub const INTEGER_EXT: u8 = 98;

pub const FLOAT_EXT: u8 = 99;

pub const ATOM_EXT: u8 = 100;

pub const SMALL_ATOM_EXT: u8 = 115;

pub const SMALL_TUPLE_EXT: u8 = 104;

pub const LARGE_TUPLE_EXT: u8 = 105;

pub const NIL_EXT: u8 = 106;

pub const STRING_EXT: u8 = 107;

pub const LIST_EXT: u8 = 108;

pub const BINARY_EXT: u8 = 109;

pub const SMALL_BIG_EXT: u8 = 110;

pub const LARGE_BIG_EXT: u8 = 111;

pub const ATOM_UTF8_EXT: u8 = 118;

pub const SMALL_ATOM_UTF8_EXT: u8 = 119;

pub const NEW_FLOAT_EXT: u8 = 70;

pub const MAP_EXT: u8 = 116;

/// The spec-level state of a decode session: the cursor position, the
/// symbol table contents, and the float table contents.
pub ghost struct PState {
    pub pos: int,
    pub tab: Seq<char>,
    pub floats: Seq<FloatV>,
}

/// The spec-level float table entries.
pub open spec fn deep_floats(fs: Seq<FloatEnc>) -> Seq<FloatV> {
    fs.map_values(|f: FloatEnc| f.deep())
}

/// The offset that an out-of-input read at `pos` reports: reads advance one
/// byte at a time, so the failing read happens at the end of the buffer.
pub open spec fn eof_at(bytes: Seq<u8>, pos: int) -> int {
    if pos >= bytes.len() {
        pos
    } else {
        bytes.len() as int
    }
}

/// Reading one byte.
pub open spec fn sp_u8(bytes: Seq<u8>, pos: int) -> Result<(u8, int), BertError> {
    if 0 <= pos < bytes.len() {
        Ok((bytes[pos], pos + 1))
    } else {
        Err(BertError::EOF(pos as usize))
    }
}

/// Reading a run of `n` raw bytes.
pub open spec fn sp_take(bytes: Seq<u8>, pos: int, n: int) -> Result<(Seq<u8>, int), BertError> {
    if 0 <= pos && 0 <= n && pos + n <= bytes.len() {
        Ok((bytes.subrange(pos, pos + n), pos + n))
    } else {
        Err(BertError::EOF(eof_at(bytes, pos) as usize))
    }
}

/// 256 to the `n`.
pub open spec fn pow256(n: int) -> nat
    decreases n,
{
    if n <= 0 {
        1
    } else {
        256 * pow256(n - 1)
    }
}

/// The big-endian value of the `n` bytes at `pos`.
pub open spec fn be_val(bytes: Seq<u8>, pos: int, n: int) -> nat
    decreases n,
{
    if n <= 0 {
        0
    } else {
        (be_val(bytes, pos, n - 1) * 256 + bytes[pos + n - 1]) as nat
    }
}

/// Reading an `n`-byte big-endian unsigned value.
pub open spec fn sp_be(bytes: Seq<u8>, pos: int, n: int) -> Result<(nat, int), BertError> {
    if 0 <= pos && pos + n <= bytes.len() {
        Ok((be_val(bytes, pos, n), pos + n))
    } else {
        Err(BertError::EOF(eof_at(bytes, pos) as usize))
    }
}

/// The 32-bit two's-complement reading of a 4-byte big-endian value.
pub open spec fn as_i32(v: nat) -> int {
    if v < 0x8000_0000 {
        v as int
    } else {
        v - 0x1_0000_0000
    }
}

proof fn lemma_pow256_vals()
    ensures
        pow256(0) == 1,
        pow256(1) == 0x100,
        pow256(2) == 0x10000,
        pow256(3) == 0x1000000,
        pow256(4) == 0x100000000,
        pow256(5) == 0x10000000000,
        pow256(6) == 0x1000000000000,
        pow256(7) == 0x100000000000000,
        pow256(8) == 0x10000000000000000,
{
    assert(pow256(0) == 1);
    assert(pow256(1) == 0x100);
    assert(pow256(2) == 0x10000);
    assert(pow256(3) == 0x1000000);
    assert(pow256(4) == 0x100000000);
    assert(pow256(5) == 0x10000000000);
    assert(pow256(6) == 0x1000000000000);
    assert(pow256(7) == 0x100000000000000);
    assert(pow256(8) == 0x10000000000000000);
}

/// Decoding the characters of a Latin-1 atom payload: every byte is the
/// character with the same code.
pub open spec fn latin1_chars(s: Seq<u8>) -> Seq<char> {
    s.map_values(|b: u8| b as char)
}

/// The bytes that a varint read at `pos` consumes, with at most `budget`
/// bytes: bytes with the continuation bit set, up to and including the first
/// byte without it, cut short by the budget or the end of the input.
pub open spec fn varint_take(bytes: Seq<u8>, pos: int, budget: int) -> Seq<u8>
    decreases budget,
{
    if budget <= 0 || pos < 0 || pos >= bytes.len() {
        Seq::empty()
    } else if bytes[pos] < 0x80 {
        seq![bytes[pos]]
    } else {
        seq![bytes[pos]] + varint_take(bytes, pos + 1, budget - 1)
    }
}

/// The value of varint bytes: the low seven bits of each byte, least
/// significant group first.
pub open spec fn vv(s: Seq<u8>) -> nat
    decreases s.len(),
{
    if s.len() == 0 {
        0
    } else {
        ((s[0] % 128) + 128 * vv(s.drop_first())) as nat
    }
}

/// 128 to the `n`.
pub open spec fn pow128(n: int) -> nat
    decreases n,
{
    if n <= 0 {
        1
    } else {
        128 * pow128(n - 1)
    }
}

proof fn lemma_vv_bound(s: Seq<u8>)
    ensures
        vv(s) < pow128(s.len() as int),
    decreases s.len(),
{
    if s.len() > 0 {
        lemma_vv_bound(s.drop_first());
        assert(vv(s) == (s[0] % 128) + 128 * vv(s.drop_first()));
        assert(128 * vv(s.drop_first()) <= 128 * (pow128(s.len() - 1) - 1)) by (nonlinear_arith)
            requires
                vv(s.drop_first()) <= pow128(s.len() - 1) - 1,
        ;
    }
}

proof fn lemma_vv_snoc(s: Seq<u8>, b: u8)
    ensures
        vv(s.push(b)) == vv(s) + pow128(s.len() as int) * (b % 128),
    decreases s.len(),
{
    if s.len() == 0 {
        assert(s.push(b)[0] == b);
        assert(s.push(b).drop_first() =~= Seq::<u8>::empty());
        assert(vv(Seq::<u8>::empty()) == 0);
        assert(s =~= Seq::<u8>::empty());
        assert(vv(s.push(b)) == b % 128);
        assert(pow128(0) == 1);
        assert(vv(s) + pow128(s.len() as int) * (b % 128) == b % 128);
    } else {
        assert(s.push(b)[0] == s[0]);
        assert(s.push(b).drop_first() =~= s.drop_first().push(b));
        lemma_vv_snoc(s.drop_first(), b);
        assert(vv(s.push(b)) == (s[0] % 128) + 128 * vv(s.drop_first().push(b)));
        assert(128 * (vv(s.drop_first()) + pow128(s.len() - 1) * (b % 128)) == 128 * vv(
            s.drop_first(),
        ) + 128 * pow128(s.len() - 1) * (b % 128)) by (nonlinear_arith);
        assert(128 * pow128(s.len() - 1) == pow128(s.len() as int));
        assert(vv(s) == (s[0] % 128) + 128 * vv(s.drop_first()));
        assert(vv(s.push(b)) == (s[0] % 128) + 128 * vv(s.drop_first()) + 128 * pow128(
            s.len() - 1,
        ) * (b % 128));
        assert(pow128(s.len() as int) * (b % 128) == 128 * pow128(s.len() - 1) * (b % 128))
            by (nonlinear_arith)
            requires
                pow128(s.len() as int) == 128 * pow128(s.len() - 1),
        ;
    }
}

proof fn lemma_pow128_vals()
    ensures
        pow128(0) == 1,
        pow128(1) == 0x80,
        pow128(2) == 0x4000,
        pow128(3) == 0x200000,
        pow128(4) == 0x10000000,
        pow128(5) == 0x800000000,
        pow128(6) == 0x40000000000,
        pow128(7) == 0x2000000000000,
        pow128(8) == 0x100000000000000,
{
    assert(pow128(0) == 1);
    assert(pow128(1) == 0x80);
    assert(pow128(2) == 0x4000);
    assert(pow128(3) == 0x200000);
    assert(pow128(4) == 0x10000000);
    assert(pow128(5) == 0x800000000);
    assert(pow128(6) == 0x40000000000);
    assert(pow128(7) == 0x2000000000000);
    assert(pow128(8) == 0x100000000000000);
}

/// Reading a varint: its bytes are `varint_take`; the read fails as
/// oversized when eight bytes were consumed and the continuation bit of the
/// last one is still set.
pub open spec fn sp_varint(bytes: Seq<u8>, pos: int) -> Result<(u64, int), BertError> {
    let s = varint_take(bytes, pos, 8);
    if s.len() == 8 && s[7] >= 0x80 {
        Err(BertError::VarintTooLarge(pos as usize))
    } else {
        Ok((vv(s) as u64, pos + s.len()))
    }
}

/// The first position at or after `i` that holds a zero byte, or the end.
pub open spec fn nonzero_end(bytes: Seq<u8>, i: int) -> int
    decreases bytes.len() - i,
{
    if 0 <= i < bytes.len() && bytes[i] != 0 {
        nonzero_end(bytes, i + 1)
    } else {
        i
    }
}

/// The first position at or after `i` that holds a non-zero byte, or the end.
pub open spec fn zeros_end(bytes: Seq<u8>, i: int) -> int
    decreases bytes.len() - i,
{
    if 0 <= i < bytes.len() && bytes[i] == 0 {
        zeros_end(bytes, i + 1)
    } else {
        i
    }
}

/// Reading the format marker byte.
pub open spec fn sp_magic(bytes: Seq<u8>, pos: int) -> Result<int, BertError> {
    match sp_u8(bytes, pos) {
        Ok((b, p1)) => if b == BERT_MAGIC_NUMBER {
            Ok(p1)
        } else {
            Err(BertError::InvalidMagicNumber(pos as usize))
        },
        Err(e) => Err(e),
    }
}

/// Interning atom text: the term holds a handle to the appended region.
pub open spec fn sp_intern(st: PState, chars: Seq<char>, newpos: int) -> (TermV, PState) {
    (
        TermV::Atom { offset: st.tab.len() as usize, length: chars.len() as usize },
        PState { pos: newpos, tab: st.tab + chars, floats: st.floats },
    )
}

/// Decoding an atom with a Latin-1 (or plain ASCII) payload of `len` bytes.
/// Every byte is a valid Latin-1 codepoint, so this never fails except at
/// the end of the input.
pub open spec fn sp_atom(bytes: Seq<u8>, st: PState, len: int) -> Result<(TermV, PState), BertError> {
    match sp_take(bytes, st.pos, len) {
        Ok((payload, p2)) => Ok(sp_intern(st, latin1_chars(payload), p2)),
        Err(e) => Err(e),
    }
}

/// Decoding an atom with a UTF-8 payload of `len` bytes; the payload must be
/// valid UTF-8.
pub open spec fn sp_atom_utf8(bytes: Seq<u8>, st: PState, len: int) -> Result<
    (TermV, PState),
    BertError,
> {
    match sp_take(bytes, st.pos, len) {
        Ok((payload, p2)) => if vstd::utf8::valid_utf8(payload) {
            Ok(sp_intern(st, vstd::utf8::decode_utf8(payload), p2))
        } else {
            Err(BertError::InvalidUTF8Atom(st.pos as usize))
        },
        Err(e) => Err(e),
    }
}

/// Decoding a legacy float: its text runs to the first zero byte (or the
/// end), the padding zero bytes after it are consumed, and the text must be
/// a float literal. The raw text is appended to the float table.
pub open spec fn sp_old_float(bytes: Seq<u8>, st: PState) -> Result<(TermV, PState), BertError> {
    let t_end = nonzero_end(bytes, st.pos);
    let text = bytes.subrange(st.pos, t_end);
    let p2 = zeros_end(bytes, t_end);
    if is_float_literal(text) {
        Ok(
            (
                TermV::Float { idx: st.floats.len() as usize },
                PState { pos: p2, tab: st.tab, floats: st.floats.push(FloatV::Text(text)) },
            ),
        )
    } else {
        Err(BertError::InvalidFloat(st.pos as usize))
    }
}

/// Decoding an 8-byte IEEE float payload: its bits are appended to the
/// float table.
pub open spec fn sp_new_float(bytes: Seq<u8>, st: PState) -> Result<(TermV, PState), BertError> {
    match sp_be(bytes, st.pos, 8) {
        Ok((v, p2)) => Ok(
            (
                TermV::Float { idx: st.floats.len() as usize },
                PState { pos: p2, tab: st.tab, floats: st.floats.push(FloatV::Ieee(v as u64)) },
            ),
        ),
        Err(e) => Err(e),
    }
}

/// Decoding an arbitrary-precision integer: one sign byte (1 means
/// negative), then `len` base-256 digit bytes, least significant first.
pub open spec fn sp_bigint(bytes: Seq<u8>, st: PState, len: int) -> Result<
    (TermV, PState),
    BertError,
> {
    match sp_u8(bytes, st.pos) {
        Ok((sign, p1)) => match sp_take(bytes, p1, len) {
            Ok((digits, p2)) => Ok(
                (TermV::BigInt { negative: sign == 1, digits }, PState { pos: p2, ..st }),
            ),
            Err(e) => Err(e),
        },
        Err(e) => Err(e),
    }
}

/// Decoding a string: a 2-byte length then that many raw bytes.
pub open spec fn sp_string(bytes: Seq<u8>, st: PState) -> Result<(TermV, PState), BertError> {
    match sp_be(bytes, st.pos, 2) {
        Ok((len, p1)) => match sp_take(bytes, p1, len as int) {
            Ok((bs, p2)) => Ok((TermV::Str(bs), PState { pos: p2, ..st })),
            Err(e) => Err(e),
        },
        Err(e) => Err(e),
    }
}

/// Decoding a binary: a 4-byte length then that many raw bytes.
pub open spec fn sp_binary(bytes: Seq<u8>, st: PState) -> Result<(TermV, PState), BertError> {
    match sp_be(bytes, st.pos, 4) {
        Ok((len, p1)) => match sp_take(bytes, p1, len as int) {
            Ok((bs, p2)) => Ok((TermV::Binary(bs), PState { pos: p2, ..st })),
            Err(e) => Err(e),
        },
        Err(e) => Err(e),
    }
}

/// Decoding a one-byte unsigned integer term.
pub open spec fn sp_small_integer(bytes: Seq<u8>, st: PState) -> Result<(TermV, PState), BertError> {
    match sp_u8(bytes, st.pos) {
        Ok((b, p2)) => Ok((TermV::Int(b as i32), PState { pos: p2, ..st })),
        Err(e) => Err(e),
    }
}

/// Decoding a 4-byte big-endian signed integer term.
pub open spec fn sp_integer(bytes: Seq<u8>, st: PState) -> Result<(TermV, PState), BertError> {
    match sp_be(bytes, st.pos, 4) {
        Ok((v, p2)) => Ok((TermV::Int(as_i32(v) as i32), PState { pos: p2, ..st })),
        Err(e) => Err(e),
    }
}

/// Decoding one term at the state `st`: a tag byte, then the payload shape
/// the tag selects.
pub open spec fn sp_term(bytes: Seq<u8>, st: PState) -> Result<(TermV, PState), BertError>
    decreases bytes.len() - st.pos, 0int, 0int,
{
    let offset = st.pos;
    match sp_u8(bytes, st.pos) {
        Err(e) => Err(e),
        Ok((tag, p1)) => {
            let st1 = PState { pos: p1, ..st };
            if tag == SMALL_INTEGER_EXT {
                sp_small_integer(bytes, st1)
            } else if tag == INTEGER_EXT {
                sp_integer(bytes, st1)
            } else if tag == FLOAT_EXT {
                sp_old_float(bytes, st1)
            } else if tag == NEW_FLOAT_EXT {
                sp_new_float(bytes, st1)
            } else if tag == ATOM_EXT {
                match sp_be(bytes, p1, 2) {
                    Ok((len, p2)) => sp_atom(bytes, PState { pos: p2, ..st }, len as int),
                    Err(e) => Err(e),
                }
            } else if tag == SMALL_ATOM_EXT {
                match sp_u8(bytes, p1) {
                    Ok((len, p2)) => sp_atom(bytes, PState { pos: p2, ..st }, len as int),
                    Err(e) => Err(e),
                }
            } else if tag == ATOM_UTF8_EXT {
                match sp_be(bytes, p1, 2) {
                    Ok((len, p2)) => sp_atom_utf8(bytes, PState { pos: p2, ..st }, len as int),
                    Err(e) => Err(e),
                }
            } else if tag == SMALL_ATOM_UTF8_EXT {
                match sp_u8(bytes, p1) {
                    Ok((len, p2)) => sp_atom_utf8(bytes, PState { pos: p2, ..st }, len as int),
                    Err(e) => Err(e),
                }
            } else if tag == SMALL_TUPLE_EXT {
                match sp_u8(bytes, p1) {
                    Ok((len, p2)) => match sp_terms(bytes, PState { pos: p2, ..st }, len as int) {
                        Ok((ts, st2)) => Ok((TermV::Tuple(ts), st2)),
                        Err(e) => Err(e),
                    },
                    Err(e) => Err(e),
                }
            } else if tag == LARGE_TUPLE_EXT {
                match sp_be(bytes, p1, 4) {
                    Ok((len, p2)) => match sp_terms(bytes, PState { pos: p2, ..st }, len as int) {
                        Ok((ts, st2)) => Ok((TermV::Tuple(ts), st2)),
                        Err(e) => Err(e),
                    },
                    Err(e) => Err(e),
                }
            } else if tag == NIL_EXT {
                Ok((TermV::Nil, st1))
            } else if tag == LIST_EXT {
                sp_list(bytes, st1)
            } else if tag == STRING_EXT {
                sp_string(bytes, st1)
            } else if tag == BINARY_EXT {
                sp_binary(bytes, st1)
            } else if tag == SMALL_BIG_EXT {
                match sp_u8(bytes, p1) {
                    Ok((len, p2)) => sp_bigint(bytes, PState { pos: p2, ..st }, len as int),
                    Err(e) => Err(e),
                }
            } else if tag == LARGE_BIG_EXT {
                match sp_be(bytes, p1, 4) {
                    Ok((len, p2)) => sp_bigint(bytes, PState { pos: p2, ..st }, len as int),
                    Err(e) => Err(e),
                }
            } else if tag == MAP_EXT {
                sp_map(bytes, st1)
            } else {
                Err(BertError::InvalidTag(offset as usize, tag))
            }
        },
    }
}

/// Decoding `n` consecutive terms.
pub open spec fn sp_terms(bytes: Seq<u8>, st: PState, n: int) -> Result<
    (Seq<TermV>, PState),
    BertError,
>
    decreases bytes.len() - st.pos, 1int, n,
{
    if n <= 0 {
        Ok((Seq::empty(), st))
    } else {
        match sp_term(bytes, st) {
            Ok((t, st1)) => if st.pos < st1.pos && st1.pos <= bytes.len() {
                match sp_terms(bytes, st1, n - 1) {
                    Ok((rest, st2)) => Ok((seq![t] + rest, st2)),
                    Err(e) => Err(e),
                }
            } else {
                // a successful parse always consumes at least the tag byte,
                // so this branch is unreachable
                Err(BertError::EOF(st1.pos as usize))
            },
            Err(e) => Err(e),
        }
    }
}

/// Decoding a list: a 4-byte element count, that many terms, then one tail
/// term. A `Nil` tail is dropped; any other tail is appended as a trailing
/// element.
pub open spec fn sp_list(bytes: Seq<u8>, st: PState) -> Result<(TermV, PState), BertError>
    decreases bytes.len() - st.pos, 2int, 0int,
{
    match sp_be(bytes, st.pos, 4) {
        Ok((len, p1)) => match sp_terms(bytes, PState { pos: p1, ..st }, len as int) {
            Ok((ts, st2)) => if st.pos < st2.pos && st2.pos <= bytes.len() {
                match sp_term(bytes, st2) {
                    Ok((tail, st3)) => if tail == TermV::Nil {
                        Ok((TermV::List(ts), st3))
                    } else {
                        Ok((TermV::List(ts.push(tail)), st3))
                    },
                    Err(e) => Err(e),
                }
            } else {
                // the four length bytes were already consumed, so this
                // branch is unreachable
                Err(BertError::EOF(st2.pos as usize))
            },
            Err(e) => Err(e),
        },
        Err(e) => Err(e),
    }
}

/// Decoding `n` key/value pairs, read in strict alternation.
pub open spec fn sp_pairs(bytes: Seq<u8>, st: PState, n: int) -> Result<
    (Seq<TermV>, Seq<TermV>, PState),
    BertError,
>
    decreases bytes.len() - st.pos, 1int, n,
{
    if n <= 0 {
        Ok((Seq::empty(), Seq::empty(), st))
    } else {
        match sp_term(bytes, st) {
            Ok((k, st1)) => if st.pos < st1.pos && st1.pos <= bytes.len() {
                match sp_term(bytes, st1) {
                    Ok((v, st2)) => if st1.pos < st2.pos && st2.pos <= bytes.len() {
                        match sp_pairs(bytes, st2, n - 1) {
                            Ok((rks, rvs, st3)) => Ok((seq![k] + rks, seq![v] + rvs, st3)),
                            Err(e) => Err(e),
                        }
                    } else {
                        // unreachable: a successful parse always advances
                        Err(BertError::EOF(st2.pos as usize))
                    },
                    Err(e) => Err(e),
                }
            } else {
                // unreachable: a successful parse always advances
                Err(BertError::EOF(st1.pos as usize))
            },
            Err(e) => Err(e),
        }
    }
}

/// Decoding a map: a 4-byte pair count then that many key/value pairs.
pub open spec fn sp_map(bytes: Seq<u8>, st: PState) -> Result<(TermV, PState), BertError>
    decreases bytes.len() - st.pos, 2int, 0int,
{
    match sp_be(bytes, st.pos, 4) {
        Ok((len, p1)) => match sp_pairs(bytes, PState { pos: p1, ..st }, len as int) {
            Ok((ks, vs, st2)) => Ok((TermV::Dict(ks, vs), st2)),
            Err(e) => Err(e),
        },
        Err(e) => Err(e),
    }
}

/// Decoding one top-level term: the format marker, one term, and nothing
/// after it.
pub open spec fn sp_parse(bytes: Seq<u8>, st: PState) -> Result<(TermV, PState), BertError> {
    match sp_magic(bytes, st.pos) {
        Ok(p1) => match sp_term(bytes, PState { pos: p1, ..st }) {
            Ok((t, st2)) => if st2.pos == bytes.len() {
                Ok((t, st2))
            } else {
                Err(BertError::ExtraData(st2.pos as usize))
            },
            Err(e) => Err(e),
        },
        Err(e) => Err(e),
    }
}

/// Decoding length-prefixed records until the input is exhausted: each
/// record is a varint byte length, the format marker, and one term.
pub open spec fn sp_records(bytes: Seq<u8>, st: PState) -> Result<(Seq<TermV>, PState), BertError>
    decreases bytes.len() - st.pos, 2int, 0int,
{
    if st.pos >= bytes.len() {
        Ok((Seq::empty(), st))
    } else {
        match sp_varint(bytes, st.pos) {
            Ok((_len, p1)) => match sp_magic(bytes, p1) {
                Ok(p2) => if st.pos < p2 && p2 <= bytes.len() {
                    match sp_term(bytes, PState { pos: p2, ..st }) {
                        Ok((t, st1)) => if st.pos < st1.pos && st1.pos <= bytes.len() {
                            match sp_records(bytes, st1) {
                                Ok((rest, st2)) => Ok((seq![t] + rest, st2)),
                                Err(e) => Err(e),
                            }
                        } else {
                            // unreachable: a successful parse always advances
                            Err(BertError::EOF(st1.pos as usize))
                        },
                        Err(e) => Err(e),
                    }
                } else {
                    // unreachable: the marker byte was consumed
                    Err(BertError::EOF(p2 as usize))
                },
                Err(e) => Err(e),
            },
            Err(e) => Err(e),
        }
    }
}

/// A decode session: the input buffer, the cursor, and the symbol and float
/// tables that the decoded terms refer into.
#[derive(Debug)]
pub struct Parser {
    contents: Vec<u8>,
    pos: usize,
    symtable: Symtable,
    floats: Vec<FloatEnc>,
}

/// Relies on `core::str::from_utf8`, which accepts exactly the valid UTF-8
/// byte sequences, and on `str::chars`, which yields the characters they
/// encode.
#[verifier::external_body]
fn utf8_chars(v: &Vec<u8>) -> (r: Option<Vec<char>>)
    ensures
        r is Some <==> vstd::utf8::valid_utf8(v@),
        r is Some ==> r->0@ == vstd::utf8::decode_utf8(v@),
{
    match core::str::from_utf8(v.as_slice()) {
        Ok(s) => Some(s.chars().collect()),
        Err(_) => None,
    }
}

impl Parser {
    /// The input bytes.
    pub closed spec fn bytes(&self) -> Seq<u8> {
        self.contents@
    }

    /// The decode state: cursor, symbol table, float table.
    pub closed spec fn st(&self) -> PState {
        PState { pos: self.pos as int, tab: self.symtable@, floats: deep_floats(self.floats@) }
    }

    /// The cursor never leaves the buffer.
    pub closed spec fn wf(&self) -> bool {
        self.pos <= self.contents@.len()
    }

    /// How any step of the decoder relates the session after to the session
    /// before: the buffer is unchanged, the cursor does not move backwards,
    /// and the two tables only grow.
    pub open spec fn frame(pre: Parser, post: Parser) -> bool {
        &&& post.bytes() == pre.bytes()
        &&& post.wf()
        &&& post.st().pos >= pre.st().pos
        &&& pre.st().tab.is_prefix_of(post.st().tab)
        &&& pre.st().floats.is_prefix_of(post.st().floats)
    }

    proof fn lemma_frame_trans(a: Parser, b: Parser, c: Parser)
        requires
            Parser::frame(a, b),
            Parser::frame(b, c),
        ensures
            Parser::frame(a, c),
    {
        assert(a.st().tab.is_prefix_of(c.st().tab)) by {
            assert(c.st().tab.subrange(0, a.st().tab.len() as int) =~= b.st().tab.subrange(
                0,
                a.st().tab.len() as int,
            ));
        }
        assert(a.st().floats.is_prefix_of(c.st().floats)) by {
            assert(c.st().floats.subrange(0, a.st().floats.len() as int)
                =~= b.st().floats.subrange(0, a.st().floats.len() as int));
        }
    }

    /// Creates a parser over the given buffer with an empty symbol table and
    /// an empty float table.
    pub fn new(contents: Vec<u8>) -> (r: Parser)
        ensures
            r.bytes() == contents@,
            r.st().pos == 0,
            r.st().tab == Seq::<char>::empty(),
            r.st().floats == Seq::<FloatV>::empty(),
            r.wf(),
    {
        let r = Parser { contents, pos: 0, symtable: Symtable::new(), floats: Vec::new() };
        proof {
            assert(deep_floats(r.floats@) =~= Seq::<FloatV>::empty());
        }
        r
    }

    /// The symbol table that the atoms of the decoded terms refer into.
    pub fn symtable(&self) -> (r: &Symtable)
        ensures
            r@ == self.st().tab,
    {
        &self.symtable
    }

    /// The float table that the floats of the decoded terms refer into.
    pub fn floats(&self) -> (r: &Vec<FloatEnc>)
        ensures
            deep_floats(r@) == self.st().floats,
    {
        &self.floats
    }

    /// Whether the cursor is at the end of the input.
    pub fn eof(&self) -> (r: bool)
        ensures
            r == (self.st().pos >= self.bytes().len()),
    {
        self.pos >= self.contents.len()
    }

    fn eat_u8(&mut self) -> (r: Result<u8, BertError>)
        requires
            old(self).wf(),
        ensures
            final(self).wf(),
            final(self).bytes() == old(self).bytes(),
            final(self).st().tab == old(self).st().tab,
            final(self).st().floats == old(self).st().floats,
            match r {
                Ok(b) => sp_u8(old(self).bytes(), old(self).st().pos) == Ok::<(u8, int), BertError>(
                    (b, final(self).st().pos),
                ),
                Err(e) => sp_u8(old(self).bytes(), old(self).st().pos) == Err::<
                    (u8, int),
                    BertError,
                >(e) && final(self).st() == old(self).st(),
            },
    {
        if self.pos < self.contents.len() {
            let b = self.contents[self.pos];
            self.pos = self.pos + 1;
            Ok(b)
        } else {
            Err(BertError::EOF(self.pos))
        }
    }

    /// Reads an `n`-byte big-endian unsigned value, for `n` up to 8.
    fn eat_be(&mut self, n: usize) -> (r: Result<u64, BertError>)
        requires
            old(self).wf(),
            n <= 8,
        ensures
            final(self).wf(),
            final(self).bytes() == old(self).bytes(),
            final(self).st().tab == old(self).st().tab,
            final(self).st().floats == old(self).st().floats,
            final(self).st().pos >= old(self).st().pos,
            match r {
                Ok(v) => sp_be(old(self).bytes(), old(self).st().pos, n as int) == Ok::<
                    (nat, int),
                    BertError,
                >((v as nat, final(self).st().pos)) && (v as nat) < pow256(n as int),
                Err(e) => sp_be(old(self).bytes(), old(self).st().pos, n as int) == Err::<
                    (nat, int),
                    BertError,
                >(e),
            },
    {
        proof {
            lemma_pow256_vals();
        }
        if self.contents.len() - self.pos < n {
            return Err(BertError::EOF(self.contents.len()));
        }
        let ghost start = self.pos as int;
        let clen = self.contents.len();
        let mut v: u64 = 0;
        let mut i: usize = 0;
        while i < n
            invariant
                i <= n,
                n <= 8,
                clen as int == self.bytes().len(),
                self.wf(),
                self.bytes() == old(self).bytes(),
                self.st().tab == old(self).st().tab,
                self.st().floats == old(self).st().floats,
                start == old(self).st().pos,
                self.pos as int == start + i,
                start + n <= clen as int,
                v as nat == be_val(self.bytes(), start, i as int),
                (v as nat) < pow256(i as int),
                pow256(8) == 0x10000000000000000,
                pow256(7) == 0x100000000000000,
            decreases n - i,
        {
            proof {
                lemma_pow256_vals();
                assert((v as nat) * 256 + 255 < pow256(i + 1)) by (nonlinear_arith)
                    requires
                        (v as nat) < pow256(i as int),
                        pow256(i + 1) == 256 * pow256(i as int),
                ;
                assert(pow256(i + 1) <= pow256(8)) by {
                    lemma_pow256_le(i + 1, 8);
                }
            }
            let b = self.contents[self.pos];
            v = v * 256 + (b as u64);
            self.pos = self.pos + 1;
            i = i + 1;
        }
        Ok(v)
    }

    /// Reads `n` raw bytes.
    fn take_bytes(&mut self, n: usize) -> (r: Result<Vec<u8>, BertError>)
        requires
            old(self).wf(),
        ensures
            final(self).wf(),
            final(self).bytes() == old(self).bytes(),
            final(self).st().tab == old(self).st().tab,
            final(self).st().floats == old(self).st().floats,
            final(self).st().pos >= old(self).st().pos,
            match r {
                Ok(bs) => sp_take(old(self).bytes(), old(self).st().pos, n as int) == Ok::<
                    (Seq<u8>, int),
                    BertError,
                >((bs@, final(self).st().pos)),
                Err(e) => sp_take(old(self).bytes(), old(self).st().pos, n as int) == Err::<
                    (Seq<u8>, int),
                    BertError,
                >(e),
            },
    {
        if self.contents.len() - self.pos < n {
            return Err(BertError::EOF(self.contents.len()));
        }
        let ghost start = self.pos as int;
        let clen = self.contents.len();
        let mut bs: Vec<u8> = Vec::new();
        let mut i: usize = 0;
        while i < n
            invariant
                i <= n,
                clen as int == self.bytes().len(),
                self.wf(),
                self.bytes() == old(self).bytes(),
                self.st().tab == old(self).st().tab,
                self.st().floats == old(self).st().floats,
                start == old(self).st().pos,
                self.pos as int == start + i,
                start + n <= clen as int,
                bs@ == self.bytes().subrange(start, start + i),
            decreases n - i,
        {
            let b = self.contents[self.pos];
            bs.push(b);
            self.pos = self.pos + 1;
            proof {
                assert(self.bytes().subrange(start, start + i + 1) =~= self.bytes().subrange(
                    start,
                    start + i,
                ).push(b));
            }
            i = i + 1;
        }
        Ok(bs)
    }

    /// Reads the format marker.
    fn magic_number(&mut self) -> (r: Result<(), BertError>)
        requires
            old(self).wf(),
        ensures
            final(self).wf(),
            final(self).bytes() == old(self).bytes(),
            final(self).st().tab == old(self).st().tab,
            final(self).st().floats == old(self).st().floats,
            final(self).st().pos >= old(self).st().pos,
            match r {
                Ok(_) => sp_magic(old(self).bytes(), old(self).st().pos) == Ok::<int, BertError>(
                    final(self).st().pos,
                ) && final(self).st().pos > old(self).st().pos,
                Err(e) => sp_magic(old(self).bytes(), old(self).st().pos) == Err::<int, BertError>(
                    e,
                ),
            },
    {
        let offset = self.pos;
        match self.eat_u8() {
            Ok(magic) => {
                if magic != BERT_MAGIC_NUMBER {
                    Err(BertError::InvalidMagicNumber(offset))
                } else {
                    Ok(())
                }
            },
            Err(e) => Err(e),
        }
    }

    /// Reads a variable-length integer: seven value bits per byte, least
    /// significant group first, the high bit of each byte signalling that
    /// more bytes follow, with a budget of eight bytes.
    pub fn parse_varint(&mut self) -> (r: Result<u64, BertError>)
        requires
            old(self).wf(),
        ensures
            final(self).wf(),
            final(self).bytes() == old(self).bytes(),
            final(self).st().tab == old(self).st().tab,
            final(self).st().floats == old(self).st().floats,
            final(self).st().pos >= old(self).st().pos,
            match r {
                Ok(v) => sp_varint(old(self).bytes(), old(self).st().pos) == Ok::<
                    (u64, int),
                    BertError,
                >((v, final(self).st().pos)),
                Err(e) => sp_varint(old(self).bytes(), old(self).st().pos) == Err::<
                    (u64, int),
                    BertError,
                >(e),
            },
    {
        let ghost bytes = self.bytes();
        let ghost start = self.pos as int;
        let ghost full = varint_take(bytes, start, 8);
        proof {
            lemma_pow128_vals();
        }
        let start_pos = self.pos;
        let mut x: u64 = 0;
        let mut mult: u64 = 1;
        let mut count: usize = 0;
        while self.pos < self.contents.len() && count < 8
            invariant
                count <= 8,
                self.wf(),
                self.bytes() == bytes,
                bytes == old(self).bytes(),
                self.st().tab == old(self).st().tab,
                self.st().floats == old(self).st().floats,
                start == old(self).st().pos,
                start_pos as int == start,
                self.pos as int == start + count,
                forall|k: int| start <= k < start + count ==> bytes[k] >= 0x80,
                x as nat == vv(bytes.subrange(start, start + count)),
                mult as nat == pow128(count as int),
                mult <= 0x2000000000000 || count == 8,
                x < mult,
                varint_take(bytes, start, 8) == bytes.subrange(start, start + count)
                    + varint_take(bytes, start + count, 8 - count),
            decreases self.contents@.len() - self.pos,
        {
            let ghost pre = bytes.subrange(start, start + count);
            let b = self.contents[self.pos];
            self.pos = self.pos + 1;
            proof {
                lemma_pow128_vals();
                lemma_vv_snoc(pre, b);
                lemma_vv_bound(pre.push(b));
                assert(bytes.subrange(start, start + count + 1) =~= pre.push(b));
                assert((pow128(count as int) - 1) + pow128(count as int) * 127 < pow128(
                    count + 1,
                )) by (nonlinear_arith)
                    requires
                        pow128(count + 1) == 128 * pow128(count as int),
                        pow128(count as int) >= 1,
                ;
                lemma_pow128_le(count + 1, 8);
                assert((((b % 128) as u64) as nat) * (mult as nat) <= 127 * (mult as nat))
                    by (nonlinear_arith)
                    requires
                        ((b % 128) as u64) <= 127,
                ;
            }
            x = x + ((b % 128) as u64) * mult;
            proof {
                assert((((b % 128) as u64) as nat) * (mult as nat) == (mult as nat) * (((b % 128)
                    as u64) as nat)) by (nonlinear_arith);
                assert((mult as nat) * (((b % 128) as u64) as nat) == pow128(count as int) * ((b
                    % 128) as nat)) by (nonlinear_arith)
                    requires
                        mult as nat == pow128(count as int),
                        ((b % 128) as u64) as nat == (b % 128) as nat,
                ;
                assert(x as nat == vv(pre) + pow128(count as int) * ((b % 128) as nat));
                assert(x as nat == vv(pre.push(b)));
            }
            if b < 0x80 {
                proof {
                    assert(varint_take(bytes, start + count, 8 - count) =~= seq![b]);
                    assert(varint_take(bytes, start, 8) =~= pre.push(b));
                    assert(vv(pre.push(b)) == x as nat);
                    if varint_take(bytes, start, 8).len() == 8 {
                        assert(varint_take(bytes, start, 8)[7] == b);
                    }
                }
                return Ok(x);
            }
            proof {
                assert(varint_take(bytes, start + count, 8 - count) == seq![b] + varint_take(
                    bytes,
                    start + count + 1,
                    8 - count - 1,
                ));
                assert(pre + (seq![b] + varint_take(bytes, start + count + 1, 7 - count))
                    =~= pre.push(b) + varint_take(bytes, start + count + 1, 7 - count));
            }
            mult = mult * 128;
            count = count + 1;
        }
        if count >= 8 {
            proof {
                assert(varint_take(bytes, start + count, 0) =~= Seq::<u8>::empty());
                assert(varint_take(bytes, start, 8) =~= bytes.subrange(start, start + 8));
                assert(varint_take(bytes, start, 8)[7] == bytes[start + 7]);
                assert(bytes[start + 7] >= 0x80);
            }
            return Err(BertError::VarintTooLarge(start_pos));
        }
        // the input ended before a byte without the continuation bit
        proof {
            assert(self.pos as int == self.contents@.len());
            assert(varint_take(bytes, start + count, 8 - count) =~= Seq::<u8>::empty());
            assert(varint_take(bytes, start, 8) =~= bytes.subrange(start, start + count));
        }
        Ok(x)
    }
}

proof fn lemma_pow256_le(a: int, b: int)
    requires
        a <= b,
    ensures
        pow256(a) <= pow256(b),
    decreases b,
{
    if a < b && b > 0 {
        lemma_pow256_le(a, b - 1);
        assert(pow256(b) == 256 * pow256(b - 1));
        assert(pow256(b - 1) >= 1) by {
            lemma_pow256_pos(b - 1);
        }
    }
}

proof fn lemma_pow256_pos(n: int)
    ensures
        pow256(n) >= 1,
    decreases n,
{
    if n > 0 {
        lemma_pow256_pos(n - 1);
    }
}

proof fn lemma_pow128_le(a: int, b: int)
    requires
        a <= b,
    ensures
        pow128(a) <= pow128(b),
    decreases b,
{
    if a < b && b > 0 {
        lemma_pow128_le(a, b - 1);
        assert(pow128(b) == 128 * pow128(b - 1));
        assert(pow128(b - 1) >= 1) by {
            lemma_pow128_pos(b - 1);
        }
    }
}

proof fn lemma_pow128_pos(n: int)
    ensures
        pow128(n) >= 1,
    decreases n,
{
    if n > 0 {
        lemma_pow128_pos(n - 1);
    }
}

fn latin1_vec(bs: &Vec<u8>) -> (r: Vec<char>)
    ensures
        r@ == latin1_chars(bs@),
{
    let mut r: Vec<char> = Vec::new();
    let mut i: usize = 0;
    while i < bs.len()
        invariant
            i <= bs@.len(),
            r@.len() == i,
            forall|k: int| 0 <= k < i ==> r@[k] == (bs@[k] as char),
        decreases bs@.len() - i,
    {
        r.push(bs[i] as char);
        i = i + 1;
    }
    proof {
        assert(r@ =~= latin1_chars(bs@));
    }
    r
}

impl Parser {
    /// The common shape of a term-parsing step: the session is framed, and
    /// the result agrees with the spec-level parse `sp`.
    pub open spec fn term_post(
        pre: Parser,
        post: Parser,
        r: Result<BertTerm, BertError>,
        sp: Result<(TermV, PState), BertError>,
    ) -> bool {
        &&& Parser::frame(pre, post)
        &&& match r {
            Ok(t) => sp == Ok::<(TermV, PState), BertError>((t.deep(), post.st())),
            Err(e) => sp == Err::<(TermV, PState), BertError>(e),
        }
    }

    proof fn lemma_frame_keep(pre: Parser, post: Parser)
        requires
            post.bytes() == pre.bytes(),
            post.wf(),
            post.st().pos >= pre.st().pos,
            post.st().tab == pre.st().tab,
            post.st().floats == pre.st().floats,
        ensures
            Parser::frame(pre, post),
    {
        assert(pre.st().tab.is_prefix_of(post.st().tab)) by {
            assert(post.st().tab.subrange(0, pre.st().tab.len() as int) =~= pre.st().tab);
        }
        assert(pre.st().floats.is_prefix_of(post.st().floats)) by {
            assert(post.st().floats.subrange(0, pre.st().floats.len() as int) =~= pre.st().floats);
        }
    }

    fn small_integer(&mut self) -> (r: Result<BertTerm, BertError>)
        requires
            old(self).wf(),
        ensures
            Self::term_post(
                *old(self),
                *final(self),
                r,
                sp_small_integer(old(self).bytes(), old(self).st()),
            ),
    {
        let ghost pre = *self;
        match self.eat_u8() {
            Ok(b) => {
                proof {
                    Self::lemma_frame_keep(pre, *self);
                }
                Ok(BertTerm::Int(b as i32))
            },
            Err(e) => {
                proof {
                    Self::lemma_frame_keep(pre, *self);
                }
                Err(e)
            },
        }
    }

    fn integer(&mut self) -> (r: Result<BertTerm, BertError>)
        requires
            old(self).wf(),
        ensures
            Self::term_post(
                *old(self),
                *final(self),
                r,
                sp_integer(old(self).bytes(), old(self).st()),
            ),
    {
        let ghost pre = *self;
        match self.eat_be(4) {
            Ok(v) => {
                proof {
                    Self::lemma_frame_keep(pre, *self);
                    lemma_pow256_vals();
                }
                let n: i32 = if v < 0x8000_0000 {
                    v as i32
                } else {
                    ((v as i64) - 0x1_0000_0000) as i32
                };
                Ok(BertTerm::Int(n))
            },
            Err(e) => {
                proof {
                    Self::lemma_frame_keep(pre, *self);
                }
                Err(e)
            },
        }
    }

    fn atom(&mut self, len: usize) -> (r: Result<BertTerm, BertError>)
        requires
            old(self).wf(),
        ensures
            Self::term_post(
                *old(self),
                *final(self),
                r,
                sp_atom(old(self).bytes(), old(self).st(), len as int),
            ),
    {
        let ghost pre = *self;
        match self.take_bytes(len) {
            Ok(bs) => {
                let ghost mid = *self;
                let chars = latin1_vec(&bs);
                let handle = self.symtable.add(&chars);
                proof {
                    assert(self.st().tab == mid.st().tab + chars@);
                    assert(mid.st().tab.is_prefix_of(self.st().tab)) by {
                        assert((mid.st().tab + chars@).subrange(0, mid.st().tab.len() as int)
                            =~= mid.st().tab);
                    }
                    assert(pre.st().tab.is_prefix_of(self.st().tab)) by {
                        assert((mid.st().tab + chars@).subrange(0, pre.st().tab.len() as int)
                            =~= pre.st().tab);
                    }
                    assert(pre.st().floats.is_prefix_of(self.st().floats)) by {
                        assert(self.st().floats.subrange(0, pre.st().floats.len() as int)
                            =~= pre.st().floats);
                    }
                }
                Ok(BertTerm::Atom { offset: handle.0, length: handle.1 })
            },
            Err(e) => {
                proof {
                    Self::lemma_frame_keep(pre, *self);
                }
                Err(e)
            },
        }
    }

    fn atom_utf8(&mut self, len: usize) -> (r: Result<BertTerm, BertError>)
        requires
            old(self).wf(),
        ensures
            Self::term_post(
                *old(self),
                *final(self),
                r,
                sp_atom_utf8(old(self).bytes(), old(self).st(), len as int),
            ),
    {
        let ghost pre = *self;
        let offset = self.pos;
        match self.take_bytes(len) {
            Ok(bs) => {
                let ghost mid = *self;
                match utf8_chars(&bs) {
                    Some(chars) => {
                        let handle = self.symtable.add(&chars);
                        proof {
                            assert(self.st().tab == mid.st().tab + chars@);
                            assert(pre.st().tab.is_prefix_of(self.st().tab)) by {
                                assert((mid.st().tab + chars@).subrange(
                                    0,
                                    pre.st().tab.len() as int,
                                ) =~= pre.st().tab);
                            }
                            assert(pre.st().floats.is_prefix_of(self.st().floats)) by {
                                assert(self.st().floats.subrange(0, pre.st().floats.len() as int)
                                    =~= pre.st().floats);
                            }
                        }
                        Ok(BertTerm::Atom { offset: handle.0, length: handle.1 })
                    },
                    None => {
                        proof {
                            Self::lemma_frame_keep(pre, *self);
                        }
                        Err(BertError::InvalidUTF8Atom(offset))
                    },
                }
            },
            Err(e) => {
                proof {
                    Self::lemma_frame_keep(pre, *self);
                }
                Err(e)
            },
        }
    }

    fn new_float(&mut self) -> (r: Result<BertTerm, BertError>)
        requires
            old(self).wf(),
        ensures
            Self::term_post(
                *old(self),
                *final(self),
                r,
                sp_new_float(old(self).bytes(), old(self).st()),
            ),
    {
        let ghost pre = *self;
        match self.eat_be(8) {
            Ok(v) => {
                let idx = self.floats.len();
                let ghost mid = *self;
                self.floats.push(FloatEnc::Ieee(v));
                proof {
                    assert(deep_floats(self.floats@) =~= deep_floats(mid.floats@).push(
                        FloatV::Ieee(v),
                    ));
                    assert(pre.st().floats.is_prefix_of(self.st().floats)) by {
                        assert(self.st().floats.subrange(0, pre.st().floats.len() as int)
                            =~= pre.st().floats);
                    }
                    assert(pre.st().tab.is_prefix_of(self.st().tab)) by {
                        assert(self.st().tab.subrange(0, pre.st().tab.len() as int) =~= pre.st(
                        ).tab);
                    }
                }
                Ok(BertTerm::Float { idx })
            },
            Err(e) => {
                proof {
                    Self::lemma_frame_keep(pre, *self);
                }
                Err(e)
            },
        }
    }

    fn old_float(&mut self) -> (r: Result<BertTerm, BertError>)
        requires
            old(self).wf(),
        ensures
            Self::term_post(
                *old(self),
                *final(self),
                r,
                sp_old_float(old(self).bytes(), old(self).st()),
            ),
    {
        let ghost pre = *self;
        let ghost bytes = self.bytes();
        let start = self.pos;
        let clen = self.contents.len();
        let mut text: Vec<u8> = Vec::new();
        while self.pos < clen && self.contents[self.pos] != 0
            invariant
                clen as int == bytes.len(),
                self.bytes() == bytes,
                self.wf(),
                self.st().tab == pre.st().tab,
                self.st().floats == pre.st().floats,
                start as int == pre.st().pos,
                start <= self.pos <= clen,
                nonzero_end(bytes, start as int) == nonzero_end(bytes, self.pos as int),
                text@ == bytes.subrange(start as int, self.pos as int),
            decreases clen - self.pos,
        {
            let b = self.contents[self.pos];
            text.push(b);
            proof {
                assert(bytes.subrange(start as int, self.pos + 1) =~= bytes.subrange(
                    start as int,
                    self.pos as int,
                ).push(b));
            }
            self.pos = self.pos + 1;
        }
        proof {
            assert(nonzero_end(bytes, self.pos as int) == self.pos as int);
            assert(text@ == bytes.subrange(pre.st().pos, nonzero_end(bytes, pre.st().pos)));
        }
        while self.pos < clen && self.contents[self.pos] == 0
            invariant
                clen as int == bytes.len(),
                self.bytes() == bytes,
                self.wf(),
                self.st().tab == pre.st().tab,
                self.st().floats == pre.st().floats,
                start <= self.pos <= clen,
                text@ == bytes.subrange(pre.st().pos, nonzero_end(bytes, pre.st().pos)),
                zeros_end(bytes, nonzero_end(bytes, pre.st().pos)) == zeros_end(
                    bytes,
                    self.pos as int,
                ),
                self.pos >= start,
            decreases clen - self.pos,
        {
            self.pos = self.pos + 1;
        }
        proof {
            assert(zeros_end(bytes, self.pos as int) == self.pos as int);
        }
        if is_float_text(&text) {
            let idx = self.floats.len();
            let ghost mid = *self;
            let ghost textv = text@;
            self.floats.push(FloatEnc::Text(text));
            proof {
                assert(deep_floats(self.floats@) =~= deep_floats(mid.floats@).push(
                    FloatV::Text(textv),
                ));
                assert(pre.st().floats.is_prefix_of(self.st().floats)) by {
                    assert(self.st().floats.subrange(0, pre.st().floats.len() as int) =~= pre.st(
                    ).floats);
                }
                assert(pre.st().tab.is_prefix_of(self.st().tab)) by {
                    assert(self.st().tab.subrange(0, pre.st().tab.len() as int) =~= pre.st().tab);
                }
            }
            Ok(BertTerm::Float { idx })
        } else {
            proof {
                Self::lemma_frame_keep(pre, *self);
            }
            Err(BertError::InvalidFloat(start))
        }
    }

    fn bigint(&mut self, len: usize) -> (r: Result<BertTerm, BertError>)
        requires
            old(self).wf(),
        ensures
            Self::term_post(
                *old(self),
                *final(self),
                r,
                sp_bigint(old(self).bytes(), old(self).st(), len as int),
            ),
    {
        let ghost pre = *self;
        match self.eat_u8() {
            Ok(sign) => {
                match self.take_bytes(len) {
                    Ok(digits) => {
                        proof {
                            Self::lemma_frame_keep(pre, *self);
                        }
                        Ok(BertTerm::BigInt { negative: sign == 1, digits })
                    },
                    Err(e) => {
                        proof {
                            Self::lemma_frame_keep(pre, *self);
                        }
                        Err(e)
                    },
                }
            },
            Err(e) => {
                proof {
                    Self::lemma_frame_keep(pre, *self);
                }
                Err(e)
            },
        }
    }

    fn string(&mut self) -> (r: Result<BertTerm, BertError>)
        requires
            old(self).wf(),
        ensures
            Self::term_post(
                *old(self),
                *final(self),
                r,
                sp_string(old(self).bytes(), old(self).st()),
            ),
    {
        let ghost pre = *self;
        match self.eat_be(2) {
            Ok(len) => {
                proof {
                    lemma_pow256_vals();
                }
                match self.take_bytes(len as usize) {
                    Ok(bs) => {
                        proof {
                            Self::lemma_frame_keep(pre, *self);
                        }
                        Ok(BertTerm::Str(bs))
                    },
                    Err(e) => {
                        proof {
                            Self::lemma_frame_keep(pre, *self);
                        }
                        Err(e)
                    },
                }
            },
            Err(e) => {
                proof {
                    Self::lemma_frame_keep(pre, *self);
                }
                Err(e)
            },
        }
    }

    fn binary(&mut self) -> (r: Result<BertTerm, BertError>)
        requires
            old(self).wf(),
        ensures
            Self::term_post(
                *old(self),
                *final(self),
                r,
                sp_binary(old(self).bytes(), old(self).st()),
            ),
    {
        let ghost pre = *self;
        match self.eat_be(4) {
            Ok(len) => {
                proof {
                    lemma_pow256_vals();
                }
                match self.take_bytes(len as usize) {
                    Ok(bs) => {
                        proof {
                            Self::lemma_frame_keep(pre, *self);
                        }
                        Ok(BertTerm::Binary(bs))
                    },
                    Err(e) => {
                        proof {
                            Self::lemma_frame_keep(pre, *self);
                        }
                        Err(e)
                    },
                }
            },
            Err(e) => {
                proof {
                    Self::lemma_frame_keep(pre, *self);
                }
                Err(e)
            },
        }
    }

    fn term_run(&mut self, n: usize) -> (r: Result<Vec<BertTerm>, BertError>)
        requires
            old(self).wf(),
        ensures
            Parser::frame(*old(self), *final(self)),
            match r {
                Ok(ts) => sp_terms(old(self).bytes(), old(self).st(), n as int) == Ok::<
                    (Seq<TermV>, PState),
                    BertError,
                >((seq_deep(ts@), final(self).st())),
                Err(e) => sp_terms(old(self).bytes(), old(self).st(), n as int) == Err::<
                    (Seq<TermV>, PState),
                    BertError,
                >(e),
            },
        decreases self.contents@.len() - self.pos, 1int, 0int,
    {
        let ghost bytes = self.bytes();
        let ghost st0 = self.st();
        let mut terms: Vec<BertTerm> = Vec::new();
        let mut i: usize = 0;
        proof {
            Self::lemma_frame_keep(*old(self), *self);
            assert(seq_deep(Seq::<BertTerm>::empty()) =~= Seq::<TermV>::empty());
        }
        while i < n
            invariant
                i <= n,
                self.wf(),
                self.bytes() == bytes,
                bytes == old(self).bytes(),
                st0 == old(self).st(),
                Parser::frame(*old(self), *self),
                sp_terms(bytes, st0, n as int) == (match sp_terms(
                    bytes,
                    self.st(),
                    n - i,
                ) {
                    Ok((rest, stf)) => Ok::<(Seq<TermV>, PState), BertError>(
                        (seq_deep(terms@) + rest, stf),
                    ),
                    Err(e) => Err::<(Seq<TermV>, PState), BertError>(e),
                }),
            decreases n - i,
        {
            let ghost mid = *self;
            let ghost done = seq_deep(terms@);
            match self.bert_term() {
                Ok(t) => {
                    proof {
                        let r2 = sp_terms(bytes, self.st(), n - i - 1);
                        assert(sp_terms(bytes, mid.st(), n - i) == (match r2 {
                            Ok((rest, stf)) => Ok::<(Seq<TermV>, PState), BertError>(
                                (seq![t.deep()] + rest, stf),
                            ),
                            Err(e) => Err::<(Seq<TermV>, PState), BertError>(e),
                        }));
                        lemma_seq_deep_push(terms@, t);
                        if r2 is Ok {
                            assert(done + (seq![t.deep()] + r2->Ok_0.0) =~= done.push(t.deep())
                                + r2->Ok_0.0);
                        }
                        Parser::lemma_frame_trans(*old(self), mid, *self);
                    }
                    terms.push(t);
                    i = i + 1;
                },
                Err(e) => {
                    proof {
                        Parser::lemma_frame_trans(*old(self), mid, *self);
                    }
                    return Err(e);
                },
            }
        }
        proof {
            assert(sp_terms(bytes, self.st(), 0) == Ok::<(Seq<TermV>, PState), BertError>(
                (Seq::<TermV>::empty(), self.st()),
            ));
            assert(seq_deep(terms@) + Seq::<TermV>::empty() =~= seq_deep(terms@));
        }
        Ok(terms)
    }

    fn tuple(&mut self, len: usize) -> (r: Result<BertTerm, BertError>)
        requires
            old(self).wf(),
        ensures
            Self::term_post(
                *old(self),
                *final(self),
                r,
                match sp_terms(old(self).bytes(), old(self).st(), len as int) {
                    Ok((ts, st2)) => Ok::<(TermV, PState), BertError>((TermV::Tuple(ts), st2)),
                    Err(e) => Err::<(TermV, PState), BertError>(e),
                },
            ),
        decreases self.contents@.len() - self.pos, 2int, 0int,
    {
        match self.term_run(len) {
            Ok(ts) => Ok(BertTerm::Tuple(ts)),
            Err(e) => Err(e),
        }
    }

    fn list(&mut self) -> (r: Result<BertTerm, BertError>)
        requires
            old(self).wf(),
        ensures
            Self::term_post(
                *old(self),
                *final(self),
                r,
                sp_list(old(self).bytes(), old(self).st()),
            ),
        decreases self.contents@.len() - self.pos, 2int, 0int,
    {
        let ghost pre = *self;
        let len = match self.eat_be(4) {
            Ok(v) => {
                proof {
                    lemma_pow256_vals();
                }
                v as usize
            },
            Err(e) => {
                proof {
                    Self::lemma_frame_keep(pre, *self);
                }
                return Err(e);
            },
        };
        let ghost mid1 = *self;
        let mut terms = match self.term_run(len) {
            Ok(ts) => ts,
            Err(e) => {
                proof {
                    Parser::lemma_frame_trans(pre, mid1, *self);
                }
                return Err(e);
            },
        };
        let ghost mid2 = *self;
        match self.bert_term() {
            Ok(tail) => {
                proof {
                    Parser::lemma_frame_trans(pre, mid1, mid2);
                    Parser::lemma_frame_trans(pre, mid2, *self);
                }
                match tail {
                    BertTerm::Nil => Ok(BertTerm::List(terms)),
                    t2 => {
                        proof {
                            lemma_seq_deep_push(terms@, t2);
                        }
                        terms.push(t2);
                        Ok(BertTerm::List(terms))
                    },
                }
            },
            Err(e) => {
                proof {
                    Parser::lemma_frame_trans(pre, mid1, mid2);
                    Parser::lemma_frame_trans(pre, mid2, *self);
                }
                Err(e)
            },
        }
    }

    fn map(&mut self) -> (r: Result<BertTerm, BertError>)
        requires
            old(self).wf(),
        ensures
            Self::term_post(*old(self), *final(self), r, sp_map(old(self).bytes(), old(self).st())),
        decreases self.contents@.len() - self.pos, 2int, 0int,
    {
        let ghost pre = *self;
        let len = match self.eat_be(4) {
            Ok(v) => {
                proof {
                    lemma_pow256_vals();
                }
                v as usize
            },
            Err(e) => {
                proof {
                    Self::lemma_frame_keep(pre, *self);
                }
                return Err(e);
            },
        };
        let ghost bytes = self.bytes();
        let ghost st0 = self.st();
        let ghost mid1 = *self;
        let n = len;
        let mut keys: Vec<BertTerm> = Vec::new();
        let mut vals: Vec<BertTerm> = Vec::new();
        let mut i: usize = 0;
        proof {
            assert(seq_deep(Seq::<BertTerm>::empty()) =~= Seq::<TermV>::empty());
        }
        while i < n
            invariant
                i <= n,
                pre == *old(self),
                self.wf(),
                self.bytes() == bytes,
                bytes == pre.bytes(),
                st0 == mid1.st(),
                Parser::frame(pre, mid1),
                Parser::frame(mid1, *self),
                sp_map(bytes, pre.st()) == (match sp_pairs(bytes, st0, n as int) {
                    Ok((ks, vs, st2)) => Ok::<(TermV, PState), BertError>(
                        (TermV::Dict(ks, vs), st2),
                    ),
                    Err(e) => Err::<(TermV, PState), BertError>(e),
                }),
                sp_pairs(bytes, st0, n as int) == (match sp_pairs(bytes, self.st(), n - i) {
                    Ok((rks, rvs, stf)) => Ok::<(Seq<TermV>, Seq<TermV>, PState), BertError>(
                        (seq_deep(keys@) + rks, seq_deep(vals@) + rvs, stf),
                    ),
                    Err(e) => Err::<(Seq<TermV>, Seq<TermV>, PState), BertError>(e),
                }),
            decreases n - i,
        {
            let ghost mid = *self;
            let ghost donek = seq_deep(keys@);
            let ghost donev = seq_deep(vals@);
            let k = match self.bert_term() {
                Ok(k) => k,
                Err(e) => {
                    proof {
                        Parser::lemma_frame_trans(mid1, mid, *self);
                        Parser::lemma_frame_trans(pre, mid1, *self);
                    }
                    return Err(e);
                },
            };
            let ghost midk = *self;
            let v = match self.bert_term() {
                Ok(v) => v,
                Err(e) => {
                    proof {
                        Parser::lemma_frame_trans(mid, midk, *self);
                        Parser::lemma_frame_trans(mid1, mid, *self);
                        Parser::lemma_frame_trans(pre, mid1, *self);
                    }
                    return Err(e);
                },
            };
            proof {
                let r2 = sp_pairs(bytes, self.st(), n - i - 1);
                assert(sp_pairs(bytes, mid.st(), n - i) == (match r2 {
                    Ok((rks, rvs, stf)) => Ok::<(Seq<TermV>, Seq<TermV>, PState), BertError>(
                        (seq![k.deep()] + rks, seq![v.deep()] + rvs, stf),
                    ),
                    Err(e) => Err::<(Seq<TermV>, Seq<TermV>, PState), BertError>(e),
                }));
                lemma_seq_deep_push(keys@, k);
                lemma_seq_deep_push(vals@, v);
                if r2 is Ok {
                    assert(donek + (seq![k.deep()] + r2->Ok_0.0) =~= donek.push(k.deep())
                        + r2->Ok_0.0);
                    assert(donev + (seq![v.deep()] + r2->Ok_0.1) =~= donev.push(v.deep())
                        + r2->Ok_0.1);
                }
                Parser::lemma_frame_trans(mid, midk, *self);
                Parser::lemma_frame_trans(mid1, mid, *self);
            }
            keys.push(k);
            vals.push(v);
            i = i + 1;
        }
        proof {
            assert(sp_pairs(bytes, self.st(), 0) == Ok::<(Seq<TermV>, Seq<TermV>, PState),
                BertError>((Seq::<TermV>::empty(), Seq::<TermV>::empty(), self.st())));
            assert(seq_deep(keys@) + Seq::<TermV>::empty() =~= seq_deep(keys@));
            assert(seq_deep(vals@) + Seq::<TermV>::empty() =~= seq_deep(vals@));
            Parser::lemma_frame_trans(pre, mid1, *self);
        }
        Ok(BertTerm::Dict(keys, vals))
    }

    fn bert_term(&mut self) -> (r: Result<BertTerm, BertError>)
        requires
            old(self).wf(),
        ensures
            Self::term_post(
                *old(self),
                *final(self),
                r,
                sp_term(old(self).bytes(), old(self).st()),
            ),
            r is Ok ==> final(self).st().pos > old(self).st().pos,
        decreases self.contents@.len() - self.pos, 0int, 0int,
    {
        let ghost pre = *self;
        let offset = self.pos;
        let tag = match self.eat_u8() {
            Ok(tag) => tag,
            Err(e) => {
                proof {
                    Self::lemma_frame_keep(pre, *self);
                }
                return Err(e);
            },
        };
        let ghost mid = *self;
        let r: Result<BertTerm, BertError> = if tag == SMALL_INTEGER_EXT {
            self.small_integer()
        } else if tag == INTEGER_EXT {
            self.integer()
        } else if tag == FLOAT_EXT {
            self.old_float()
        } else if tag == NEW_FLOAT_EXT {
            self.new_float()
        } else if tag == ATOM_EXT {
            match self.eat_be(2) {
                Ok(len) => {
                    proof {
                        lemma_pow256_vals();
                    }
                    self.atom(len as usize)
                },
                Err(e) => Err(e),
            }
        } else if tag == SMALL_ATOM_EXT {
            match self.eat_u8() {
                Ok(len) => self.atom(len as usize),
                Err(e) => Err(e),
            }
        } else if tag == ATOM_UTF8_EXT {
            match self.eat_be(2) {
                Ok(len) => {
                    proof {
                        lemma_pow256_vals();
                    }
                    self.atom_utf8(len as usize)
                },
                Err(e) => Err(e),
            }
        } else if tag == SMALL_ATOM_UTF8_EXT {
            match self.eat_u8() {
                Ok(len) => self.atom_utf8(len as usize),
                Err(e) => Err(e),
            }
        } else if tag == SMALL_TUPLE_EXT {
            match self.eat_u8() {
                Ok(len) => self.tuple(len as usize),
                Err(e) => Err(e),
            }
        } else if tag == LARGE_TUPLE_EXT {
            match self.eat_be(4) {
                Ok(len) => {
                    proof {
                        lemma_pow256_vals();
                    }
                    self.tuple(len as usize)
                },
                Err(e) => Err(e),
            }
        } else if tag == NIL_EXT {
            Ok(BertTerm::Nil)
        } else if tag == LIST_EXT {
            self.list()
        } else if tag == STRING_EXT {
            self.string()
        } else if tag == BINARY_EXT {
            self.binary()
        } else if tag == SMALL_BIG_EXT {
            match self.eat_u8() {
                Ok(len) => self.bigint(len as usize),
                Err(e) => Err(e),
            }
        } else if tag == LARGE_BIG_EXT {
            match self.eat_be(4) {
                Ok(len) => {
                    proof {
                        lemma_pow256_vals();
                    }
                    self.bigint(len as usize)
                },
                Err(e) => Err(e),
            }
        } else if tag == MAP_EXT {
            self.map()
        } else {
            Err(BertError::InvalidTag(offset, tag))
        };
        proof {
            Parser::lemma_frame_trans(pre, mid, *self);
        }
        r
    }

    /// Decodes the whole buffer as one term behind the format marker; fails
    /// on trailing bytes.
    pub fn parse(&mut self) -> (r: Result<BertTerm, BertError>)
        requires
            old(self).wf(),
        ensures
            Parser::frame(*old(self), *final(self)),
            match r {
                Ok(t) => sp_parse(old(self).bytes(), old(self).st()) == Ok::<
                    (TermV, PState),
                    BertError,
                >((t.deep(), final(self).st())),
                Err(e) => sp_parse(old(self).bytes(), old(self).st()) == Err::<
                    (TermV, PState),
                    BertError,
                >(e),
            },
    {
        let ghost pre = *self;
        match self.magic_number() {
            Ok(_) => {},
            Err(e) => {
                proof {
                    Self::lemma_frame_keep(pre, *self);
                }
                return Err(e);
            },
        }
        let ghost mid = *self;
        let term = match self.bert_term() {
            Ok(t) => t,
            Err(e) => {
                proof {
                    Parser::lemma_frame_trans(pre, mid, *self);
                }
                return Err(e);
            },
        };
        proof {
            Parser::lemma_frame_trans(pre, mid, *self);
        }
        if self.eof() {
            Ok(term)
        } else {
            Err(BertError::ExtraData(self.pos))
        }
    }

    fn parse_records(&mut self) -> (r: Result<Vec<BertTerm>, BertError>)
        requires
            old(self).wf(),
        ensures
            Parser::frame(*old(self), *final(self)),
            match r {
                Ok(ts) => sp_records(old(self).bytes(), old(self).st()) == Ok::<
                    (Seq<TermV>, PState),
                    BertError,
                >((seq_deep(ts@), final(self).st())),
                Err(e) => sp_records(old(self).bytes(), old(self).st()) == Err::<
                    (Seq<TermV>, PState),
                    BertError,
                >(e),
            },
        decreases self.contents@.len() - self.pos, 2int, 0int,
    {
        let ghost pre = *self;
        let ghost bytes = self.bytes();
        if self.eof() {
            proof {
                Self::lemma_frame_keep(pre, *self);
                assert(seq_deep(Seq::<BertTerm>::empty()) =~= Seq::<TermV>::empty());
            }
            let ts: Vec<BertTerm> = Vec::new();
            return Ok(ts);
        }
        proof {
            assert(varint_take(bytes, pre.st().pos, 8).len() >= 1);
        }
        match self.parse_varint() {
            Ok(_) => {},
            Err(e) => {
                proof {
                    Self::lemma_frame_keep(pre, *self);
                }
                return Err(e);
            },
        }
        let ghost mid1 = *self;
        match self.magic_number() {
            Ok(_) => {},
            Err(e) => {
                proof {
                    Self::lemma_frame_keep(pre, mid1);
                    Parser::lemma_frame_trans(pre, mid1, *self);
                }
                return Err(e);
            },
        }
        let ghost mid2 = *self;
        let t = match self.bert_term() {
            Ok(t) => t,
            Err(e) => {
                proof {
                    Self::lemma_frame_keep(pre, mid1);
                    Self::lemma_frame_keep(mid1, mid2);
                    Parser::lemma_frame_trans(pre, mid1, mid2);
                    Parser::lemma_frame_trans(pre, mid2, *self);
                }
                return Err(e);
            },
        };
        let ghost mid3 = *self;
        proof {
            Self::lemma_frame_keep(pre, mid1);
            Self::lemma_frame_keep(mid1, mid2);
            Parser::lemma_frame_trans(pre, mid1, mid2);
            Parser::lemma_frame_trans(pre, mid2, mid3);
        }
        let mut rest = match self.parse_records() {
            Ok(ts) => ts,
            Err(e) => {
                proof {
                    Parser::lemma_frame_trans(pre, mid3, *self);
                }
                return Err(e);
            },
        };
        proof {
            Parser::lemma_frame_trans(pre, mid3, *self);
            assert(rest@.insert(0, t) =~= seq![t] + rest@);
            assert((seq![t] + rest@)[0] == t);
            assert((seq![t] + rest@).drop_first() =~= rest@);
            assert(seq_deep(seq![t] + rest@) =~= seq![t.deep()] + seq_deep(rest@));
        }
        rest.insert(0, t);
        Ok(rest)
    }

    /// Decodes a concatenation of length-prefixed records, each a varint
    /// byte length followed by the format marker and one term, and returns
    /// the decoded terms in order.
    pub fn parse_bert2(&mut self) -> (r: Result<Vec<BertTerm>, BertError>)
        requires
            old(self).wf(),
        ensures
            Parser::frame(*old(self), *final(self)),
            match r {
                Ok(ts) => sp_records(old(self).bytes(), old(self).st()) == Ok::<
                    (Seq<TermV>, PState),
                    BertError,
                >((seq_deep(ts@), final(self).st())),
                Err(e) => sp_records(old(self).bytes(), old(self).st()) == Err::<
                    (Seq<TermV>, PState),
                    BertError,
                >(e),
            },
    {
        self.parse_records()
    }
}

} // verus!
