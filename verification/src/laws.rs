//! Proved statements about the decoder and the renderer as wholes: exact
//! values for the integer forms, the improper-list shape, the invalid-marker
//! and truncation failures, the layout boundary of the renderer, and the
//! well-formedness of every decoded term against its tables.

use vstd::prelude::*;

use crate::bertterm::{
    coll_end, coll_pfx, is_basic, nl, render, render_items, small_coll, spaces, FloatV, TermV,
};
use crate::error::BertError;
use crate::numtext::{base256, big_value, dec_digits, digit_char, int_text};
use crate::parser::{
    as_i32, be_val, sp_be, sp_bigint, sp_list, sp_pairs, sp_parse, sp_term, sp_terms, PState,
    BERT_MAGIC_NUMBER, INTEGER_EXT, SMALL_INTEGER_EXT,
};

verus! {

/// Decoding a one-byte integer yields exactly that byte's value.
pub proof fn lemma_small_integer_exact(bytes: Seq<u8>, st: PState)
    requires
        0 <= st.pos,
        st.pos + 2 <= bytes.len(),
        bytes[st.pos] == SMALL_INTEGER_EXT,
    ensures
        sp_term(bytes, st) == Ok::<(TermV, PState), BertError>(
            (TermV::Int(bytes[st.pos + 1] as i32), PState { pos: st.pos + 2, ..st }),
        ),
{
}

/// Decoding a 4-byte integer yields its big-endian bytes read as a
/// two's-complement 32-bit value: the exact integer, sign included.
pub proof fn lemma_integer_exact(bytes: Seq<u8>, st: PState)
    requires
        0 <= st.pos,
        st.pos + 5 <= bytes.len(),
        bytes[st.pos] == INTEGER_EXT,
    ensures
        sp_term(bytes, st) == Ok::<(TermV, PState), BertError>(
            (
                TermV::Int(as_i32(be_val(bytes, st.pos + 1, 4)) as i32),
                PState { pos: st.pos + 5, ..st },
            ),
        ),
        -0x8000_0000 <= as_i32(be_val(bytes, st.pos + 1, 4)) < 0x8000_0000,
{
    lemma_be_val_bound(bytes, st.pos + 1, 4);
    assert(crate::parser::pow256(0) == 1);
    assert(crate::parser::pow256(1) == 0x100);
    assert(crate::parser::pow256(2) == 0x10000);
    assert(crate::parser::pow256(3) == 0x1000000);
    assert(crate::parser::pow256(4) == 0x100000000);
}

proof fn lemma_be_val_bound(bytes: Seq<u8>, pos: int, n: int)
    ensures
        be_val(bytes, pos, n) < crate::parser::pow256(n),
    decreases n,
{
    if n > 0 {
        lemma_be_val_bound(bytes, pos, n - 1);
        assert(be_val(bytes, pos, n - 1) * 256 + 255 < 256 * crate::parser::pow256(n - 1))
            by (nonlinear_arith)
            requires
                be_val(bytes, pos, n - 1) <= crate::parser::pow256(n - 1) - 1,
        ;
    }
}

/// Decoding an arbitrary-precision integer yields the digits verbatim and a
/// sign taken from the sign byte; the value of the result is the signed sum
/// of `digit[i] * 256^i`.
pub proof fn lemma_bigint_exact(bytes: Seq<u8>, st: PState, len: int)
    requires
        0 <= st.pos,
        0 <= len,
        st.pos + 1 + len <= bytes.len(),
    ensures
        sp_bigint(bytes, st, len) == Ok::<(TermV, PState), BertError>(
            (
                TermV::BigInt {
                    negative: bytes[st.pos] == 1,
                    digits: bytes.subrange(st.pos + 1, st.pos + 1 + len),
                },
                PState { pos: st.pos + 1 + len, ..st },
            ),
        ),
        big_value(bytes[st.pos] == 1, bytes.subrange(st.pos + 1, st.pos + 1 + len)) == (
        if bytes[st.pos] == 1 {
            -1
        } else {
            1
        }) * (base256(bytes.subrange(st.pos + 1, st.pos + 1 + len)) as int),
{
    let ds = bytes.subrange(st.pos + 1, st.pos + 1 + len);
    if bytes[st.pos] == 1 {
        assert(big_value(true, ds) == -(base256(ds) as int));
        assert((-1) * (base256(ds) as int) == -(base256(ds) as int));
    } else {
        assert(big_value(false, ds) == base256(ds) as int);
        assert(1 * (base256(ds) as int) == base256(ds) as int);
    }
}

/// A list whose wire-level tail is not the empty-list sentinel decodes to a
/// list term with the tail appended as an extra trailing element.
pub proof fn lemma_improper_list(
    bytes: Seq<u8>,
    st: PState,
    n: nat,
    ts: Seq<TermV>,
    st2: PState,
    tail: TermV,
    st3: PState,
)
    requires
        sp_be(bytes, st.pos, 4) == Ok::<(nat, int), BertError>((n, st.pos + 4)),
        sp_terms(bytes, PState { pos: st.pos + 4, ..st }, n as int) == Ok::<
            (Seq<TermV>, PState),
            BertError,
        >((ts, st2)),
        st.pos < st2.pos,
        st2.pos <= bytes.len(),
        sp_term(bytes, st2) == Ok::<(TermV, PState), BertError>((tail, st3)),
        tail != TermV::Nil,
    ensures
        sp_list(bytes, st) == Ok::<(TermV, PState), BertError>(
            (TermV::List(ts.push(tail)), st3),
        ),
{
}

/// A proper list, by contrast, drops its `Nil` tail.
pub proof fn lemma_proper_list(
    bytes: Seq<u8>,
    st: PState,
    n: nat,
    ts: Seq<TermV>,
    st2: PState,
    st3: PState,
)
    requires
        sp_be(bytes, st.pos, 4) == Ok::<(nat, int), BertError>((n, st.pos + 4)),
        sp_terms(bytes, PState { pos: st.pos + 4, ..st }, n as int) == Ok::<
            (Seq<TermV>, PState),
            BertError,
        >((ts, st2)),
        st.pos < st2.pos,
        st2.pos <= bytes.len(),
        sp_term(bytes, st2) == Ok::<(TermV, PState), BertError>((TermV::Nil, st3)),
    ensures
        sp_list(bytes, st) == Ok::<(TermV, PState), BertError>((TermV::List(ts), st3)),
{
}

/// A buffer whose first byte is not the format marker fails with the
/// invalid-marker error at offset zero.
pub proof fn lemma_invalid_marker(bytes: Seq<u8>, st: PState)
    requires
        st.pos == 0,
        bytes.len() > 0,
        bytes[0] != BERT_MAGIC_NUMBER,
    ensures
        sp_parse(bytes, st) == Err::<(TermV, PState), BertError>(
            BertError::InvalidMagicNumber(0),
        ),
{
}

/// A small collection (at most `mx` elements, all basic) is rendered inline:
/// no per-element prefix and no newline before the closing bracket.
pub proof fn lemma_layout_inline(
    ts: Seq<TermV>,
    tab: Seq<char>,
    ft: Seq<Seq<char>>,
    iw: nat,
    mx: nat,
    pad: Seq<char>,
)
    requires
        small_coll(ts, mx),
    ensures
        render(TermV::List(ts), tab, ft, iw, mx, pad) == seq!['['] + render_items(
            ts,
            tab,
            ft,
            iw,
            mx,
            pad + spaces(iw),
            Seq::<char>::empty(),
            0,
        ) + seq![']'],
{
    assert(coll_pfx(true, iw, pad) == Seq::<char>::empty());
    assert(coll_end(true, pad) == Seq::<char>::empty());
    assert(seq!['['] + render_items(ts, tab, ft, iw, mx, pad + spaces(iw), Seq::<char>::empty(), 0)
        + Seq::<char>::empty() + seq![']'] =~= seq!['['] + render_items(
        ts,
        tab,
        ft,
        iw,
        mx,
        pad + spaces(iw),
        Seq::<char>::empty(),
        0,
    ) + seq![']']);
}

/// A collection over the bound, or with a non-basic element, is rendered
/// multi-line: every element is preceded by a newline and one level of
/// indentation deeper than the enclosing bracket, and the closing bracket
/// stands behind a newline at the enclosing indentation.
pub proof fn lemma_layout_multiline(
    ts: Seq<TermV>,
    tab: Seq<char>,
    ft: Seq<Seq<char>>,
    iw: nat,
    mx: nat,
    pad: Seq<char>,
)
    requires
        !small_coll(ts, mx),
    ensures
        render(TermV::List(ts), tab, ft, iw, mx, pad) == seq!['['] + render_items(
            ts,
            tab,
            ft,
            iw,
            mx,
            pad + spaces(iw),
            nl(pad + spaces(iw)),
            0,
        ) + nl(pad) + seq![']'],
{
}

proof fn lemma_nonzero_end_bounds(bytes: Seq<u8>, i: int)
    requires
        0 <= i <= bytes.len(),
    ensures
        i <= crate::parser::nonzero_end(bytes, i) <= bytes.len(),
    decreases bytes.len() - i,
{
    if i < bytes.len() && bytes[i] != 0 {
        lemma_nonzero_end_bounds(bytes, i + 1);
    }
}

proof fn lemma_zeros_end_bounds(bytes: Seq<u8>, i: int)
    requires
        0 <= i <= bytes.len(),
    ensures
        i <= crate::parser::zeros_end(bytes, i) <= bytes.len(),
    decreases bytes.len() - i,
{
    if i < bytes.len() && bytes[i] == 0 {
        lemma_zeros_end_bounds(bytes, i + 1);
    }
}

proof fn lemma_prefix_trans<A>(a: Seq<A>, b: Seq<A>, c: Seq<A>)
    requires
        a.is_prefix_of(b),
        b.is_prefix_of(c),
    ensures
        a.is_prefix_of(c),
{
    assert(c.subrange(0, a.len() as int) =~= b.subrange(0, a.len() as int));
}

proof fn lemma_decode_utf8_len(bytes: Seq<u8>)
    requires
        vstd::utf8::valid_utf8(bytes),
    ensures
        vstd::utf8::decode_utf8(bytes).len() <= bytes.len(),
    decreases bytes.len(),
{
    if bytes.len() != 0 {
        let rest = vstd::utf8::pop_first_scalar(bytes);
        assert(1 <= vstd::utf8::length_of_first_scalar(bytes) <= bytes.len());
        assert(rest.len() < bytes.len());
        lemma_decode_utf8_len(rest);
    }
}

/// The shape of a successful decode step: the cursor advances within the
/// buffer, the two tables only grow, each by at most one entry or character
/// per byte consumed, and the decoded term is well-formed against the tables
/// as they stand after the step.
pub open spec fn decode_step_wf(bytes: Seq<u8>, st: PState, t: TermV, st2: PState) -> bool {
    &&& st.pos < st2.pos <= bytes.len()
    &&& st.tab.is_prefix_of(st2.tab)
    &&& st.floats.is_prefix_of(st2.floats)
    &&& st2.tab.len() - st.tab.len() <= st2.pos - st.pos
    &&& st2.floats.len() - st.floats.len() <= st2.pos - st.pos
    &&& crate::bertterm::wf_term(t, st2.tab.len() as int, st2.floats.len() as int)
}

/// The bounds under which a decode session runs: the cursor is inside the
/// buffer and the tables cannot outgrow the address space.
pub open spec fn session_bounded(bytes: Seq<u8>, st: PState) -> bool {
    &&& 0 <= st.pos <= bytes.len()
    &&& st.tab.len() + (bytes.len() - st.pos) <= usize::MAX
    &&& st.floats.len() + (bytes.len() - st.pos) <= usize::MAX
}

/// Every term that the decoder hands out is well-formed: its atom handles
/// lie inside the symbol table and its float indices inside the float table
/// as they stand when the term is returned. Interning before constructing
/// the `Atom` value is what makes this hold.
#[verifier::rlimit(100)]
#[verifier::spinoff_prover]
pub proof fn lemma_decode_wf(bytes: Seq<u8>, st: PState)
    requires
        session_bounded(bytes, st),
    ensures
        sp_term(bytes, st) matches Ok(p) ==> decode_step_wf(bytes, st, p.0, p.1),
    decreases bytes.len() - st.pos, 0int, 0int,
{
    let r = sp_term(bytes, st);
    if r is Ok {
        let tag = bytes[st.pos];
        let st1 = PState { pos: st.pos + 1, ..st };
        assert(st.tab.is_prefix_of(st.tab)) by {
            assert(st.tab.subrange(0, st.tab.len() as int) =~= st.tab);
        }
        assert(st.floats.is_prefix_of(st.floats)) by {
            assert(st.floats.subrange(0, st.floats.len() as int) =~= st.floats);
        }
        assert(forall|x: FloatV| st.floats.is_prefix_of(#[trigger] st.floats.push(x))) by {
            assert(forall|x: FloatV|
                #[trigger] st.floats.push(x).subrange(0, st.floats.len() as int) =~= st.floats);
        }
        if tag == crate::parser::ATOM_UTF8_EXT || tag == crate::parser::SMALL_ATOM_UTF8_EXT {
            let p2 = if tag == crate::parser::ATOM_UTF8_EXT {
                st.pos + 3
            } else {
                st.pos + 2
            };
            let len = if tag == crate::parser::ATOM_UTF8_EXT {
                be_val(bytes, st.pos + 1, 2) as int
            } else {
                bytes[st.pos + 1] as int
            };
            let payload = bytes.subrange(p2, p2 + len);
            lemma_decode_utf8_len(payload);
            let chars = vstd::utf8::decode_utf8(payload);
            assert(st.tab.is_prefix_of(st.tab + chars)) by {
                assert((st.tab + chars).subrange(0, st.tab.len() as int) =~= st.tab);
            }
        } else if tag == crate::parser::ATOM_EXT || tag == crate::parser::SMALL_ATOM_EXT {
            let p2 = if tag == crate::parser::ATOM_EXT {
                st.pos + 3
            } else {
                st.pos + 2
            };
            let len = if tag == crate::parser::ATOM_EXT {
                be_val(bytes, st.pos + 1, 2) as int
            } else {
                bytes[st.pos + 1] as int
            };
            let payload = bytes.subrange(p2, p2 + len);
            let chars = crate::parser::latin1_chars(payload);
            assert(chars.len() == payload.len());
            assert(st.tab.is_prefix_of(st.tab + chars)) by {
                assert((st.tab + chars).subrange(0, st.tab.len() as int) =~= st.tab);
            }
        } else if tag == crate::parser::FLOAT_EXT {
            lemma_nonzero_end_bounds(bytes, st.pos + 1);
            lemma_zeros_end_bounds(bytes, crate::parser::nonzero_end(bytes, st.pos + 1));
        } else if tag == crate::parser::SMALL_TUPLE_EXT {
            lemma_decode_wf_seq(bytes, PState { pos: st.pos + 2, ..st }, bytes[st.pos + 1] as int);
        } else if tag == crate::parser::LARGE_TUPLE_EXT {
            lemma_decode_wf_seq(
                bytes,
                PState { pos: st.pos + 5, ..st },
                be_val(bytes, st.pos + 1, 4) as int,
            );
        } else if tag == crate::parser::LIST_EXT {
            let stl = PState { pos: st.pos + 5, ..st };
            let n = be_val(bytes, st.pos + 1, 4) as int;
            lemma_decode_wf_seq(bytes, stl, n);
            let (ts, st2) = sp_terms(bytes, stl, n)->Ok_0;
            lemma_decode_wf(bytes, st2);
            let (tail, st3) = sp_term(bytes, st2)->Ok_0;
            crate::bertterm::lemma_wf_seq_grow(
                ts,
                st2.tab.len() as int,
                st2.floats.len() as int,
                st3.tab.len() as int,
                st3.floats.len() as int,
            );
            if tail != TermV::Nil {
                crate::bertterm::lemma_wf_seq_push(
                    ts,
                    st3.tab.len() as int,
                    st3.floats.len() as int,
                    tail,
                );
            }
            lemma_prefix_trans(st.tab, st2.tab, st3.tab);
            lemma_prefix_trans(st.floats, st2.floats, st3.floats);
        } else if tag == crate::parser::MAP_EXT {
            lemma_decode_wf_pairs(
                bytes,
                PState { pos: st.pos + 5, ..st },
                be_val(bytes, st.pos + 1, 4) as int,
            );
        }
    }
}

/// The run of `n` terms that tuples, lists and maps read is well-formed as
/// a whole: see `lemma_decode_wf`.
pub proof fn lemma_decode_wf_seq(bytes: Seq<u8>, st: PState, n: int)
    requires
        session_bounded(bytes, st),
    ensures
        sp_terms(bytes, st, n) matches Ok(p) ==> {
            &&& st.pos <= p.1.pos <= bytes.len()
            &&& st.tab.is_prefix_of(p.1.tab)
            &&& st.floats.is_prefix_of(p.1.floats)
            &&& p.1.tab.len() - st.tab.len() <= p.1.pos - st.pos
            &&& p.1.floats.len() - st.floats.len() <= p.1.pos - st.pos
            &&& p.0.len() == n || (n <= 0 && p.0.len() == 0)
            &&& crate::bertterm::wf_seq(p.0, p.1.tab.len() as int, p.1.floats.len() as int)
        },
    decreases bytes.len() - st.pos, 1int, n,
{
    if n <= 0 {
        assert(st.tab.is_prefix_of(st.tab)) by {
            assert(st.tab.subrange(0, st.tab.len() as int) =~= st.tab);
        }
        assert(st.floats.is_prefix_of(st.floats)) by {
            assert(st.floats.subrange(0, st.floats.len() as int) =~= st.floats);
        }
    } else if sp_terms(bytes, st, n) is Ok {
        lemma_decode_wf(bytes, st);
        let (t, st1) = sp_term(bytes, st)->Ok_0;
        lemma_decode_wf_seq(bytes, st1, n - 1);
        let (rest, st2) = sp_terms(bytes, st1, n - 1)->Ok_0;
        crate::bertterm::lemma_wf_term_grow(
            t,
            st1.tab.len() as int,
            st1.floats.len() as int,
            st2.tab.len() as int,
            st2.floats.len() as int,
        );
        let whole = seq![t] + rest;
        assert(whole[0] == t);
        assert(whole.drop_first() =~= rest);
        assert(crate::bertterm::wf_seq(whole, st2.tab.len() as int, st2.floats.len() as int));
        lemma_prefix_trans(st.tab, st1.tab, st2.tab);
        lemma_prefix_trans(st.floats, st1.floats, st2.floats);
    }
}

/// The key/value runs of a map are equally long and well-formed as a whole:
/// see `lemma_decode_wf`.
pub proof fn lemma_decode_wf_pairs(bytes: Seq<u8>, st: PState, n: int)
    requires
        session_bounded(bytes, st),
    ensures
        sp_pairs(bytes, st, n) matches Ok(p) ==> {
            &&& st.pos <= p.2.pos <= bytes.len()
            &&& st.tab.is_prefix_of(p.2.tab)
            &&& st.floats.is_prefix_of(p.2.floats)
            &&& p.2.tab.len() - st.tab.len() <= p.2.pos - st.pos
            &&& p.2.floats.len() - st.floats.len() <= p.2.pos - st.pos
            &&& p.0.len() == p.1.len()
            &&& crate::bertterm::wf_seq(p.0, p.2.tab.len() as int, p.2.floats.len() as int)
            &&& crate::bertterm::wf_seq(p.1, p.2.tab.len() as int, p.2.floats.len() as int)
        },
    decreases bytes.len() - st.pos, 1int, n,
{
    if n <= 0 {
        assert(st.tab.is_prefix_of(st.tab)) by {
            assert(st.tab.subrange(0, st.tab.len() as int) =~= st.tab);
        }
        assert(st.floats.is_prefix_of(st.floats)) by {
            assert(st.floats.subrange(0, st.floats.len() as int) =~= st.floats);
        }
    } else if sp_pairs(bytes, st, n) is Ok {
        lemma_decode_wf(bytes, st);
        let (k, st1) = sp_term(bytes, st)->Ok_0;
        lemma_decode_wf(bytes, st1);
        let (v, st2) = sp_term(bytes, st1)->Ok_0;
        lemma_decode_wf_pairs(bytes, st2, n - 1);
        let (rks, rvs, st3) = sp_pairs(bytes, st2, n - 1)->Ok_0;
        crate::bertterm::lemma_wf_term_grow(
            k,
            st1.tab.len() as int,
            st1.floats.len() as int,
            st3.tab.len() as int,
            st3.floats.len() as int,
        );
        crate::bertterm::lemma_wf_term_grow(
            v,
            st2.tab.len() as int,
            st2.floats.len() as int,
            st3.tab.len() as int,
            st3.floats.len() as int,
        );
        let wks = seq![k] + rks;
        let wvs = seq![v] + rvs;
        assert(wks[0] == k);
        assert(wks.drop_first() =~= rks);
        assert(wvs[0] == v);
        assert(wvs.drop_first() =~= rvs);
        lemma_prefix_trans(st.tab, st1.tab, st2.tab);
        lemma_prefix_trans(st.tab, st2.tab, st3.tab);
        lemma_prefix_trans(st.floats, st1.floats, st2.floats);
        lemma_prefix_trans(st.floats, st2.floats, st3.floats);
    }
}

/// What `lemma_decode_wf` gives at the top level: a whole-buffer decode
/// yields a term that is well-formed against the final symbol and float
/// tables, so rendering it resolves every handle in bounds.
pub proof fn lemma_parse_wf(bytes: Seq<u8>, st: PState)
    requires
        session_bounded(bytes, st),
    ensures
        sp_parse(bytes, st) matches Ok(p) ==> crate::bertterm::wf_term(
            p.0,
            p.1.tab.len() as int,
            p.1.floats.len() as int,
        ),
{
    if sp_parse(bytes, st) is Ok {
        lemma_decode_wf(bytes, PState { pos: st.pos + 1, ..st });
    }
}

proof fn lemma_be_val_prefix(bytes: Seq<u8>, l: int, pos: int, n: int)
    requires
        0 <= pos,
        0 <= n,
        pos + n <= l <= bytes.len(),
    ensures
        be_val(bytes.subrange(0, l), pos, n) == be_val(bytes, pos, n),
    decreases n,
{
    if n > 0 {
        lemma_be_val_prefix(bytes, l, pos, n - 1);
        assert(bytes.subrange(0, l)[pos + n - 1] == bytes[pos + n - 1]);
    }
}

/// Whether every float-table entry added between the two states carries
/// IEEE bits, as opposed to legacy float text.
pub open spec fn ieee_only(pre: Seq<FloatV>, post: Seq<FloatV>) -> bool {
    forall|i: int| pre.len() <= i < post.len() ==> (#[trigger] post[i]) is Ieee
}

/// Decoding one term looks only at the bytes it consumes, as long as no
/// legacy float is among them (the text of a legacy float runs to the first
/// zero byte or the end of the buffer, so cutting the buffer can change what
/// it parses to). On a buffer cut at `l`, a decode that originally ended at
/// or before `l` returns the same result, and one that originally ran past
/// `l` fails with the end-of-input error at `l`.
#[verifier::rlimit(100)]
#[verifier::spinoff_prover]
pub proof fn lemma_decode_prefix(bytes: Seq<u8>, st: PState, l: int)
    requires
        session_bounded(bytes, st),
        sp_term(bytes, st) is Ok,
        ieee_only(st.floats, sp_term(bytes, st)->Ok_0.1.floats),
        st.pos <= l <= bytes.len(),
    ensures
        sp_term(bytes, st)->Ok_0.1.pos <= l ==> sp_term(bytes.subrange(0, l), st) == sp_term(
            bytes,
            st,
        ),
        l < sp_term(bytes, st)->Ok_0.1.pos ==> sp_term(bytes.subrange(0, l), st) == Err::<
            (TermV, PState),
            BertError,
        >(BertError::EOF(l as usize)),
    decreases bytes.len() - st.pos, 0int, 0int,
{
    lemma_decode_wf(bytes, st);
    let tb = bytes.subrange(0, l);
    assert(forall|i: int| 0 <= i < l ==> tb[i] == bytes[i]);
    if st.pos == l {
        return ;
    }
    let tag = bytes[st.pos];
    let stfin = sp_term(bytes, st)->Ok_0.1;
    if tag == crate::parser::SMALL_TUPLE_EXT {
        let stt = PState { pos: st.pos + 2, ..st };
        let n = bytes[st.pos + 1] as int;
        lemma_decode_wf_seq(bytes, stt, n);
        if st.pos + 2 <= l {
            lemma_run_bounded(bytes, st, stt, stfin);
            lemma_terms_prefix(bytes, stt, n, l);
        }
    } else if tag == crate::parser::LARGE_TUPLE_EXT {
        let stt = PState { pos: st.pos + 5, ..st };
        let n = be_val(bytes, st.pos + 1, 4) as int;
        lemma_decode_wf_seq(bytes, stt, n);
        if st.pos + 5 <= l {
            lemma_be_val_prefix(bytes, l, st.pos + 1, 4);
            lemma_run_bounded(bytes, st, stt, stfin);
            lemma_terms_prefix(bytes, stt, n, l);
        }
    } else if tag == crate::parser::LIST_EXT {
        let stt = PState { pos: st.pos + 5, ..st };
        let n = be_val(bytes, st.pos + 1, 4) as int;
        lemma_decode_wf_seq(bytes, stt, n);
        let (ts, st2) = sp_terms(bytes, stt, n)->Ok_0;
        lemma_decode_wf(bytes, st2);
        if st.pos + 5 <= l {
            lemma_be_val_prefix(bytes, l, st.pos + 1, 4);
            lemma_run_bounded(bytes, st, stt, stfin);
            assert(forall|i: int|
                st.floats.len() <= i < st2.floats.len() ==> st2.floats[i] == (
                #[trigger] stfin.floats[i]));
            lemma_terms_prefix(bytes, stt, n, l);
            if st2.pos <= l {
                lemma_run_bounded(bytes, st, st2, stfin);
                lemma_decode_prefix(bytes, st2, l);
            }
        }
    } else if tag == crate::parser::MAP_EXT {
        let stt = PState { pos: st.pos + 5, ..st };
        let n = be_val(bytes, st.pos + 1, 4) as int;
        lemma_decode_wf_pairs(bytes, stt, n);
        if st.pos + 5 <= l {
            lemma_be_val_prefix(bytes, l, st.pos + 1, 4);
            lemma_run_bounded(bytes, st, stt, stfin);
            lemma_pairs_prefix(bytes, stt, n, l);
        }
    } else {
        lemma_prefix_flat(bytes, st, l);
    }
}

/// `lemma_decode_prefix` for the tags whose payloads hold no sub-terms.
#[verifier::rlimit(100)]
#[verifier::spinoff_prover]
proof fn lemma_prefix_flat(bytes: Seq<u8>, st: PState, l: int)
    requires
        session_bounded(bytes, st),
        sp_term(bytes, st) is Ok,
        ieee_only(st.floats, sp_term(bytes, st)->Ok_0.1.floats),
        st.pos < l <= bytes.len(),
        bytes[st.pos] != crate::parser::SMALL_TUPLE_EXT,
        bytes[st.pos] != crate::parser::LARGE_TUPLE_EXT,
        bytes[st.pos] != crate::parser::LIST_EXT,
        bytes[st.pos] != crate::parser::MAP_EXT,
    ensures
        sp_term(bytes, st)->Ok_0.1.pos <= l ==> sp_term(bytes.subrange(0, l), st) == sp_term(
            bytes,
            st,
        ),
        l < sp_term(bytes, st)->Ok_0.1.pos ==> sp_term(bytes.subrange(0, l), st) == Err::<
            (TermV, PState),
            BertError,
        >(BertError::EOF(l as usize)),
{
    lemma_decode_wf(bytes, st);
    let tb = bytes.subrange(0, l);
    assert(forall|i: int| 0 <= i < l ==> tb[i] == bytes[i]);
    let tag = bytes[st.pos];
    let stfin = sp_term(bytes, st)->Ok_0.1;
    if tag == crate::parser::FLOAT_EXT {
        assert(stfin.floats[st.floats.len() as int] is Text);
        assert(false);
    } else if tag == crate::parser::INTEGER_EXT {
        if st.pos + 5 <= l {
            lemma_be_val_prefix(bytes, l, st.pos + 1, 4);
        }
    } else if tag == crate::parser::NEW_FLOAT_EXT {
        if st.pos + 9 <= l {
            lemma_be_val_prefix(bytes, l, st.pos + 1, 8);
        }
    } else if tag == crate::parser::ATOM_EXT || tag == crate::parser::ATOM_UTF8_EXT {
        if st.pos + 3 <= l {
            lemma_be_val_prefix(bytes, l, st.pos + 1, 2);
            let len = be_val(bytes, st.pos + 1, 2) as int;
            if st.pos + 3 + len <= l {
                assert(tb.subrange(st.pos + 3, st.pos + 3 + len) =~= bytes.subrange(
                    st.pos + 3,
                    st.pos + 3 + len,
                ));
            }
        }
    } else if tag == crate::parser::SMALL_ATOM_EXT || tag == crate::parser::SMALL_ATOM_UTF8_EXT
        || tag == crate::parser::SMALL_BIG_EXT {
        if st.pos + 2 <= l {
            let len = bytes[st.pos + 1] as int;
            let base = if tag == crate::parser::SMALL_BIG_EXT {
                st.pos + 3
            } else {
                st.pos + 2
            };
            if base + len <= l {
                assert(tb.subrange(base, base + len) =~= bytes.subrange(base, base + len));
            }
        }
    } else if tag == crate::parser::STRING_EXT {
        if st.pos + 3 <= l {
            lemma_be_val_prefix(bytes, l, st.pos + 1, 2);
            let len = be_val(bytes, st.pos + 1, 2) as int;
            if st.pos + 3 + len <= l {
                assert(tb.subrange(st.pos + 3, st.pos + 3 + len) =~= bytes.subrange(
                    st.pos + 3,
                    st.pos + 3 + len,
                ));
            }
        }
    } else if tag == crate::parser::BINARY_EXT || tag == crate::parser::LARGE_BIG_EXT {
        if st.pos + 5 <= l {
            lemma_be_val_prefix(bytes, l, st.pos + 1, 4);
            let len = be_val(bytes, st.pos + 1, 4) as int;
            let base = if tag == crate::parser::LARGE_BIG_EXT {
                st.pos + 6
            } else {
                st.pos + 5
            };
            if base + len <= l {
                assert(tb.subrange(base, base + len) =~= bytes.subrange(base, base + len));
            }
        }
    }
}

/// An intermediate state of a decode step keeps the session bounds and the
/// IEEE-only condition of the whole step.
proof fn lemma_run_bounded(bytes: Seq<u8>, st: PState, mid: PState, fin: PState)
    requires
        session_bounded(bytes, st),
        st.pos <= mid.pos <= bytes.len(),
        mid.tab.len() - st.tab.len() <= mid.pos - st.pos,
        mid.floats.len() - st.floats.len() <= mid.pos - st.pos,
    ensures
        session_bounded(bytes, mid),
{
}

/// The run of `n` terms read by a tuple, list or map looks only at the
/// bytes it consumes: see `lemma_decode_prefix`.
#[verifier::rlimit(100)]
#[verifier::spinoff_prover]
pub proof fn lemma_terms_prefix(bytes: Seq<u8>, st: PState, n: int, l: int)
    requires
        session_bounded(bytes, st),
        sp_terms(bytes, st, n) is Ok,
        ieee_only(st.floats, sp_terms(bytes, st, n)->Ok_0.1.floats),
        st.pos <= l <= bytes.len(),
    ensures
        sp_terms(bytes, st, n)->Ok_0.1.pos <= l ==> sp_terms(bytes.subrange(0, l), st, n)
            == sp_terms(bytes, st, n),
        l < sp_terms(bytes, st, n)->Ok_0.1.pos ==> sp_terms(bytes.subrange(0, l), st, n) == Err::<
            (Seq<TermV>, PState),
            BertError,
        >(BertError::EOF(l as usize)),
    decreases bytes.len() - st.pos, 1int, n,
{
    if n > 0 {
        lemma_decode_wf(bytes, st);
        let (t, st1) = sp_term(bytes, st)->Ok_0;
        lemma_decode_wf_seq(bytes, st1, n - 1);
        let stfin = sp_terms(bytes, st, n)->Ok_0.1;
        assert(forall|i: int|
            st.floats.len() <= i < st1.floats.len() ==> st1.floats[i] == (
            #[trigger] stfin.floats[i]));
        lemma_run_bounded(bytes, st, st1, stfin);
        lemma_decode_prefix(bytes, st, l);
        if st1.pos <= l {
            lemma_terms_prefix(bytes, st1, n - 1, l);
        }
    }
}

/// The key/value pairs of a map look only at the bytes they consume: see
/// `lemma_decode_prefix`.
#[verifier::rlimit(100)]
#[verifier::spinoff_prover]
pub proof fn lemma_pairs_prefix(bytes: Seq<u8>, st: PState, n: int, l: int)
    requires
        session_bounded(bytes, st),
        sp_pairs(bytes, st, n) is Ok,
        ieee_only(st.floats, sp_pairs(bytes, st, n)->Ok_0.2.floats),
        st.pos <= l <= bytes.len(),
    ensures
        sp_pairs(bytes, st, n)->Ok_0.2.pos <= l ==> sp_pairs(bytes.subrange(0, l), st, n)
            == sp_pairs(bytes, st, n),
        l < sp_pairs(bytes, st, n)->Ok_0.2.pos ==> sp_pairs(bytes.subrange(0, l), st, n) == Err::<
            (Seq<TermV>, Seq<TermV>, PState),
            BertError,
        >(BertError::EOF(l as usize)),
    decreases bytes.len() - st.pos, 1int, n,
{
    if n > 0 {
        lemma_decode_wf(bytes, st);
        let (k, st1) = sp_term(bytes, st)->Ok_0;
        lemma_decode_wf(bytes, st1);
        let (v, st2) = sp_term(bytes, st1)->Ok_0;
        lemma_decode_wf_pairs(bytes, st2, n - 1);
        let stfin = sp_pairs(bytes, st, n)->Ok_0.2;
        assert(forall|i: int|
            st.floats.len() <= i < st1.floats.len() ==> st1.floats[i] == (
            #[trigger] stfin.floats[i]));
        assert(forall|i: int|
            st.floats.len() <= i < st2.floats.len() ==> st2.floats[i] == (
            #[trigger] stfin.floats[i]));
        lemma_run_bounded(bytes, st, st1, stfin);
        lemma_decode_prefix(bytes, st, l);
        if st1.pos <= l {
            lemma_run_bounded(bytes, st, st2, stfin);
            lemma_decode_prefix(bytes, st1, l);
            if st2.pos <= l {
                lemma_pairs_prefix(bytes, st2, n - 1, l);
            }
        }
    }
}

/// Cutting a well-formed single-term encoding anywhere short of its end
/// makes the decode fail with the end-of-input error at the cut, never with
/// an out-of-bounds read. Legacy floats are left out: their text runs to
/// the first zero byte or the end of the input, so an encoding that holds
/// one can change meaning, rather than fail, when it is cut.
pub proof fn lemma_truncation_eof(bytes: Seq<u8>, st: PState, l: int)
    requires
        session_bounded(bytes, st),
        sp_parse(bytes, st) is Ok,
        ieee_only(st.floats, sp_parse(bytes, st)->Ok_0.1.floats),
        st.pos <= l < bytes.len(),
    ensures
        sp_parse(bytes.subrange(0, l), st) == Err::<(TermV, PState), BertError>(
            BertError::EOF(l as usize),
        ),
{
    let tb = bytes.subrange(0, l);
    if st.pos < l {
        assert(tb[st.pos] == bytes[st.pos]);
        let st1 = PState { pos: st.pos + 1, ..st };
        lemma_decode_prefix(bytes, st1, l);
        assert(sp_term(bytes, st1)->Ok_0.1.pos == bytes.len());
    }
}

proof fn lemma_dec_digits_no_nl(n: nat)
    ensures
        forall|k: int| 0 <= k < dec_digits(n).len() ==> dec_digits(n)[k] != '\n',
    decreases n,
{
    if n < 10 {
        assert(dec_digits(n) == seq![digit_char(n)]);
    } else {
        lemma_dec_digits_no_nl(n / 10);
        assert(dec_digits(n) == dec_digits(n / 10).push(digit_char(n % 10)));
    }
}

proof fn lemma_int_text_no_nl(v: int)
    ensures
        forall|k: int| 0 <= k < int_text(v).len() ==> int_text(v)[k] != '\n',
{
    if v < 0 {
        lemma_dec_digits_no_nl((-v) as nat);
    } else {
        lemma_dec_digits_no_nl(v as nat);
    }
}

proof fn lemma_int_items_no_nl(
    ts: Seq<TermV>,
    tab: Seq<char>,
    ft: Seq<Seq<char>>,
    iw: nat,
    mx: nat,
    padc: Seq<char>,
    j: int,
)
    requires
        forall|i: int| 0 <= i < ts.len() ==> ts[i] is Int,
    ensures
        forall|k: int|
            0 <= k < render_items(ts, tab, ft, iw, mx, padc, Seq::<char>::empty(), j).len()
                ==> render_items(ts, tab, ft, iw, mx, padc, Seq::<char>::empty(), j)[k] != '\n',
    decreases ts.len() - j,
{
    if 0 <= j < ts.len() {
        lemma_int_items_no_nl(ts, tab, ft, iw, mx, padc, j + 1);
        lemma_int_text_no_nl(ts[j]->Int_0 as int);
        assert(render(ts[j], tab, ft, iw, mx, padc) == int_text(ts[j]->Int_0 as int));
        let whole = render_items(ts, tab, ft, iw, mx, padc, Seq::<char>::empty(), j);
        assert(whole == (if j > 0 {
            seq![',', ' ']
        } else {
            Seq::<char>::empty()
        }) + Seq::<char>::empty() + render(ts[j], tab, ft, iw, mx, padc) + render_items(
            ts,
            tab,
            ft,
            iw,
            mx,
            padc,
            Seq::<char>::empty(),
            j + 1,
        ));
        assert forall|k: int| 0 <= k < whole.len() implies whole[k] != '\n' by {
            let sep: Seq<char> = if j > 0 {
                seq![',', ' ']
            } else {
                Seq::<char>::empty()
            };
            let mid = render(ts[j], tab, ft, iw, mx, padc);
            let rest = render_items(ts, tab, ft, iw, mx, padc, Seq::<char>::empty(), j + 1);
            if k < sep.len() {
                assert(whole[k] == sep[k]);
            } else if k < sep.len() + mid.len() {
                assert(whole[k] == mid[k - sep.len()]);
            } else {
                assert(whole[k] == rest[k - sep.len() - mid.len()]);
            }
        }
    } else {
        assert(render_items(ts, tab, ft, iw, mx, padc, Seq::<char>::empty(), j)
            =~= Seq::<char>::empty());
    }
}

/// A list of exactly `mx` (or fewer) integers is rendered on a single line:
/// its text holds no newline at all.
pub proof fn lemma_inline_int_list_one_line(
    ts: Seq<TermV>,
    tab: Seq<char>,
    ft: Seq<Seq<char>>,
    iw: nat,
    mx: nat,
    pad: Seq<char>,
)
    requires
        ts.len() <= mx,
        forall|i: int| 0 <= i < ts.len() ==> ts[i] is Int,
    ensures
        forall|k: int|
            0 <= k < render(TermV::List(ts), tab, ft, iw, mx, pad).len() ==> render(
                TermV::List(ts),
                tab,
                ft,
                iw,
                mx,
                pad,
            )[k] != '\n',
{
    assert(forall|i: int| 0 <= i < ts.len() ==> is_basic(#[trigger] ts[i]));
    lemma_layout_inline(ts, tab, ft, iw, mx, pad);
    lemma_int_items_no_nl(ts, tab, ft, iw, mx, pad + spaces(iw), 0);
}

} // verus!
