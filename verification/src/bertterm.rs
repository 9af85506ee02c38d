use vstd::prelude::*;

use crate::numtext::{big_value, int_text};
use crate::numtext::{bigint_chars, i32_chars};
use crate::symtable::Symtable;

verus! {

pub const DEFAULT_INDENT_WIDTH: usize = 2;

pub const DEFAULT_MAX_TERMS_PER_LINE: usize = 4;

/// A float payload as read from the wire: either the raw bits of an 8-byte
/// IEEE value, or the text of a legacy float. Turning either into decimal
/// text is floating-point work and is left to the host program; the decoder
/// collects payloads in a table and terms refer to them by index.
#[derive(Debug, PartialEq)]
pub enum FloatEnc {
    Ieee(u64),
    Text(Vec<u8>),
}

/// The spec-level value of a float payload.
pub ghost enum FloatV {
    Ieee(u64),
    Text(Seq<u8>),
}

impl FloatEnc {
    pub open spec fn deep(self) -> FloatV {
        match self {
            FloatEnc::Ieee(b) => FloatV::Ieee(b),
            FloatEnc::Text(t) => FloatV::Text(t@),
        }
    }
}

/// One decoded term.
///
/// `Atom` holds a handle into the symbol table that interned its text;
/// `Float` holds an index into the float table built during the same decode.
/// `Dict` holds the keys and the values of a map as two parallel vectors.
#[derive(Debug, PartialEq)]
pub enum BertTerm {
    Nil,
    Int(i32),
    BigInt { negative: bool, digits: Vec<u8> },
    Float { idx: usize },
    Atom { offset: usize, length: usize },
    Tuple(Vec<BertTerm>),
    List(Vec<BertTerm>),
    Dict(Vec<BertTerm>, Vec<BertTerm>),
    Str(Vec<u8>),
    Binary(Vec<u8>),
}

/// The spec-level shape of a term, with sequences in place of vectors.
pub ghost enum TermV {
    Nil,
    Int(i32),
    BigInt { negative: bool, digits: Seq<u8> },
    Float { idx: usize },
    Atom { offset: usize, length: usize },
    Tuple(Seq<TermV>),
    List(Seq<TermV>),
    Dict(Seq<TermV>, Seq<TermV>),
    Str(Seq<u8>),
    Binary(Seq<u8>),
}

impl BertTerm {
    /// The spec-level shape of this term.
    pub open spec fn deep(self) -> TermV
        decreases self,
    {
        match self {
            BertTerm::Nil => TermV::Nil,
            BertTerm::Int(n) => TermV::Int(n),
            BertTerm::BigInt { negative, digits } => TermV::BigInt {
                negative,
                digits: digits@,
            },
            BertTerm::Float { idx } => TermV::Float { idx },
            BertTerm::Atom { offset, length } => TermV::Atom { offset, length },
            BertTerm::Tuple(ts) => TermV::Tuple(seq_deep(ts@)),
            BertTerm::List(ts) => TermV::List(seq_deep(ts@)),
            BertTerm::Dict(ks, vs) => TermV::Dict(seq_deep(ks@), seq_deep(vs@)),
            BertTerm::Str(bs) => TermV::Str(bs@),
            BertTerm::Binary(bs) => TermV::Binary(bs@),
        }
    }
}

/// The spec-level shapes of a sequence of terms.
pub open spec fn seq_deep(ts: Seq<BertTerm>) -> Seq<TermV>
    decreases ts,
{
    if ts.len() == 0 {
        Seq::empty()
    } else {
        seq![ts[0].deep()] + seq_deep(ts.drop_first())
    }
}

pub proof fn lemma_seq_deep_len(ts: Seq<BertTerm>)
    ensures
        seq_deep(ts).len() == ts.len(),
    decreases ts.len(),
{
    if ts.len() > 0 {
        lemma_seq_deep_len(ts.drop_first());
    }
}

pub proof fn lemma_seq_deep_index(ts: Seq<BertTerm>, i: int)
    requires
        0 <= i < ts.len(),
    ensures
        seq_deep(ts).len() == ts.len(),
        seq_deep(ts)[i] == ts[i].deep(),
    decreases ts.len(),
{
    lemma_seq_deep_len(ts);
    if i > 0 {
        lemma_seq_deep_index(ts.drop_first(), i - 1);
    }
}

pub proof fn lemma_seq_deep_push(ts: Seq<BertTerm>, t: BertTerm)
    ensures
        seq_deep(ts.push(t)) == seq_deep(ts).push(t.deep()),
    decreases ts.len(),
{
    assert(ts.push(t)[0] == if ts.len() == 0 {
        t
    } else {
        ts[0]
    });
    if ts.len() == 0 {
        assert(ts.push(t).drop_first() =~= Seq::<BertTerm>::empty());
        assert(seq_deep(Seq::<BertTerm>::empty()) =~= Seq::<TermV>::empty());
        assert(seq_deep(ts) =~= Seq::<TermV>::empty());
        assert(seq_deep(ts.push(t)) =~= seq_deep(ts).push(t.deep()));
    } else {
        assert(ts.push(t).drop_first() =~= ts.drop_first().push(t));
        lemma_seq_deep_push(ts.drop_first(), t);
        assert(seq_deep(ts.push(t)) =~= seq_deep(ts).push(t.deep()));
    }
}

/// A term is basic when it is not itself a collection; the renderer lays a
/// collection out on one line only when all of its elements are basic.
pub open spec fn is_basic(t: TermV) -> bool {
    match t {
        TermV::Tuple(_) => false,
        TermV::List(_) => false,
        TermV::Dict(_, _) => false,
        _ => true,
    }
}

impl BertTerm {
    /// Whether this term is basic (not a tuple, list, or map).
    pub fn is_basic(&self) -> (r: bool)
        ensures
            r == is_basic(self.deep()),
    {
        match self {
            BertTerm::Tuple(_) => false,
            BertTerm::List(_) => false,
            BertTerm::Dict(_, _) => false,
            _ => true,
        }
    }
}

/// Well-formedness of a term against a symbol table of `tab_len` characters
/// and a float table of `nfloats` entries: every atom handle lies inside the
/// table, every float index inside the float table, and the keys and values
/// of a map have equal length.
pub open spec fn wf_term(t: TermV, tab_len: int, nfloats: int) -> bool
    decreases t,
{
    match t {
        TermV::Float { idx } => (idx as int) < nfloats,
        TermV::Atom { offset, length } => offset + length <= tab_len,
        TermV::Tuple(ts) => wf_seq(ts, tab_len, nfloats),
        TermV::List(ts) => wf_seq(ts, tab_len, nfloats),
        TermV::Dict(ks, vs) => ks.len() == vs.len() && wf_seq(ks, tab_len, nfloats) && wf_seq(
            vs,
            tab_len,
            nfloats,
        ),
        _ => true,
    }
}

pub open spec fn wf_seq(ts: Seq<TermV>, tab_len: int, nfloats: int) -> bool
    decreases ts,
{
    if ts.len() == 0 {
        true
    } else {
        wf_term(ts[0], tab_len, nfloats) && wf_seq(ts.drop_first(), tab_len, nfloats)
    }
}

pub proof fn lemma_wf_seq_index(ts: Seq<TermV>, tab_len: int, nfloats: int, i: int)
    requires
        wf_seq(ts, tab_len, nfloats),
        0 <= i < ts.len(),
    ensures
        wf_term(ts[i], tab_len, nfloats),
    decreases ts.len(),
{
    if i > 0 {
        lemma_wf_seq_index(ts.drop_first(), tab_len, nfloats, i - 1);
    }
}

pub proof fn lemma_wf_seq_push(ts: Seq<TermV>, tab_len: int, nfloats: int, t: TermV)
    requires
        wf_seq(ts, tab_len, nfloats),
        wf_term(t, tab_len, nfloats),
    ensures
        wf_seq(ts.push(t), tab_len, nfloats),
    decreases ts.len(),
{
    assert(ts.push(t)[0] == if ts.len() == 0 {
        t
    } else {
        ts[0]
    });
    if ts.len() == 0 {
        assert(ts.push(t).drop_first() =~= Seq::<TermV>::empty());
        assert(wf_seq(Seq::<TermV>::empty(), tab_len, nfloats));
        assert(wf_term(ts.push(t)[0], tab_len, nfloats));
        assert(wf_seq(ts.push(t), tab_len, nfloats));
    } else {
        assert(ts.push(t).drop_first() =~= ts.drop_first().push(t));
        lemma_wf_seq_push(ts.drop_first(), tab_len, nfloats, t);
        assert(wf_term(ts.push(t)[0], tab_len, nfloats));
        assert(wf_seq(ts.push(t), tab_len, nfloats));
    }
}

/// A well-formed symbol table never shrinks during a decode, so handles
/// stay valid when the table grows.
pub proof fn lemma_wf_term_grow(t: TermV, tl1: int, nf1: int, tl2: int, nf2: int)
    requires
        wf_term(t, tl1, nf1),
        tl1 <= tl2,
        nf1 <= nf2,
    ensures
        wf_term(t, tl2, nf2),
    decreases t,
{
    match t {
        TermV::Tuple(ts) => lemma_wf_seq_grow(ts, tl1, nf1, tl2, nf2),
        TermV::List(ts) => lemma_wf_seq_grow(ts, tl1, nf1, tl2, nf2),
        TermV::Dict(ks, vs) => {
            lemma_wf_seq_grow(ks, tl1, nf1, tl2, nf2);
            lemma_wf_seq_grow(vs, tl1, nf1, tl2, nf2);
        },
        _ => {},
    }
}

pub proof fn lemma_wf_seq_grow(ts: Seq<TermV>, tl1: int, nf1: int, tl2: int, nf2: int)
    requires
        wf_seq(ts, tl1, nf1),
        tl1 <= tl2,
        nf1 <= nf2,
    ensures
        wf_seq(ts, tl2, nf2),
    decreases ts,
{
    if ts.len() > 0 {
        lemma_wf_term_grow(ts[0], tl1, nf1, tl2, nf2);
        lemma_wf_seq_grow(ts.drop_first(), tl1, nf1, tl2, nf2);
    }
}

impl BertTerm {
    /// Whether every atom handle and float index in this term lies inside a
    /// symbol table of `tab_len` characters and a float table of `nfloats`
    /// entries.
    pub fn is_wf(&self, tab_len: usize, nfloats: usize) -> (r: bool)
        ensures
            r == wf_term(self.deep(), tab_len as int, nfloats as int),
        decreases self,
    {
        match self {
            BertTerm::Float { idx } => *idx < nfloats,
            BertTerm::Atom { offset, length } => {
                *offset <= usize::MAX - *length && *offset + *length <= tab_len
            },
            BertTerm::Tuple(ts) => Self::all_wf(ts, tab_len, nfloats),
            BertTerm::List(ts) => Self::all_wf(ts, tab_len, nfloats),
            BertTerm::Dict(ks, vs) => {
                proof {
                    lemma_seq_deep_len(ks@);
                    lemma_seq_deep_len(vs@);
                }
                ks.len() == vs.len() && Self::all_wf(ks, tab_len, nfloats) && Self::all_wf(
                    vs,
                    tab_len,
                    nfloats,
                )
            },
            _ => true,
        }
    }

    fn all_wf(ts: &Vec<BertTerm>, tab_len: usize, nfloats: usize) -> (r: bool)
        ensures
            r == wf_seq(seq_deep(ts@), tab_len as int, nfloats as int),
        decreases ts,
    {
        let mut i: usize = 0;
        let ghost tl = tab_len as int;
        let ghost nf = nfloats as int;
        while i < ts.len()
            invariant
                i <= ts.len(),
                tl == tab_len as int,
                nf == nfloats as int,
                wf_seq(seq_deep(ts@.subrange(0, i as int)), tl, nf),
            decreases ts.len() - i,
        {
            proof {
                assert(decreases_to!(*ts => ts@));
                assert(decreases_to!(ts@ => ts@[i as int]));
            }
            let ok = ts[i].is_wf(tab_len, nfloats);
            if !ok {
                proof {
                    lemma_seq_deep_index(ts@, i as int);
                    if wf_seq(seq_deep(ts@), tl, nf) {
                        lemma_wf_seq_index(seq_deep(ts@), tl, nf, i as int);
                    }
                }
                return false;
            }
            proof {
                assert(ts@.subrange(0, i + 1) =~= ts@.subrange(0, i as int).push(ts@[i as int]));
                lemma_seq_deep_push(ts@.subrange(0, i as int), ts@[i as int]);
                lemma_wf_seq_push(
                    seq_deep(ts@.subrange(0, i as int)),
                    tl,
                    nf,
                    ts@[i as int].deep(),
                );
            }
            i = i + 1;
        }
        proof {
            assert(ts@.subrange(0, ts@.len() as int) =~= ts@);
        }
        true
    }
}

/// Whether a byte is a printable ASCII character.
pub open spec fn printable(b: u8) -> bool {
    0x20 <= b && b <= 0x7e
}

/// Whether a byte is a printable ASCII character; other bytes are rendered
/// as `\xHH` escapes.
pub fn is_printable(b: u8) -> (r: bool)
    ensures
        r == printable(b),
{
    b >= 0x20 && b <= 0x7e
}

/// The lower-case hex character of a nibble.
pub open spec fn hex_lower(d: u8) -> char
    recommends
        d < 16,
{
    if d < 10 {
        ((0x30 + d) as u8) as char
    } else {
        ((0x57 + d) as u8) as char
    }
}

/// The rendering of one byte of a string or binary: the character itself if
/// printable, a `\xHH` escape otherwise.
pub open spec fn esc_byte(b: u8) -> Seq<char> {
    if printable(b) {
        seq![b as char]
    } else {
        seq!['\\', 'x', hex_lower(b / 16), hex_lower(b % 16)]
    }
}

/// The rendering of the bytes of a string or binary.
pub open spec fn escaped(bs: Seq<u8>) -> Seq<char>
    decreases bs.len(),
{
    if bs.len() == 0 {
        Seq::empty()
    } else {
        esc_byte(bs[0]) + escaped(bs.drop_first())
    }
}

/// `n` spaces.
pub open spec fn spaces(n: nat) -> Seq<char> {
    Seq::new(n, |i: int| ' ')
}

/// A newline followed by the given indentation.
pub open spec fn nl(pad: Seq<char>) -> Seq<char> {
    seq!['\n'] + pad
}

/// A collection is small when it has at most `mx` elements and every element
/// is basic; a small collection is rendered on a single line.
pub open spec fn small_coll(ts: Seq<TermV>, mx: nat) -> bool {
    ts.len() <= mx && (forall|i: int| 0 <= i < ts.len() ==> is_basic(#[trigger] ts[i]))
}

/// The per-element prefix of a collection: empty when the collection is
/// rendered on one line, a newline plus one deeper level of indentation
/// otherwise.
pub open spec fn coll_pfx(small: bool, iw: nat, pad: Seq<char>) -> Seq<char> {
    if small {
        Seq::empty()
    } else {
        nl(pad + spaces(iw))
    }
}

/// What precedes the closing delimiter of a collection: nothing when it is
/// rendered on one line, a newline plus the enclosing indentation otherwise.
pub open spec fn coll_end(small: bool, pad: Seq<char>) -> Seq<char> {
    if small {
        Seq::empty()
    } else {
        nl(pad)
    }
}

/// The text of a term, rendered against the symbol table `tab`, the float
/// texts `ft`, an indent width `iw`, a small-collection bound `mx`, and the
/// current indentation `pad`.
pub open spec fn render(t: TermV, tab: Seq<char>, ft: Seq<Seq<char>>, iw: nat, mx: nat, pad: Seq<char>) -> Seq<char>
    decreases t, 1int, 0int,
{
    match t {
        TermV::Nil => seq!['[', ']'],
        TermV::Int(n) => int_text(n as int),
        TermV::BigInt { negative, digits } => int_text(big_value(negative, digits)),
        TermV::Float { idx } => ft[idx as int],
        TermV::Atom { offset, length } => tab.subrange(offset as int, offset + length),
        TermV::Str(bs) => seq!['"'] + escaped(bs) + seq!['"'],
        TermV::Binary(bs) => seq!['<', '<', '"'] + escaped(bs) + seq!['"', '>', '>'],
        TermV::Tuple(ts) => render_coll(ts, tab, ft, iw, mx, pad, '{', '}'),
        TermV::List(ts) => render_coll(ts, tab, ft, iw, mx, pad, '[', ']'),
        TermV::Dict(ks, vs) => {
            let small = small_coll(ks, mx) && small_coll(vs, mx);
            seq!['#', '{'] + render_pairs(
                t,
                ks,
                vs,
                tab,
                ft,
                iw,
                mx,
                pad + spaces(iw),
                coll_pfx(small, iw, pad),
                0,
            ) + coll_end(small, pad) + seq!['}']
        },
    }
}

/// The text of a tuple or list: the elements between `open` and `close`.
pub open spec fn render_coll(
    ts: Seq<TermV>,
    tab: Seq<char>,
    ft: Seq<Seq<char>>,
    iw: nat,
    mx: nat,
    pad: Seq<char>,
    open: char,
    close: char,
) -> Seq<char>
    decreases ts, 1int, 0int,
{
    let small = small_coll(ts, mx);
    seq![open] + render_items(ts, tab, ft, iw, mx, pad + spaces(iw), coll_pfx(small, iw, pad), 0)
        + coll_end(small, pad) + seq![close]
}

/// The text of the elements of a collection from position `j` on: each is
/// preceded by `", "` (except the first of the collection) and by the
/// per-element prefix `pfx`, and rendered at the child indentation `padc`.
pub open spec fn render_items(
    ts: Seq<TermV>,
    tab: Seq<char>,
    ft: Seq<Seq<char>>,
    iw: nat,
    mx: nat,
    padc: Seq<char>,
    pfx: Seq<char>,
    j: int,
) -> Seq<char>
    decreases ts, 0int, ts.len() - j,
{
    if j < 0 || j >= ts.len() {
        Seq::empty()
    } else {
        (if j > 0 {
            seq![',', ' ']
        } else {
            Seq::empty()
        }) + pfx + render(ts[j], tab, ft, iw, mx, padc) + render_items(
            ts,
            tab,
            ft,
            iw,
            mx,
            padc,
            pfx,
            j + 1,
        )
    }
}

/// The text of the key/value pairs of a map from position `j` on, as
/// `key => value` entries. The map term `t` itself only serves as the
/// termination measure of the recursion; `ks` and `vs` are its fields.
pub open spec fn render_pairs(
    t: TermV,
    ks: Seq<TermV>,
    vs: Seq<TermV>,
    tab: Seq<char>,
    ft: Seq<Seq<char>>,
    iw: nat,
    mx: nat,
    padc: Seq<char>,
    pfx: Seq<char>,
    j: int,
) -> Seq<char>
    decreases t, 0int, ks.len() - j,
{
    if t is Dict && t->Dict_0 == ks && t->Dict_1 == vs {
        if j < 0 || j >= ks.len() || j >= vs.len() {
            Seq::empty()
        } else {
            (if j > 0 {
                seq![',', ' ']
            } else {
                Seq::empty()
            }) + pfx + render(ks[j], tab, ft, iw, mx, padc) + seq![' ', '=', '>', ' '] + render(
                vs[j],
                tab,
                ft,
                iw,
                mx,
                padc,
            ) + render_pairs(t, ks, vs, tab, ft, iw, mx, padc, pfx, j + 1)
        }
    } else {
        Seq::empty()
    }
}

/// The spec-level float texts: the view of each entry.
pub open spec fn deep_texts(fts: Seq<Vec<char>>) -> Seq<Seq<char>> {
    fts.map_values(|v: Vec<char>| v@)
}

/// Relies on the `FromIterator` impl of `String`, which concatenates the
/// characters of the iterator.
#[verifier::external_body]
fn chars_to_string(v: &Vec<char>) -> (r: String)
    ensures
        r@ == v@,
{
    v.iter().collect()
}

fn push_all(out: &mut Vec<char>, s: &Vec<char>)
    ensures
        final(out)@ == old(out)@ + s@,
{
    let mut i: usize = 0;
    while i < s.len()
        invariant
            i <= s.len(),
            out@ == old(out)@ + s@.subrange(0, i as int),
        decreases s.len() - i,
    {
        proof {
            assert(s@.subrange(0, i + 1) =~= s@.subrange(0, i as int).push(s@[i as int]));
        }
        out.push(s[i]);
        i = i + 1;
    }
    proof {
        assert(s@.subrange(0, s@.len() as int) =~= s@);
    }
}

/// A pretty printer for `term` where sub-terms are indented with a width of
/// `indent_width` and a maximum of `max_terms_per_line` basic terms can be
/// printed per line. Atom handles are resolved in `symtable`, float indices
/// in `float_texts`.
pub struct PrettyPrinter<'a> {
    pub term: &'a BertTerm,
    pub indent_width: usize,
    pub max_terms_per_line: usize,
    pub symtable: &'a Symtable,
    pub float_texts: &'a Vec<Vec<char>>,
}

impl<'a> PrettyPrinter<'a> {
    /// Creates a pretty printer for `term`.
    pub fn new(
        term: &'a BertTerm,
        indent_width: usize,
        max_terms_per_line: usize,
        symtable: &'a Symtable,
        float_texts: &'a Vec<Vec<char>>,
    ) -> (r: Self)
        ensures
            r == (PrettyPrinter { term, indent_width, max_terms_per_line, symtable, float_texts }),
    {
        PrettyPrinter { term, indent_width, max_terms_per_line, symtable, float_texts }
    }

    /// The spec-level rendering this printer produces.
    pub open spec fn rendering(&self) -> Seq<char> {
        render(
            self.term.deep(),
            self.symtable@,
            deep_texts(self.float_texts@),
            self.indent_width as nat,
            self.max_terms_per_line as nat,
            Seq::empty(),
        )
    }

    /// Renders the term as text.
    pub fn format(&self) -> (r: String)
        requires
            wf_term(self.term.deep(), self.symtable@.len() as int, self.float_texts@.len() as int),
        ensures
            r@ == self.rendering(),
    {
        let mut out: Vec<char> = Vec::new();
        let ind: Vec<char> = Vec::new();
        self.write_term(self.term, &ind, &mut out);
        chars_to_string(&out)
    }

    fn is_small_collection(&self, ts: &Vec<BertTerm>) -> (r: bool)
        ensures
            r == small_coll(seq_deep(ts@), self.max_terms_per_line as nat),
    {
        proof {
            lemma_seq_deep_len(ts@);
        }
        if ts.len() > self.max_terms_per_line {
            return false;
        }
        let mut i: usize = 0;
        while i < ts.len()
            invariant
                i <= ts.len(),
                seq_deep(ts@).len() == ts@.len(),
                forall|k: int| 0 <= k < i ==> is_basic(#[trigger] seq_deep(ts@)[k]),
            decreases ts.len() - i,
        {
            proof {
                lemma_seq_deep_index(ts@, i as int);
            }
            if !ts[i].is_basic() {
                return false;
            }
            i = i + 1;
        }
        true
    }

    fn write_term(&self, t: &BertTerm, ind: &Vec<char>, out: &mut Vec<char>)
        requires
            wf_term(t.deep(), self.symtable@.len() as int, self.float_texts@.len() as int),
        ensures
            final(out)@ == old(out)@ + render(
                t.deep(),
                self.symtable@,
                deep_texts(self.float_texts@),
                self.indent_width as nat,
                self.max_terms_per_line as nat,
                ind@,
            ),
        decreases t, 1int, 0int,
    {
        match t {
            BertTerm::Nil => {
                out.push('[');
                out.push(']');
            },
            BertTerm::Int(n) => {
                let cs = i32_chars(*n);
                push_all(out, &cs);
            },
            BertTerm::BigInt { negative, digits } => {
                let cs = bigint_chars(*negative, digits);
                push_all(out, &cs);
            },
            BertTerm::Float { idx } => {
                push_all(out, &self.float_texts[*idx]);
            },
            BertTerm::Atom { offset, length } => {
                let cs = self.symtable.get(*offset, *length);
                push_all(out, &cs);
            },
            BertTerm::Str(bs) => {
                out.push('"');
                Self::write_escaped(bs, out);
                out.push('"');
            },
            BertTerm::Binary(bs) => {
                out.push('<');
                out.push('<');
                out.push('"');
                Self::write_escaped(bs, out);
                out.push('"');
                out.push('>');
                out.push('>');
            },
            BertTerm::Tuple(ts) => {
                proof {
                    assert(decreases_to!(*t => t->Tuple_0));
                }
                self.write_collection(ts, ind, out, '{', '}');
            },
            BertTerm::List(ts) => {
                proof {
                    assert(decreases_to!(*t => t->List_0));
                }
                self.write_collection(ts, ind, out, '[', ']');
            },
            BertTerm::Dict(ks, vs) => {
                self.write_map(t, ks, vs, ind, out);
            },
        }
    }

    fn write_escaped(bs: &Vec<u8>, out: &mut Vec<char>)
        ensures
            final(out)@ == old(out)@ + escaped(bs@),
    {
        let mut i: usize = 0;
        proof {
            assert(bs@.skip(0) =~= bs@);
        }
        while i < bs.len()
            invariant
                i <= bs.len(),
                out@ + escaped(bs@.skip(i as int)) == old(out)@ + escaped(bs@),
            decreases bs.len() - i,
        {
            let b = bs[i];
            proof {
                assert(bs@.skip(i as int)[0] == b);
                assert(bs@.skip(i as int).drop_first() =~= bs@.skip(i + 1));
            }
            if b >= 0x20 && b <= 0x7e {
                out.push(b as char);
            } else {
                out.push('\\');
                out.push('x');
                let hi = b / 16;
                let lo = b % 16;
                out.push(if hi < 10 {
                    (0x30 + hi) as char
                } else {
                    (0x57 + hi) as char
                });
                out.push(if lo < 10 {
                    (0x30 + lo) as char
                } else {
                    (0x57 + lo) as char
                });
            }
            i = i + 1;
        }
        proof {
            assert(bs@.skip(bs@.len() as int) =~= Seq::<u8>::empty());
            assert(out@ =~= old(out)@ + escaped(bs@));
        }
    }

    fn child_indent(&self, ind: &Vec<char>) -> (r: Vec<char>)
        ensures
            r@ == ind@ + spaces(self.indent_width as nat),
    {
        let mut r: Vec<char> = Vec::new();
        push_all(&mut r, ind);
        let mut k: usize = 0;
        while k < self.indent_width
            invariant
                k <= self.indent_width,
                r@ == ind@ + spaces(k as nat),
            decreases self.indent_width - k,
        {
            r.push(' ');
            proof {
                assert(spaces((k + 1) as nat) =~= spaces(k as nat).push(' '));
            }
            k = k + 1;
        }
        r
    }

    fn write_collection(
        &self,
        ts: &Vec<BertTerm>,
        ind: &Vec<char>,
        out: &mut Vec<char>,
        open: char,
        close: char,
    )
        requires
            wf_seq(seq_deep(ts@), self.symtable@.len() as int, self.float_texts@.len() as int),
        ensures
            final(out)@ == old(out)@ + render_coll(
                seq_deep(ts@),
                self.symtable@,
                deep_texts(self.float_texts@),
                self.indent_width as nat,
                self.max_terms_per_line as nat,
                ind@,
                open,
                close,
            ),
        decreases *ts, 1int, 0int,
    {
        let ghost tsd = seq_deep(ts@);
        let ghost tab = self.symtable@;
        let ghost ft = deep_texts(self.float_texts@);
        let ghost iw = self.indent_width as nat;
        let ghost mx = self.max_terms_per_line as nat;
        proof {
            lemma_seq_deep_len(ts@);
        }
        let small = self.is_small_collection(ts);
        let ind2 = self.child_indent(ind);
        let ghost pfx = coll_pfx(small, iw, ind@);
        out.push(open);
        let mut i: usize = 0;
        while i < ts.len()
            invariant
                i <= ts.len(),
                tsd == seq_deep(ts@),
                tsd.len() == ts@.len(),
                tab == self.symtable@,
                ft == deep_texts(self.float_texts@),
                iw == self.indent_width as nat,
                mx == self.max_terms_per_line as nat,
                small == small_coll(tsd, mx),
                pfx == coll_pfx(small, iw, ind@),
                ind2@ == ind@ + spaces(iw),
                wf_seq(tsd, self.symtable@.len() as int, self.float_texts@.len() as int),
                out@ + render_items(tsd, tab, ft, iw, mx, ind2@, pfx, i as int) == old(out)@
                    + seq![open] + render_items(tsd, tab, ft, iw, mx, ind2@, pfx, 0),
            decreases ts.len() - i,
        {
            if i > 0 {
                out.push(',');
                out.push(' ');
            }
            if !small {
                out.push('\n');
                push_all(out, &ind2);
            }
            proof {
                assert(decreases_to!(*ts => ts@));
                assert(decreases_to!(ts@ => ts@[i as int]));
                lemma_seq_deep_index(ts@, i as int);
                lemma_wf_seq_index(
                    tsd,
                    self.symtable@.len() as int,
                    self.float_texts@.len() as int,
                    i as int,
                );
            }
            self.write_term(&ts[i], &ind2, out);
            i = i + 1;
        }
        if !small {
            out.push('\n');
            push_all(out, ind);
        }
        out.push(close);
        proof {
            assert(out@ =~= old(out)@ + render_coll(tsd, tab, ft, iw, mx, ind@, open, close));
        }
    }

    #[verifier::rlimit(100)]
    fn write_map(
        &self,
        t: &BertTerm,
        ks: &Vec<BertTerm>,
        vs: &Vec<BertTerm>,
        ind: &Vec<char>,
        out: &mut Vec<char>,
    )
        requires
            *t == BertTerm::Dict(*ks, *vs),
            wf_term(t.deep(), self.symtable@.len() as int, self.float_texts@.len() as int),
        ensures
            final(out)@ == old(out)@ + render(
                t.deep(),
                self.symtable@,
                deep_texts(self.float_texts@),
                self.indent_width as nat,
                self.max_terms_per_line as nat,
                ind@,
            ),
        decreases *t, 0int, 0int,
    {
        let ghost td = t.deep();
        let ghost ksd = seq_deep(ks@);
        let ghost vsd = seq_deep(vs@);
        let ghost tab = self.symtable@;
        let ghost ft = deep_texts(self.float_texts@);
        let ghost iw = self.indent_width as nat;
        let ghost mx = self.max_terms_per_line as nat;
        proof {
            lemma_seq_deep_len(ks@);
            lemma_seq_deep_len(vs@);
        }
        let small = self.is_small_collection(ks) && self.is_small_collection(vs);
        let ind2 = self.child_indent(ind);
        let ghost pfx = coll_pfx(small, iw, ind@);
        out.push('#');
        out.push('{');
        let mut i: usize = 0;
        while i < ks.len()
            invariant
                i <= ks.len(),
                *t == BertTerm::Dict(*ks, *vs),
                ks@.len() == vs@.len(),
                td == t.deep(),
                td == TermV::Dict(ksd, vsd),
                ksd == seq_deep(ks@),
                vsd == seq_deep(vs@),
                ksd.len() == ks@.len(),
                vsd.len() == vs@.len(),
                tab == self.symtable@,
                ft == deep_texts(self.float_texts@),
                iw == self.indent_width as nat,
                mx == self.max_terms_per_line as nat,
                small == (small_coll(ksd, mx) && small_coll(vsd, mx)),
                pfx == coll_pfx(small, iw, ind@),
                ind2@ == ind@ + spaces(iw),
                wf_term(td, self.symtable@.len() as int, self.float_texts@.len() as int),
                out@ + render_pairs(td, ksd, vsd, tab, ft, iw, mx, ind2@, pfx, i as int) == old(
                    out,
                )@ + seq!['#', '{'] + render_pairs(td, ksd, vsd, tab, ft, iw, mx, ind2@, pfx, 0),
            decreases ks.len() - i,
        {
            if i > 0 {
                out.push(',');
                out.push(' ');
            }
            if !small {
                out.push('\n');
                push_all(out, &ind2);
            }
            proof {
                assert(decreases_to!(*t => t->Dict_0));
                assert(decreases_to!(*t => t->Dict_1));
                assert(t->Dict_0 == *ks);
                assert(t->Dict_1 == *vs);
                assert(decreases_to!(*ks => ks@));
                assert(decreases_to!(*vs => vs@));
                assert(decreases_to!(ks@ => ks@[i as int]));
                assert(decreases_to!(vs@ => vs@[i as int]));
                assert(decreases_to!(*t => ks@[i as int]));
                assert(decreases_to!(*t => vs@[i as int]));
                lemma_seq_deep_index(ks@, i as int);
                lemma_seq_deep_index(vs@, i as int);
                lemma_wf_seq_index(
                    ksd,
                    self.symtable@.len() as int,
                    self.float_texts@.len() as int,
                    i as int,
                );
                lemma_wf_seq_index(
                    vsd,
                    self.symtable@.len() as int,
                    self.float_texts@.len() as int,
                    i as int,
                );
            }
            self.write_term(&ks[i], &ind2, out);
            out.push(' ');
            out.push('=');
            out.push('>');
            out.push(' ');
            self.write_term(&vs[i], &ind2, out);
            i = i + 1;
        }
        if !small {
            out.push('\n');
            push_all(out, ind);
        }
        out.push('}');
        proof {
            assert(out@ =~= old(out)@ + render(td, tab, ft, iw, mx, ind@));
        }
    }
}

} // verus!
