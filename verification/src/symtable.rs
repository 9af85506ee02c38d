use vstd::prelude::*;

verus! {

pub const DEFAULT_CAPACITY: usize = 4096;

/// A simple symbol table: an append-only arena of characters.
/// Atom terms hold `(offset, length)` handles into it instead of owning text.
#[derive(Debug)]
pub struct Symtable {
    strings: Vec<char>,
}

impl View for Symtable {
    type V = Seq<char>;

    closed spec fn view(&self) -> Seq<char> {
        self.strings@
    }
}

impl Symtable {
    /// Creates a new symbol table; its initial capacity is 4096.
    pub fn new() -> (r: Symtable)
        ensures
            r@ == Seq::<char>::empty(),
    {
        Symtable::with_capacity(DEFAULT_CAPACITY)
    }

    /// Creates a new symbol table with an initial capacity.
    pub fn with_capacity(cap: usize) -> (r: Symtable)
        ensures
            r@ == Seq::<char>::empty(),
    {
        Symtable { strings: Vec::with_capacity(cap) }
    }

    /// Appends the characters of `s` to the arena and returns the offset and
    /// length of the appended region. No deduplication is performed: adding
    /// the same text twice yields two regions.
    pub fn add(&mut self, s: &Vec<char>) -> (r: (usize, usize))
        ensures
            final(self)@ == old(self)@ + s@,
            r.0 == old(self)@.len(),
            r.1 == s@.len(),
    {
        let offset = self.strings.len();
        let mut i: usize = 0;
        while i < s.len()
            invariant
                i <= s.len(),
                self.strings@ == old(self).strings@ + s@.subrange(0, i as int),
            decreases s.len() - i,
        {
            self.strings.push(s[i]);
            proof {
                assert(s@.subrange(0, i + 1) == s@.subrange(0, i as int).push(s@[i as int]));
            }
            i = i + 1;
        }
        proof {
            assert(s@.subrange(0, s@.len() as int) == s@);
        }
        (offset, s.len())
    }

    /// The number of characters in the arena.
    pub fn len(&self) -> (r: usize)
        ensures
            r == self@.len(),
    {
        self.strings.len()
    }

    /// Returns a copy of the characters at the given offset and of the given
    /// length. Handles out of the written region are ruled out by the caller.
    pub fn get(&self, offset: usize, len: usize) -> (r: Vec<char>)
        requires
            offset + len <= self@.len(),
        ensures
            r@ == self@.subrange(offset as int, offset + len),
    {
        let mut r: Vec<char> = Vec::with_capacity(len);
        let sl = self.strings.len();
        let mut i: usize = 0;
        while i < len
            invariant
                i <= len,
                sl == self.strings@.len(),
                offset + len <= sl,
                r@ == self.strings@.subrange(offset as int, offset + i),
            decreases len - i,
        {
            r.push(self.strings[offset + i]);
            proof {
                assert(self.strings@.subrange(offset as int, offset + i + 1)
                    == self.strings@.subrange(offset as int, offset + i).push(
                    self.strings@[offset + i],
                ));
            }
            i = i + 1;
        }
        r
    }
}

} // verus!
