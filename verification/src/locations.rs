//! Source positions: one-based Unicode-scalar line and column, zero-based UTF-8
//! byte offset.
use vstd::prelude::*;
use vstd::utf8::*;

use crate::model::Position;

verus! {

/// The largest source accepted, in UTF-8 bytes.
pub const MAX_SOURCE_BYTES: usize = 4194304;

/// Number of UTF-8 bytes of one character.
pub open spec fn width(c: char) -> nat {
    encode_scalar(c as u32).len()
}

/// Number of UTF-8 bytes of a character sequence.
pub open spec fn byte_len(s: Seq<char>) -> nat {
    encode_utf8(s).len()
}

/// Number of line feeds in `s`.
pub open spec fn newlines(s: Seq<char>) -> nat
    decreases s.len(),
{
    if s.len() == 0 {
        0
    } else {
        newlines(s.drop_last()) + if s.last() == '\n' {
            1nat
        } else {
            0nat
        }
    }
}

/// One-based column of the position just after `s`.
pub open spec fn column(s: Seq<char>) -> nat
    decreases s.len(),
{
    if s.len() == 0 {
        1
    } else if s.last() == '\n' {
        1
    } else {
        column(s.drop_last()) + 1
    }
}

/// The position of character index `i` of `src`.
pub open spec fn position_at_char(src: Seq<char>, i: int) -> Position {
    Position {
        line: (1 + newlines(src.take(i))) as usize,
        column: column(src.take(i)) as usize,
        offset: byte_len(src.take(i)) as usize,
    }
}

/// The character index whose UTF-8 byte offset in `src` is `b`, if `b` is a
/// character boundary.
pub open spec fn char_index_at_byte(src: Seq<char>, b: int) -> Option<int> {
    if exists|i: int| 0 <= i <= src.len() && byte_len(src.take(i)) == b {
        Some(choose|i: int| 0 <= i <= src.len() && byte_len(src.take(i)) == b)
    } else {
        None
    }
}

/// The position of byte offset `b`; a byte inside a character has line and column 0.
pub open spec fn position_at_byte(src: Seq<char>, b: int) -> Position {
    match char_index_at_byte(src, b) {
        Some(i) => position_at_char(src, i),
        None => Position { line: 0, column: 0, offset: b as usize },
    }
}

pub proof fn lemma_encode_push(s: Seq<char>, c: char)
    ensures
        encode_utf8(s.push(c)) == encode_utf8(s) + encode_scalar(c as u32),
    decreases s.len(),
{
    if s.len() == 0 {
        assert(s.push(c).drop_first() == s);
        assert(encode_utf8(s) == Seq::<u8>::empty());
        assert(encode_utf8(s.push(c).drop_first()) == Seq::<u8>::empty());
    } else {
        lemma_encode_push(s.drop_first(), c);
        assert(s.push(c).drop_first() == s.drop_first().push(c));
        assert(encode_utf8(s.push(c)) == encode_scalar(s[0] as u32) + encode_utf8(
            s.drop_first().push(c),
        ));
    }
}

pub proof fn lemma_width(c: char)
    ensures
        1 <= width(c) <= 4,
{
    char_is_scalar(c);
}

pub proof fn lemma_byte_len_take(s: Seq<char>, i: int)
    requires
        0 <= i < s.len(),
    ensures
        byte_len(s.take(i + 1)) == byte_len(s.take(i)) + width(s[i]),
{
    assert(s.take(i + 1) == s.take(i).push(s[i]));
    lemma_encode_push(s.take(i), s[i]);
}

/// Byte offsets grow strictly with the character index.
pub proof fn lemma_byte_len_mono(s: Seq<char>, i: int, j: int)
    requires
        0 <= i <= j <= s.len(),
    ensures
        byte_len(s.take(i)) + (j - i) <= byte_len(s.take(j)),
    decreases j - i,
{
    if i < j {
        lemma_byte_len_mono(s, i, j - 1);
        lemma_byte_len_take(s, j - 1);
        lemma_width(s[j - 1]);
    }
}

pub proof fn lemma_byte_len_bound(s: Seq<char>, i: int)
    requires
        0 <= i <= s.len(),
    ensures
        byte_len(s.take(i)) <= byte_len(s),
        i <= byte_len(s.take(i)),
{
    lemma_byte_len_mono(s, i, s.len() as int);
    lemma_byte_len_mono(s, 0, i);
    assert(s.take(s.len() as int) == s);
    assert(s.take(0) == Seq::<char>::empty());
    assert(encode_utf8(Seq::<char>::empty()) == Seq::<u8>::empty());
}

pub proof fn lemma_char_index_unique(s: Seq<char>, i: int)
    requires
        0 <= i <= s.len(),
    ensures
        char_index_at_byte(s, byte_len(s.take(i)) as int) == Some(i),
{
    let b = byte_len(s.take(i)) as int;
    let k = choose|k: int| 0 <= k <= s.len() && byte_len(s.take(k)) == b;
    if k < i {
        lemma_byte_len_mono(s, k, i);
    } else if k > i {
        lemma_byte_len_mono(s, i, k);
    }
}

/// A string whose `len` exceeds the limit has more UTF-8 bytes than the limit.
pub proof fn lemma_len_exceeds(s: &str)
    requires
        s.len() > MAX_SOURCE_BYTES,
    ensures
        byte_len(s@) > MAX_SOURCE_BYTES,
{
}

/// Whether `c` fits in 4 MiB of UTF-8.
pub fn within_source_limit(c: &Vec<char>) -> (r: bool)
    ensures
        r == (byte_len(c@) <= MAX_SOURCE_BYTES),
{
    let mut total: usize = 0;
    let mut i: usize = 0;
    assert(c@.take(0) == Seq::<char>::empty());
    assert(encode_utf8(Seq::<char>::empty()) == Seq::<u8>::empty());
    while i < c.len()
        invariant
            i <= c@.len(),
            total == byte_len(c@.take(i as int)),
            total <= MAX_SOURCE_BYTES,
        decreases c@.len() - i,
    {
        proof {
            lemma_byte_len_take(c@, i as int);
            lemma_width(c@[i as int]);
        }
        let w = char_width(c[i]);
        if w > MAX_SOURCE_BYTES - total {
            proof {
                lemma_byte_len_bound(c@, i + 1);
                assert(c@.take(c@.len() as int) == c@);
            }
            return false;
        }
        total = total + w;
        i = i + 1;
    }
    assert(c@.take(c@.len() as int) == c@);
    true
}

/// UTF-8 width of a character.
pub fn char_width(c: char) -> (w: usize)
    ensures
        w == width(c),
{
    let v = c as u32;
    if v <= 0x7F {
        1
    } else if v <= 0x7FF {
        2
    } else if v <= 0xFFFF {
        proof {
            char_is_scalar(c);
        }
        3
    } else {
        proof {
            char_is_scalar(c);
        }
        4
    }
}

/// Maps character indices and byte offsets of one source to positions. Moving
/// forward reuses the last location, so positions asked in source order cost
/// linear time in total.
pub struct Locations {
    text: Ghost<Seq<char>>,
    index: usize,
    byte: usize,
    line: usize,
    col: usize,
}

impl Locations {
    pub closed spec fn source(&self) -> Seq<char> {
        self.text@
    }

    pub closed spec fn wf(&self) -> bool {
        &&& byte_len(self.text@) <= MAX_SOURCE_BYTES
        &&& self.index <= self.text@.len()
        &&& self.byte == byte_len(self.text@.take(self.index as int))
        &&& self.line == 1 + newlines(self.text@.take(self.index as int))
        &&& self.col == column(self.text@.take(self.index as int))
    }

    pub proof fn lemma_small(&self)
        requires
            self.wf(),
        ensures
            self.source().len() <= MAX_SOURCE_BYTES,
    {
        let s = self.text@;
        lemma_byte_len_bound(s, s.len() as int);
        assert(s.take(s.len() as int) =~= s);
    }

    /// Locations in `chars`, a source of at most 4 MiB of UTF-8.
    pub fn new(chars: &Vec<char>) -> (l: Locations)
        requires
            byte_len(chars@) <= MAX_SOURCE_BYTES,
        ensures
            l.wf(),
            l.source() == chars@,
    {
        proof {
            assert(chars@.take(0) == Seq::<char>::empty());
            assert(encode_utf8(Seq::<char>::empty()) == Seq::<u8>::empty());
        }
        Locations { text: Ghost(chars@), index: 0, byte: 0, line: 1, col: 1 }
    }

    fn rewind(&mut self)
        requires
            old(self).wf(),
        ensures
            final(self).wf(),
            final(self).source() == old(self).source(),
            final(self).index == 0,
    {
        proof {
            assert(self.text@.take(0) == Seq::<char>::empty());
            assert(encode_utf8(Seq::<char>::empty()) == Seq::<u8>::empty());
        }
        self.index = 0;
        self.byte = 0;
        self.line = 1;
        self.col = 1;
    }

    fn step(&mut self, chars: &Vec<char>)
        requires
            old(self).wf(),
            old(self).index < old(self).source().len(),
            chars@ == old(self).source(),
        ensures
            final(self).wf(),
            final(self).source() == old(self).source(),
            final(self).index == old(self).index + 1,
    {
        let ghost s = self.text@;
        let i = self.index;
        let c = chars[i];
        proof {
            lemma_byte_len_take(s, i as int);
            lemma_byte_len_bound(s, i + 1);
            assert(s.take(i + 1).drop_last() == s.take(i as int));
            lemma_byte_len_bound(s, i as int);
            Self::lemma_line_col_bound(s, i as int);
        }
        let w = char_width(c);
        self.byte = self.byte + w;
        if c == '\n' {
            self.line = self.line + 1;
            self.col = 1;
        } else {
            self.col = self.col + 1;
        }
        self.index = i + 1;
    }

    proof fn lemma_line_col_bound(s: Seq<char>, i: int)
        requires
            0 <= i <= s.len(),
        ensures
            newlines(s.take(i)) <= i,
            column(s.take(i)) <= i + 1,
        decreases i,
    {
        if i > 0 {
            Self::lemma_line_col_bound(s, i - 1);
            assert(s.take(i).drop_last() == s.take(i - 1));
        }
    }

    /// Position of character index `i`.
    pub fn at(&mut self, chars: &Vec<char>, i: usize) -> (p: Position)
        requires
            old(self).wf(),
            chars@ == old(self).source(),
            i <= old(self).source().len(),
        ensures
            final(self).wf(),
            final(self).source() == old(self).source(),
            p == position_at_char(old(self).source(), i as int),
    {
        if i < self.index {
            self.rewind();
        }
        while self.index < i
            invariant
                self.wf(),
                self.source() == old(self).source(),
                chars@ == self.source(),
                self.index <= i <= self.source().len(),
            decreases i - self.index,
        {
            self.step(chars);
        }
        Position { line: self.line, column: self.col, offset: self.byte }
    }

    /// The character index at UTF-8 byte offset `b`, if `b` is a character boundary.
    pub fn char_index(&mut self, chars: &Vec<char>, b: usize) -> (r: Option<usize>)
        requires
            old(self).wf(),
            chars@ == old(self).source(),
        ensures
            final(self).wf(),
            final(self).source() == old(self).source(),
            r matches Some(i) ==> char_index_at_byte(old(self).source(), b as int) == Some(
                i as int,
            ) && i <= old(self).source().len(),
            r is None ==> char_index_at_byte(old(self).source(), b as int) is None,
    {
        let ghost s = self.text@;
        if b < self.byte {
            self.rewind();
        }
        proof {
            assert forall|k: int| 0 <= k < self.index implies byte_len(#[trigger] s.take(k))
                < b as int by {
                lemma_byte_len_mono(s, k, self.index as int);
            }
        }
        while self.byte < b && self.index < chars.len()
            invariant
                self.wf(),
                self.source() == s,
                chars@ == s,
                forall|k: int| 0 <= k < self.index ==> byte_len(#[trigger] s.take(k)) < b as int,
            decreases chars@.len() - self.index,
        {
            self.step(chars);
        }
        if self.byte == b {
            proof {
                lemma_char_index_unique(s, self.index as int);
            }
            Some(self.index)
        } else {
            proof {
                if exists|k: int| 0 <= k <= s.len() && byte_len(s.take(k)) == b {
                    let k = choose|k: int| 0 <= k <= s.len() && byte_len(s.take(k)) == b;
                    if k > self.index {
                        lemma_byte_len_mono(s, self.index as int, k);
                    }
                    if k < self.index {
                    }
                }
            }
            None
        }
    }

    /// Position of UTF-8 byte offset `b`.
    pub fn at_byte(&mut self, chars: &Vec<char>, b: usize) -> (p: Position)
        requires
            old(self).wf(),
            chars@ == old(self).source(),
        ensures
            final(self).wf(),
            final(self).source() == old(self).source(),
            p == position_at_byte(old(self).source(), b as int),
    {
        match self.char_index(chars, b) {
            Some(i) => self.at(chars, i),
            None => Position { line: 0, column: 0, offset: b },
        }
    }
}

/// The UTF-8 bytes of two texts add up, and a nonempty text has some.
pub proof fn lemma_byte_len_concat(a: Seq<char>, b: Seq<char>)
    ensures
        byte_len(a + b) == byte_len(a) + byte_len(b),
        b.len() > 0 ==> byte_len(a + b) > byte_len(a),
    decreases b.len(),
{
    if b.len() == 0 {
        assert(a + b =~= a);
        assert(encode_utf8(b) == Seq::<u8>::empty());
    } else {
        let c = b.last();
        lemma_byte_len_concat(a, b.drop_last());
        assert(a + b =~= (a + b.drop_last()).push(c));
        assert(b =~= b.drop_last().push(c));
        lemma_encode_push(a + b.drop_last(), c);
        lemma_encode_push(b.drop_last(), c);
        lemma_width(c);
    }
}

/// The number of UTF-8 bytes of `s`.
pub fn byte_length(s: &str) -> (n: usize)
    ensures
        n as int == byte_len(s@),
{
    let b = s.as_bytes();
    b.len()
}

} // verus!
