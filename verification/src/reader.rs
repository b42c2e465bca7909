//! The token source: whitespace-delimited tokens over a fully buffered byte
//! stream, with one-token lookahead and lazy line discarding. The spec
//! functions below say, for any byte sequence and position, where the next
//! token starts and ends; every reading function is proved against them.

use vstd::prelude::*;
use crate::error::BookshelfError;
use crate::strutil::{ascii_to_string, chars_of, str_eq};

verus! {

/// Whether every byte of the input is ASCII.
pub open spec fn all_ascii(s: Seq<u8>) -> bool {
    forall|i: int| 0 <= i < s.len() ==> s[i] < 128
}

/// Whether a byte is ASCII whitespace.
pub open spec fn is_ws(b: u8) -> bool {
    b == 32 || b == 9 || b == 10 || b == 13 || b == 12
}

/// The first position at or after `i` holding a non-whitespace byte, or the
/// end of the input.
pub open spec fn skip_ws(s: Seq<u8>, i: int) -> int
    decreases s.len() - i,
{
    if i < 0 || i >= s.len() {
        s.len() as int
    } else if is_ws(s[i]) {
        skip_ws(s, i + 1)
    } else {
        i
    }
}

/// The first position at or after `i` holding a whitespace byte, or the end
/// of the input.
pub open spec fn token_end(s: Seq<u8>, i: int) -> int
    decreases s.len() - i,
{
    if i < 0 || i >= s.len() {
        s.len() as int
    } else if is_ws(s[i]) {
        i
    } else {
        token_end(s, i + 1)
    }
}

/// The position just after the next line break at or after `i`, or the end
/// of the input.
pub open spec fn line_start_after(s: Seq<u8>, i: int) -> int
    decreases s.len() - i,
{
    if i < 0 || i >= s.len() {
        s.len() as int
    } else if s[i] == 10 {
        i + 1
    } else {
        line_start_after(s, i + 1)
    }
}

/// Whether another token follows position `i`.
pub open spec fn has_token(s: Seq<u8>, i: int) -> bool {
    skip_ws(s, i) < s.len()
}

/// The bytes of the next token after position `i`.
pub open spec fn token_at(s: Seq<u8>, i: int) -> Seq<u8> {
    s.subrange(skip_ws(s, i), token_end(s, skip_ws(s, i)))
}

/// The position just after the next token after position `i`.
pub open spec fn after_token(s: Seq<u8>, i: int) -> int {
    token_end(s, skip_ws(s, i))
}

/// The characters of the next token after position `i`.
pub open spec fn token_chars(s: Seq<u8>, i: int) -> Seq<char> {
    chars_of(token_at(s, i))
}

/// Whether a byte is ASCII whitespace.
#[verifier::when_used_as_spec(is_ws)]
pub fn is_ws_byte(b: u8) -> (r: bool)
    ensures
        r == is_ws(b),
{
    b == 32 || b == 9 || b == 10 || b == 13 || b == 12
}

proof fn lemma_skip_ws_bounds(s: Seq<u8>, i: int)
    requires
        0 <= i <= s.len(),
    ensures
        i <= skip_ws(s, i) <= s.len(),
        skip_ws(s, i) < s.len() ==> !is_ws(s[skip_ws(s, i)]),
    decreases s.len() - i,
{
    if i < s.len() && is_ws(s[i]) {
        lemma_skip_ws_bounds(s, i + 1);
    }
}

proof fn lemma_token_end_bounds(s: Seq<u8>, i: int)
    requires
        0 <= i <= s.len(),
    ensures
        i <= token_end(s, i) <= s.len(),
        i < s.len() && !is_ws(s[i]) ==> token_end(s, i) > i,
    decreases s.len() - i,
{
    if i < s.len() && !is_ws(s[i]) {
        lemma_token_end_bounds(s, i + 1);
    }
}

/// Discarding a line never moves the position backwards.
pub proof fn lemma_line_start_bounds(s: Seq<u8>, i: int)
    requires
        0 <= i <= s.len(),
    ensures
        i <= line_start_after(s, i) <= s.len(),
    decreases s.len() - i,
{
    if i < s.len() && s[i] != 10 {
        lemma_line_start_bounds(s, i + 1);
    }
}

/// After a token is consumed the position has strictly advanced, which is
/// what lets every parsing loop terminate.
pub proof fn lemma_token_progress(s: Seq<u8>, i: int)
    requires
        0 <= i <= s.len(),
        has_token(s, i),
    ensures
        i < after_token(s, i) <= s.len(),
        token_at(s, i).len() > 0,
{
    lemma_skip_ws_bounds(s, i);
    let start = skip_ws(s, i);
    lemma_token_end_bounds(s, start);
}

/// Turns a byte stream into whitespace-delimited tokens. The whole input is
/// buffered; `pos` is how far it has been consumed.
pub struct TokenReader {
    buf: Vec<u8>,
    pos: usize,
}

impl TokenReader {
    /// The full input.
    pub closed spec fn text(&self) -> Seq<u8> {
        self.buf@
    }

    /// How far the input has been consumed.
    pub closed spec fn position(&self) -> int {
        self.pos as int
    }

    /// The reader's invariant: the position is inside the input and every
    /// byte is ASCII.
    pub open spec fn wf(&self) -> bool {
        &&& 0 <= self.position() <= self.text().len()
        &&& all_ascii(self.text())
    }

    /// Builds a reader over `bytes`, rejecting any byte outside ASCII.
    pub fn new(bytes: Vec<u8>) -> (r: Result<TokenReader, BookshelfError>)
        ensures
            match r {
                Ok(tr) => {
                    &&& tr.wf()
                    &&& tr.text() == bytes@
                    &&& tr.position() == 0
                    &&& all_ascii(bytes@)
                },
                Err(e) => {
                    &&& e == BookshelfError::Encoding
                    &&& !all_ascii(bytes@)
                },
            },
    {
        let mut i: usize = 0;
        while i < bytes.len()
            invariant
                i <= bytes@.len(),
                forall|k: int| 0 <= k < i ==> bytes@[k] < 128,
            decreases bytes@.len() - i,
        {
            if bytes[i] >= 128 {
                return Err(BookshelfError::Encoding);
            }
            i = i + 1;
        }
        Ok(TokenReader { buf: bytes, pos: 0 })
    }

    /// Moves the position to the first non-whitespace byte (or the end) and
    /// returns it.
    fn skip_whitespace(&mut self) -> (r: usize)
        requires
            old(self).wf(),
        ensures
            final(self).wf(),
            final(self).text() == old(self).text(),
            final(self).position() == skip_ws(old(self).text(), old(self).position()),
            r == final(self).position(),
    {
        proof {
            lemma_skip_ws_bounds(self.text(), self.position());
        }
        while self.pos < self.buf.len() && is_ws_byte(self.buf[self.pos])
            invariant
                self.wf(),
                self.text() == old(self).text(),
                skip_ws(self.text(), old(self).position()) == skip_ws(self.text(), self.position()),
            decreases self.buf@.len() - self.pos,
        {
            self.pos = self.pos + 1;
        }
        self.pos
    }

    /// Discards the rest of the current line, returning how many bytes were
    /// dropped.
    pub fn swallow_line(&mut self) -> (r: usize)
        requires
            old(self).wf(),
        ensures
            final(self).wf(),
            final(self).text() == old(self).text(),
            final(self).position() == line_start_after(old(self).text(), old(self).position()),
            r == final(self).position() - old(self).position(),
    {
        proof {
            lemma_line_start_bounds(self.text(), self.position());
        }
        let start = self.pos;
        while self.pos < self.buf.len() && self.buf[self.pos] != 10
            invariant
                self.wf(),
                self.text() == old(self).text(),
                old(self).position() <= self.position(),
                line_start_after(self.text(), old(self).position()) == line_start_after(
                    self.text(),
                    self.position(),
                ),
            decreases self.buf@.len() - self.pos,
        {
            self.pos = self.pos + 1;
        }
        if self.pos < self.buf.len() {
            self.pos = self.pos + 1;
        }
        self.pos - start
    }

    /// Returns the next token and consumes it, or reports the end of the
    /// input.
    pub fn next_token(&mut self) -> (r: Option<String>)
        requires
            old(self).wf(),
        ensures
            final(self).wf(),
            final(self).text() == old(self).text(),
            has_token(old(self).text(), old(self).position()) ==> {
                &&& r is Some
                &&& r->Some_0@ == token_chars(old(self).text(), old(self).position())
                &&& final(self).position() == after_token(old(self).text(), old(self).position())
            },
            !has_token(old(self).text(), old(self).position()) ==> {
                &&& r is None
                &&& final(self).position() == old(self).text().len()
            },
    {
        let start = self.skip_whitespace();
        if start == self.buf.len() {
            return None;
        }
        proof {
            lemma_token_end_bounds(self.text(), start as int);
        }
        while self.pos < self.buf.len() && !is_ws_byte(self.buf[self.pos])
            invariant
                self.wf(),
                self.text() == old(self).text(),
                start <= self.pos,
                token_end(self.text(), start as int) == token_end(self.text(), self.position()),
            decreases self.buf@.len() - self.pos,
        {
            self.pos = self.pos + 1;
        }
        let mut bytes: Vec<u8> = Vec::new();
        let mut i = start;
        while i < self.pos
            invariant
                self.wf(),
                start <= i <= self.pos <= self.buf@.len(),
                bytes@ == self.buf@.subrange(start as int, i as int),
            decreases self.pos - i,
        {
            let b = self.buf[i];
            bytes.push(b);
            proof {
                assert(bytes@ =~= self.buf@.subrange(start as int, i + 1));
            }
            i = i + 1;
        }
        proof {
            assert(bytes@ =~= token_at(old(self).text(), old(self).position()));
        }
        Some(ascii_to_string(bytes))
    }

    /// Returns the next token without consuming it.
    pub fn peek_token(&self) -> (r: Option<String>)
        requires
            self.wf(),
        ensures
            has_token(self.text(), self.position()) ==> r is Some && r->Some_0@ == token_chars(
                self.text(),
                self.position(),
            ),
            !has_token(self.text(), self.position()) ==> r is None,
    {
        let mut p = self.pos;
        proof {
            lemma_skip_ws_bounds(self.text(), self.position());
        }
        while p < self.buf.len() && is_ws_byte(self.buf[p])
            invariant
                self.wf(),
                p <= self.buf@.len(),
                skip_ws(self.text(), self.position()) == skip_ws(self.text(), p as int),
            decreases self.buf@.len() - p,
        {
            p = p + 1;
        }
        if p == self.buf.len() {
            return None;
        }
        let start = p;
        proof {
            lemma_token_end_bounds(self.text(), start as int);
        }
        while p < self.buf.len() && !is_ws_byte(self.buf[p])
            invariant
                self.wf(),
                start <= p <= self.buf@.len(),
                token_end(self.text(), start as int) == token_end(self.text(), p as int),
            decreases self.buf@.len() - p,
        {
            p = p + 1;
        }
        let mut bytes: Vec<u8> = Vec::new();
        let mut i = start;
        while i < p
            invariant
                self.wf(),
                start <= i <= p <= self.buf@.len(),
                bytes@ == self.buf@.subrange(start as int, i as int),
            decreases p - i,
        {
            let b = self.buf[i];
            bytes.push(b);
            proof {
                assert(bytes@ =~= self.buf@.subrange(start as int, i + 1));
            }
            i = i + 1;
        }
        proof {
            assert(bytes@ =~= token_at(self.text(), self.position()));
        }
        Some(ascii_to_string(bytes))
    }

    /// Consumes the next token and demands that it be exactly `expected`:
    /// a missing token is a truncation, a different one a grammar fault.
    pub fn expect(&mut self, expected: &str) -> (r: Result<(), BookshelfError>)
        requires
            old(self).wf(),
        ensures
            final(self).wf(),
            final(self).text() == old(self).text(),
            r is Ok <==> has_token(old(self).text(), old(self).position()) && token_chars(
                old(self).text(),
                old(self).position(),
            ) == expected@,
            !has_token(old(self).text(), old(self).position()) ==> r == Result::<
                (),
                BookshelfError,
            >::Err(BookshelfError::TruncatedInput),
            has_token(old(self).text(), old(self).position()) ==> final(self).position()
                == after_token(old(self).text(), old(self).position()),
            has_token(old(self).text(), old(self).position()) && token_chars(
                old(self).text(),
                old(self).position(),
            ) != expected@ ==> r == Result::<(), BookshelfError>::Err(BookshelfError::Grammar),
    {
        match self.next_token() {
            None => Err(BookshelfError::TruncatedInput),
            Some(t) => {
                if str_eq(t.as_str(), expected) {
                    Ok(())
                } else {
                    Err(BookshelfError::Grammar)
                }
            },
        }
    }
}

} // verus!
