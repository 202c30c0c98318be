//! Cuts a list of titles into tokens at white space only, so that a title
//! such as `Nicolas_Poussin` stays one token.

use crate::text::{
    byte_at, byte_offsets, chars_of, is_white_space, is_whitespace, slice_of, string_of,
};
use vstd::prelude::*;

verus! {

/// Whether a character is a letter or a number, as Unicode defines it.
pub uninterp spec fn alphanumeric(c: char) -> bool;

/// Whether a character is a letter or a number.
///
/// Calls `char::is_alphanumeric`. Its result depends on the character alone
/// and is named `alphanumeric`; nothing more is claimed of it.
#[verifier::external_body]
fn is_alphanumeric(c: char) -> (b: bool)
    ensures
        b == alphanumeric(c),
{
    c.is_alphanumeric()
}

/// A token: where it starts and ends in the text, counted in bytes, its
/// number, and its text.
#[derive(Clone, Debug, PartialEq, Eq)]
pub struct Token {
    pub offset_from: usize,
    pub offset_to: usize,
    pub position: usize,
    pub text: String,
}

impl Default for Token {
    fn default() -> (t: Token)
        ensures
            t.offset_from == 0,
            t.offset_to == 0,
            t.position == usize::MAX,
            t.text@.len() == 0,
    {
        Token { offset_from: 0, offset_to: 0, position: usize::MAX, text: String::new() }
    }
}

/// Makes token streams.
#[derive(Clone, Copy, Debug)]
pub struct WikiTitleTokenizer;

/// The tokens of a text, one after the other.
pub struct WikiTokenStream {
    pub text: Vec<char>,
    /// The position of each character of the text counted in bytes, and
    /// behind them the length of the text in bytes.
    pub offsets: Vec<usize>,
    /// How many characters were read.
    pub chars: usize,
    /// The token read last.
    pub token: Token,
}

/// The first position at or after `from` that holds a letter or a number,
/// or the length of the text.
pub open spec fn token_start(text: Seq<char>, from: int) -> int
    decreases text.len() - from,
{
    if from < 0 || from >= text.len() || alphanumeric(text[from]) {
        from
    } else {
        token_start(text, from + 1)
    }
}

/// The first position at or after `from` that holds white space, or the
/// length of the text.
pub open spec fn token_end(text: Seq<char>, from: int) -> int
    decreases text.len() - from,
{
    if from < 0 || from >= text.len() || is_white_space(text[from]) {
        from
    } else {
        token_end(text, from + 1)
    }
}

/// The number after `n`, and zero after the largest.
pub open spec fn next_number(n: usize) -> usize {
    if n == usize::MAX {
        0
    } else {
        (n + 1) as usize
    }
}

impl WikiTitleTokenizer {
    /// The stream of the tokens of `text`, before its first token.
    pub fn token_stream(&self, text: &str) -> (s: WikiTokenStream)
        ensures
            s.wf(),
            s.text@ == text@,
            s.chars == 0,
            s.token.text@.len() == 0,
            s.token.position == usize::MAX,
    {
        WikiTokenStream {
            text: chars_of(text),
            offsets: byte_offsets(text),
            chars: 0,
            token: Token::default(),
        }
    }
}

impl WikiTokenStream {
    /// The stream has not read behind the end of its text, and the
    /// positions in bytes are those of the text.
    pub open spec fn wf(&self) -> bool {
        &&& self.chars <= self.text@.len()
        &&& self.offsets@.len() == self.text@.len() + 1
        &&& forall|i: int|
            0 <= i <= self.text@.len() ==> #[trigger] self.offsets@[i] == byte_at(self.text@, i)
    }

    /// Reads up to and with the next white space, and says where it stands,
    /// counted in bytes: at the length of the text where there is none.
    pub fn search_token_end(&mut self) -> (end: usize)
        requires
            old(self).wf(),
        ensures
            final(self).wf(),
            final(self).text == old(self).text,
            final(self).offsets == old(self).offsets,
            final(self).token == old(self).token,
            end == byte_at(old(self).text@, token_end(old(self).text@, old(self).chars as int)),
            final(self).chars == (if token_end(old(self).text@, old(self).chars as int) < old(
                self,
            ).text@.len() {
                token_end(old(self).text@, old(self).chars as int) + 1
            } else {
                token_end(old(self).text@, old(self).chars as int)
            }),
    {
        proof {
            lemma_token_end(self.text@, self.chars as int);
        }
        let at = self.read_to_white_space();
        self.offsets[at]
    }

    /// Reads up to and with the next white space, and says where it stands,
    /// counted in characters.
    fn read_to_white_space(&mut self) -> (end: usize)
        requires
            old(self).wf(),
        ensures
            final(self).wf(),
            final(self).text == old(self).text,
            final(self).offsets == old(self).offsets,
            final(self).token == old(self).token,
            end == token_end(old(self).text@, old(self).chars as int),
            old(self).chars <= end <= old(self).text@.len(),
            final(self).chars == (if end < old(self).text@.len() {
                end + 1
            } else {
                end as int
            }),
    {
        let mut at: usize = self.chars;
        while at < self.text.len() && !is_whitespace(self.text[at])
            invariant
                self.chars <= at <= self.text@.len(),
                token_end(self.text@, self.chars as int) == token_end(self.text@, at as int),
            decreases self.text.len() - at,
        {
            at += 1;
        }
        if at < self.text.len() {
            self.chars = at + 1;
        } else {
            self.chars = at;
        }
        at
    }

    /// Reads the next token: it starts at the next letter or number and ends
    /// before the next white space. Says whether there was one.
    pub fn advance(&mut self) -> (found: bool)
        requires
            old(self).wf(),
        ensures
            final(self).wf(),
            final(self).text == old(self).text,
            final(self).offsets == old(self).offsets,
            final(self).token.position == next_number(old(self).token.position),
            ({
                let text = old(self).text@;
                let from = token_start(text, old(self).chars as int);
                let to = token_end(text, from + 1);
                if from < text.len() {
                    &&& found
                    &&& final(self).token.offset_from == byte_at(text, from)
                    &&& final(self).token.offset_to == byte_at(text, to)
                    &&& final(self).token.text@ == text.subrange(from, to)
                    &&& final(self).chars == (if to < text.len() {
                        to + 1
                    } else {
                        to
                    })
                } else {
                    &&& !found
                    &&& final(self).token.text@.len() == 0
                    &&& final(self).token.offset_from == old(self).token.offset_from
                    &&& final(self).token.offset_to == old(self).token.offset_to
                    &&& final(self).chars == text.len()
                }
            }),
    {
        self.token.text = String::new();
        self.token.position = if self.token.position == usize::MAX {
            0
        } else {
            self.token.position + 1
        };
        let mut at: usize = self.chars;
        while at < self.text.len() && !is_alphanumeric(self.text[at])
            invariant
                self.chars <= at <= self.text@.len(),
                token_start(self.text@, self.chars as int) == token_start(self.text@, at as int),
            decreases self.text.len() - at,
        {
            at += 1;
        }
        if at == self.text.len() {
            self.chars = at;
            return false;
        }
        self.chars = at + 1;
        let end = self.read_to_white_space();
        proof {
            lemma_token_end(self.text@, at + 1);
        }
        self.token.offset_from = self.offsets[at];
        self.token.offset_to = self.offsets[end];
        self.token.text = string_of(&slice_of(&self.text, at, end));
        true
    }

    /// The token read last.
    pub fn token(&self) -> (t: &Token)
        ensures
            *t == self.token,
    {
        &self.token
    }

    /// The token read last, to be changed.
    pub fn token_mut(&mut self) -> (t: &mut Token)
        ensures
            *t == old(self).token,
            *final(self) == (WikiTokenStream { token: *final(t), ..*old(self) }),
    {
        &mut self.token
    }
}

/// A token ends at or after the position from which its end is looked for,
/// and in the text.
pub proof fn lemma_token_end(text: Seq<char>, from: int)
    requires
        0 <= from <= text.len(),
    ensures
        from <= token_end(text, from) <= text.len(),
    decreases text.len() - from,
{
    if from < text.len() && !is_white_space(text[from]) {
        lemma_token_end(text, from + 1);
    }
}

} // verus!
