use vstd::prelude::*;
use vstd::string::StrSliceExecFns;
use vstd::string::StringExecFns;

use crate::error::ErrorKind;

verus! {

/// The kinds of token the scanner produces, one per source character,
/// plus the single `Eof` token that terminates every scan.  Characters
/// outside the eight-symbol alphabet become explicit `Illegal` tokens;
/// they are dropped later by the parser, never skipped silently here.
#[derive(PartialEq, Eq, Structural, Debug, Clone, Copy)]
pub enum TokenType {
    PtrLeft,
    PtrRight,
    Inc,
    Dec,
    Read,
    Write,
    LoopStart,
    LoopEnd,
    Illegal,
    Eof,
}

/// One scanned token: its kind, the character it came from, and the
/// zero-based character index of that character in the source text.
/// The offset serves diagnostics only.  Tokens are immutable once made.
#[derive(PartialEq, Eq, Structural, Debug, Clone, Copy)]
pub struct Token {
    pub token_type: TokenType,
    pub literal: char,
    pub position: usize,
}

/// The kind of token a single source character scans to.  Only the end
/// of the text yields `Eof`, so no character maps to it here.
pub open spec fn token_type_of(c: char) -> TokenType {
    if c == '>' {
        TokenType::PtrRight
    } else if c == '<' {
        TokenType::PtrLeft
    } else if c == '+' {
        TokenType::Inc
    } else if c == '-' {
        TokenType::Dec
    } else if c == '.' {
        TokenType::Write
    } else if c == ',' {
        TokenType::Read
    } else if c == '[' {
        TokenType::LoopStart
    } else if c == ']' {
        TokenType::LoopEnd
    } else {
        TokenType::Illegal
    }
}

/// The token sequence that scanning a text yields: one token per
/// character, in order, followed by exactly one `Eof` token whose
/// recorded offset is the text's length and whose literal is the
/// scanner's end sentinel `'0'`.
pub open spec fn spec_token_at(s: Seq<char>, i: int) -> Token {
    if i < s.len() {
        Token { token_type: token_type_of(s[i]), literal: s[i], position: i as usize }
    } else {
        Token { token_type: TokenType::Eof, literal: '0', position: s.len() as usize }
    }
}

pub open spec fn spec_tokens(s: Seq<char>) -> Seq<Token> {
    Seq::new(s.len() + 1, |i: int| spec_token_at(s, i))
}

/// Law: scanning is a pure function of the source text.  Two scans of
/// equal text yield identical token sequences; `scan` promises its
/// result equals `spec_tokens` of its input, so repeated calls agree.
pub proof fn lemma_scan_pure(s1: Seq<char>, s2: Seq<char>)
    requires
        s1 == s2,
    ensures
        spec_tokens(s1) == spec_tokens(s2),
{
}

/// A cursor over the source text.  `position` is the character index of
/// the most recently read character `ch`, and `read_position` the index
/// of the next one.  The cursor advances on every read, past the end of
/// the text too, where `ch` holds the end sentinel `'0'`.
pub struct Lexer {
    pub input: String,
    pub position: usize,
    pub read_position: usize,
    pub ch: char,
}

impl Lexer {
    /// The next-read index trails the cursor by exactly one step, and
    /// `ch` caches the character under the cursor — the sentinel once
    /// the cursor has left the text.
    pub open spec fn wf(self) -> bool {
        &&& self.read_position as int == self.position as int + 1
        &&& (self.position < self.input@.len() ==> self.ch == self.input@[self.position as int])
        &&& (self.position >= self.input@.len() ==> self.ch == '0')
    }

    /// Makes a scanner over the text, cursor on the first character.
    /// Empty text is rejected before any lexing begins.
    pub fn new(input: &str) -> (r: Result<Lexer, ErrorKind>)
        ensures
            match r {
                Ok(l) => {
                    &&& input@.len() > 0
                    &&& l.wf()
                    &&& l.input@ == input@
                    &&& l.position == 0
                    &&& l.read_position == 1
                },
                Err(e) => {
                    &&& e == ErrorKind::EmptySource
                    &&& input@.len() == 0
                },
            },
    {
        let n = input.unicode_len();
        if n == 0 {
            return Err(ErrorKind::EmptySource);
        }
        let mut lexer = Lexer {
            input: String::from_str(input),
            position: 0,
            read_position: 0,
            ch: '0',
        };
        lexer.read_char();
        Ok(lexer)
    }

    /// Advances the cursor one character, loading `ch` with the
    /// character at the old next-read index — the `'0'` sentinel once
    /// that index is at or past the end of the text.  Both indices grow
    /// by one on every call; the precondition only keeps the next-read
    /// index within the machine's word.
    pub fn read_char(&mut self)
        requires
            old(self).read_position < usize::MAX,
        ensures
            final(self).input == old(self).input,
            final(self).position == old(self).read_position,
            final(self).read_position == old(self).read_position + 1,
            final(self).ch == (if old(self).read_position < old(self).input@.len() {
                old(self).input@[old(self).read_position as int]
            } else {
                '0'
            }),
    {
        let n = self.input.as_str().unicode_len();
        if self.read_position >= n {
            self.ch = '0';
        } else {
            self.ch = self.input.as_str().get_char(self.read_position);
        }
        self.position = self.read_position;
        self.read_position = self.read_position + 1;
    }

    /// Produces the token at the cursor and advances past it.  From the
    /// end of the text onward every call yields an `Eof` token, with the
    /// cursor — and so the reported offset — still growing by one each
    /// time; a scan stops at the first of them, so the scanned sequence
    /// holds exactly one `Eof`, at the text's length.
    pub fn next_token(&mut self) -> (t: Token)
        requires
            old(self).wf(),
            old(self).read_position < usize::MAX,
        ensures
            final(self).wf(),
            final(self).input == old(self).input,
            final(self).position == old(self).position + 1,
            old(self).position <= old(self).input@.len() ==> t == spec_tokens(
                old(self).input@,
            )[old(self).position as int],
            old(self).position > old(self).input@.len() ==> t == (Token {
                token_type: TokenType::Eof,
                literal: '0',
                position: old(self).position,
            }),
    {
        let n = self.input.as_str().unicode_len();
        let token_type = if self.position >= n {
            TokenType::Eof
        } else {
            match self.ch {
                '>' => TokenType::PtrRight,
                '<' => TokenType::PtrLeft,
                '+' => TokenType::Inc,
                '-' => TokenType::Dec,
                '.' => TokenType::Write,
                ',' => TokenType::Read,
                '[' => TokenType::LoopStart,
                ']' => TokenType::LoopEnd,
                _ => TokenType::Illegal,
            }
        };
        let literal = self.ch;
        let position = self.position;
        self.read_char();
        Token { position, token_type, literal }
    }
}

/// Scans a whole program text into its token sequence: one token per
/// character, closed by a single `Eof` token.  Fails exactly on empty
/// text, with `EmptySource`, before any lexing.  The precondition only
/// keeps the cursor's indices, which run one past the final token,
/// within the machine's word.
pub fn scan(source: &str) -> (r: Result<Vec<Token>, ErrorKind>)
    requires
        source@.len() + 2 <= usize::MAX,
    ensures
        match r {
            Ok(tokens) => source@.len() > 0 && tokens@ == spec_tokens(source@),
            Err(e) => e == ErrorKind::EmptySource && source@.len() == 0,
        },
{
    let mut lexer = match Lexer::new(source) {
        Ok(l) => l,
        Err(e) => {
            return Err(e);
        },
    };
    let n = source.unicode_len();
    let mut tokens: Vec<Token> = Vec::new();
    let mut i: usize = 0;
    while i < n
        invariant
            lexer.wf(),
            lexer.input@ == source@,
            n as nat == source@.len(),
            n + 2 <= usize::MAX,
            i == lexer.position,
            i <= n,
            tokens@ == spec_tokens(source@).take(i as int),
        decreases n - i,
    {
        let t = lexer.next_token();
        tokens.push(t);
        i = i + 1;
        proof {
            assert(spec_tokens(source@).take(i as int) =~= spec_tokens(source@).take(
                i as int - 1,
            ).push(spec_tokens(source@)[i as int - 1]));
        }
    }
    let t = lexer.next_token();
    tokens.push(t);
    proof {
        assert(tokens@ =~= spec_tokens(source@));
    }
    Ok(tokens)
}

} // verus!
