use vstd::prelude::*;
use vstd::string::StrSliceExecFns;
use crate::chars::{
    push_char, is_ws_char, is_digit_char, is_number_char, true_chars, false_chars, null_chars,
};
use crate::token::{JsonToken, TokenV, tokens_view};

verus! {

/// A lexical failure; scanning aborts on the first one.
#[derive(Debug, Clone, PartialEq)]
pub enum LexError {
    /// End of input inside a string, before the closing quote.
    UnterminatedString,
    /// End of input inside a keyword probe.
    UnexpectedEof,
    /// A character that can begin no token.
    InvalidCharacter(char),
    /// A keyword probe that spelled none of the three keywords.
    InvalidConstant(String),
}

/// The mathematical shape of a lexical failure.
pub enum LexErrorV {
    UnterminatedString,
    UnexpectedEof,
    InvalidCharacter(char),
    InvalidConstant(Seq<char>),
}

impl View for LexError {
    type V = LexErrorV;

    open spec fn view(&self) -> LexErrorV {
        match self {
            LexError::UnterminatedString => LexErrorV::UnterminatedString,
            LexError::UnexpectedEof => LexErrorV::UnexpectedEof,
            LexError::InvalidCharacter(c) => LexErrorV::InvalidCharacter(*c),
            LexError::InvalidConstant(s) => LexErrorV::InvalidConstant(s@),
        }
    }
}

/// What one scanning step yields: a token and the index just past it, or a
/// lexical failure.
pub enum Scan {
    Next(TokenV, int),
    Stop(LexErrorV),
}

/// The index of the first quote at or after `i`, if any.
pub open spec fn quote_end(s: Seq<char>, i: int) -> Option<int>
    decreases s.len() - i,
{
    if 0 <= i < s.len() {
        if s[i] == '"' {
            Some(i)
        } else {
            quote_end(s, i + 1)
        }
    } else {
        None
    }
}

/// The index of the first character at or after `i` that cannot continue a
/// number, or the end of input.
pub open spec fn number_end(s: Seq<char>, i: int) -> int
    decreases s.len() - i,
{
    if 0 <= i < s.len() && is_number_char(s[i]) {
        number_end(s, i + 1)
    } else {
        i
    }
}

/// Scans exactly one token starting at index `i`.
pub open spec fn scan_token(s: Seq<char>, i: int) -> Scan
    recommends
        0 <= i < s.len(),
{
    let c = s[i];
    if c == '{' {
        Scan::Next(TokenV::LeftBrace, i + 1)
    } else if c == '}' {
        Scan::Next(TokenV::RightBrace, i + 1)
    } else if c == '[' {
        Scan::Next(TokenV::LeftBracket, i + 1)
    } else if c == ']' {
        Scan::Next(TokenV::RightBracket, i + 1)
    } else if c == ',' {
        Scan::Next(TokenV::Comma, i + 1)
    } else if c == ':' {
        Scan::Next(TokenV::Colon, i + 1)
    } else if is_ws_char(c) {
        Scan::Next(TokenV::Whitespace, i + 1)
    } else if c == '"' {
        match quote_end(s, i + 1) {
            Some(q) => Scan::Next(TokenV::String(s.subrange(i + 1, q)), q + 1),
            None => Scan::Stop(LexErrorV::UnterminatedString),
        }
    } else if is_digit_char(c) {
        Scan::Next(TokenV::Number(s.subrange(i, number_end(s, i + 1))), number_end(s, i + 1))
    } else if c == 't' || c == 'f' || c == 'n' {
        let k: int = if c == 'f' {
            5
        } else {
            4
        };
        if i + k > s.len() {
            Scan::Stop(LexErrorV::UnexpectedEof)
        } else {
            let w = s.subrange(i, i + k);
            if w == true_chars() {
                Scan::Next(TokenV::Boolean(true), i + k)
            } else if w == false_chars() {
                Scan::Next(TokenV::Boolean(false), i + k)
            } else if w == null_chars() {
                Scan::Next(TokenV::Null, i + k)
            } else {
                Scan::Stop(LexErrorV::InvalidConstant(w))
            }
        }
    } else {
        Scan::Stop(LexErrorV::InvalidCharacter(c))
    }
}

/// The full token sequence of the input from index `i` on, or the first
/// lexical failure.
pub open spec fn lex_from(s: Seq<char>, i: int) -> Result<Seq<TokenV>, LexErrorV>
    decreases s.len() - i,
{
    if 0 <= i < s.len() {
        match scan_token(s, i) {
            Scan::Stop(e) => Err(e),
            Scan::Next(t, j) => {
                let jn = if j <= i {
                    i + 1
                } else if j > s.len() {
                    s.len() as int
                } else {
                    j
                };
                match lex_from(s, jn) {
                    Ok(rest) => Ok(seq![t] + rest),
                    Err(e) => Err(e),
                }
            },
        }
    } else {
        Ok(Seq::empty())
    }
}

/// Prefixes tokens onto a lexing outcome; a failure swallows the prefix.
pub open spec fn lex_cons(pre: Seq<TokenV>, r: Result<Seq<TokenV>, LexErrorV>) -> Result<
    Seq<TokenV>,
    LexErrorV,
> {
    match r {
        Ok(ts) => Ok(pre + ts),
        Err(e) => Err(e),
    }
}

/// Where `quote_end` points: at the first quote, with none before it.
pub proof fn lemma_quote_end(s: Seq<char>, i: int)
    requires
        0 <= i <= s.len(),
    ensures
        match quote_end(s, i) {
            Some(q) => i <= q < s.len() && s[q] == '"' && forall|k: int|
                i <= k < q ==> s[k] != '"',
            None => forall|k: int| i <= k < s.len() ==> s[k] != '"',
        },
    decreases s.len() - i,
{
    if i < s.len() && s[i] != '"' {
        lemma_quote_end(s, i + 1);
    }
}

/// Where `number_end` points: just past a run of number characters.
pub proof fn lemma_number_end(s: Seq<char>, i: int)
    requires
        0 <= i <= s.len(),
    ensures
        i <= number_end(s, i) <= s.len(),
        forall|k: int| i <= k < number_end(s, i) ==> is_number_char(s[k]),
        number_end(s, i) == s.len() || !is_number_char(s[number_end(s, i)]),
    decreases s.len() - i,
{
    if i < s.len() && is_number_char(s[i]) {
        lemma_number_end(s, i + 1);
    }
}

/// A successful scanning step consumes at least one character and stays
/// within the input.
pub proof fn lemma_scan_token(s: Seq<char>, i: int)
    requires
        0 <= i < s.len(),
    ensures
        match scan_token(s, i) {
            Scan::Next(t, j) => i < j <= s.len(),
            Scan::Stop(e) => true,
        },
{
    lemma_quote_end(s, i + 1);
    lemma_number_end(s, i + 1);
}

/// Unfolds one step of `lex_from` over one scanned token.
pub proof fn lemma_lex_step(s: Seq<char>, i: int)
    requires
        0 <= i < s.len(),
    ensures
        match scan_token(s, i) {
            Scan::Next(t, j) => lex_from(s, i) == lex_cons(seq![t], lex_from(s, j)),
            Scan::Stop(e) => lex_from(s, i) == Err::<Seq<TokenV>, LexErrorV>(e),
        },
{
    lemma_scan_token(s, i);
    match scan_token(s, i) {
        Scan::Next(t, j) => {
            match lex_from(s, j) {
                Ok(rest) => {
                    assert(lex_from(s, i) == Ok::<Seq<TokenV>, LexErrorV>(seq![t] + rest));
                },
                Err(e) => {},
            }
        },
        Scan::Stop(e) => {},
    }
}

/// Prefixing twice is prefixing the concatenation.
pub proof fn lemma_lex_cons_assoc(a: Seq<TokenV>, b: Seq<TokenV>, r: Result<Seq<TokenV>, LexErrorV>)
    ensures
        lex_cons(a, lex_cons(b, r)) == lex_cons(a + b, r),
{
    match r {
        Ok(ts) => {
            assert(a + (b + ts) =~= (a + b) + ts);
        },
        Err(e) => {},
    }
}

/// The scanner: owns a copy of the input characters and a forward cursor.
pub struct Lexer {
    chars: Vec<char>,
    pos: usize,
}

impl Lexer {
    /// The characters being scanned.
    pub closed spec fn src(&self) -> Seq<char> {
        self.chars@
    }

    /// The cursor position.
    pub closed spec fn at(&self) -> int {
        self.pos as int
    }

    /// The cursor never passes the end of the input.
    pub closed spec fn wf(&self) -> bool {
        self.pos <= self.chars@.len()
    }

    /// Prepares to scan `input` from its first character.
    #[verifier::loop_isolation(false)]
    pub fn new(input: &str) -> (l: Lexer)
        ensures
            l.src() == input@,
            l.at() == 0,
            l.wf(),
    {
        let n = input.unicode_len();
        let mut chars: Vec<char> = Vec::new();
        let mut i: usize = 0;
        while i < n
            invariant
                0 <= i <= n,
                n == input@.len(),
                chars@ == input@.subrange(0, i as int),
            decreases n - i,
        {
            let c = input.get_char(i);
            chars.push(c);
            proof {
                assert(chars@ =~= input@.subrange(0, i as int + 1));
            }
            i = i + 1;
        }
        proof {
            assert(chars@ =~= input@);
        }
        Lexer { chars, pos: 0 }
    }

    /// Whether any character remains.
    fn has_next(&self) -> (r: bool)
        ensures
            r == (self.at() < self.src().len()),
    {
        self.pos < self.chars.len()
    }

    /// The character under the cursor, if any, without advancing.
    fn peek_char(&self) -> (r: Option<char>)
        requires
            self.wf(),
        ensures
            match r {
                Some(c) => self.at() < self.src().len() && c == self.src()[self.at()],
                None => self.at() == self.src().len(),
            },
    {
        if self.pos < self.chars.len() {
            Some(self.chars[self.pos])
        } else {
            None
        }
    }

    /// Takes the character under the cursor, if any, and advances.
    fn next_char(&mut self) -> (r: Option<char>)
        requires
            old(self).wf(),
        ensures
            final(self).src() == old(self).src(),
            final(self).wf(),
            match r {
                Some(c) => old(self).at() < old(self).src().len() && c == old(self).src()[old(
                    self,
                ).at()] && final(self).at() == old(self).at() + 1,
                None => old(self).at() == old(self).src().len() && final(self).at() == old(
                    self,
                ).at(),
            },
    {
        if self.pos < self.chars.len() {
            let c = self.chars[self.pos];
            self.pos = self.pos + 1;
            Some(c)
        } else {
            None
        }
    }

    /// Accumulates characters up to the next quote, which it consumes; yields
    /// nothing if the input ends first.
    #[verifier::loop_isolation(false)]
    fn read_string(&mut self) -> (r: Option<String>)
        requires
            old(self).wf(),
        ensures
            final(self).src() == old(self).src(),
            final(self).wf(),
            match r {
                Some(s) => quote_end(old(self).src(), old(self).at()) == Some(
                    final(self).at() - 1,
                ) && s@ == old(self).src().subrange(old(self).at(), final(self).at() - 1),
                None => quote_end(old(self).src(), old(self).at()) is None && final(self).at()
                    == old(self).src().len(),
            },
    {
        let mut s = String::new();
        while self.pos < self.chars.len() && self.chars[self.pos] != '"'
            invariant
                self.wf(),
                self.src() == old(self).src(),
                old(self).at() <= self.at(),
                s@ == self.src().subrange(old(self).at(), self.at()),
                quote_end(self.src(), self.at()) == quote_end(old(self).src(), old(self).at()),
            decreases self.chars@.len() - self.pos,
        {
            let c = self.chars[self.pos];
            push_char(&mut s, c);
            self.pos = self.pos + 1;
            proof {
                assert(s@ =~= self.src().subrange(old(self).at(), self.at()));
            }
        }
        if self.pos < self.chars.len() {
            self.pos = self.pos + 1;
            Some(s)
        } else {
            None
        }
    }

    /// Accumulates the initial character and the following run of digits and
    /// dots; the cursor stops at the first character past the run.
    #[verifier::loop_isolation(false)]
    fn read_number(&mut self, initial_char: char) -> (num: String)
        requires
            old(self).wf(),
        ensures
            final(self).src() == old(self).src(),
            final(self).wf(),
            final(self).at() == number_end(old(self).src(), old(self).at()),
            num@ == seq![initial_char] + old(self).src().subrange(
                old(self).at(),
                final(self).at(),
            ),
    {
        let mut num = String::new();
        push_char(&mut num, initial_char);
        proof {
            assert(num@ =~= seq![initial_char] + self.src().subrange(self.at(), self.at()));
        }
        while self.pos < self.chars.len() && (is_digit_exec(self.chars[self.pos])
            || self.chars[self.pos] == '.')
            invariant
                self.wf(),
                self.src() == old(self).src(),
                old(self).at() <= self.at(),
                num@ == seq![initial_char] + self.src().subrange(old(self).at(), self.at()),
                number_end(self.src(), self.at()) == number_end(old(self).src(), old(self).at()),
            decreases self.chars@.len() - self.pos,
        {
            let c = self.chars[self.pos];
            push_char(&mut num, c);
            self.pos = self.pos + 1;
            proof {
                assert(num@ =~= seq![initial_char] + self.src().subrange(
                    old(self).at(),
                    self.at(),
                ));
            }
        }
        num
    }

    /// Accumulates the initial character and up to `len` more, stopping early
    /// only at the end of the input.
    #[verifier::loop_isolation(false)]
    fn read_constant(&mut self, len: usize, initial_char: char) -> (s: String)
        requires
            old(self).wf(),
        ensures
            final(self).src() == old(self).src(),
            final(self).wf(),
            final(self).at() == if old(self).at() + len <= old(self).src().len() {
                old(self).at() + len
            } else {
                old(self).src().len() as int
            },
            s@ == seq![initial_char] + old(self).src().subrange(old(self).at(), final(self).at()),
    {
        let mut s = String::new();
        push_char(&mut s, initial_char);
        proof {
            assert(s@ =~= seq![initial_char] + self.src().subrange(self.at(), self.at()));
        }
        let mut j: usize = 0;
        while j < len && self.pos < self.chars.len()
            invariant
                self.wf(),
                self.src() == old(self).src(),
                0 <= j <= len,
                self.at() == old(self).at() + j,
                j < len ==> self.at() <= self.src().len(),
                s@ == seq![initial_char] + self.src().subrange(old(self).at(), self.at()),
            decreases len - j,
        {
            let c = self.chars[self.pos];
            push_char(&mut s, c);
            self.pos = self.pos + 1;
            j = j + 1;
            proof {
                assert(s@ =~= seq![initial_char] + self.src().subrange(
                    old(self).at(),
                    self.at(),
                ));
            }
        }
        s
    }

    /// Scans one token at the cursor, as `scan_token` describes.
    fn next_token(&mut self) -> (r: Result<JsonToken, LexError>)
        requires
            old(self).wf(),
            old(self).at() < old(self).src().len(),
        ensures
            final(self).src() == old(self).src(),
            final(self).wf(),
            match r {
                Ok(t) => scan_token(old(self).src(), old(self).at()) == Scan::Next(
                    t@,
                    final(self).at(),
                ),
                Err(e) => scan_token(old(self).src(), old(self).at()) == Scan::Stop(e@),
            },
    {
        let ghost s0 = self.src();
        let ghost i0 = self.at();
        let copt = self.next_char();
        let c = copt.unwrap();
        if c == '{' {
            Ok(JsonToken::LeftBrace)
        } else if c == '}' {
            Ok(JsonToken::RightBrace)
        } else if c == '[' {
            Ok(JsonToken::LeftBracket)
        } else if c == ']' {
            Ok(JsonToken::RightBracket)
        } else if c == ',' {
            Ok(JsonToken::Comma)
        } else if c == ':' {
            Ok(JsonToken::Colon)
        } else if c == ' ' || c == '\t' || c == '\n' || c == '\r' {
            Ok(JsonToken::Whitespace)
        } else if c == '"' {
            let body = self.read_string();
            match body {
                Some(text) => Ok(JsonToken::String(text)),
                None => Err(LexError::UnterminatedString),
            }
        } else if is_digit_exec(c) {
            let num = self.read_number(c);
            proof {
                lemma_number_end(s0, i0 + 1);
                assert(num@ =~= s0.subrange(i0, number_end(s0, i0 + 1)));
            }
            Ok(JsonToken::Number(num))
        } else if c == 't' || c == 'f' || c == 'n' {
            let more: usize = if c == 'f' {
                4
            } else {
                3
            };
            if self.chars.len() - self.pos < more {
                Err(LexError::UnexpectedEof)
            } else {
                let w = self.read_constant(more, c);
                proof {
                    assert(w@ =~= s0.subrange(i0, i0 + 1 + more as int));
                }
                let tru = String::from_str("true");
                let fal = String::from_str("false");
                let nul = String::from_str("null");
                proof {
                    reveal_strlit("true");
                    reveal_strlit("false");
                    reveal_strlit("null");
                    assert(tru@ =~= true_chars());
                    assert(fal@ =~= false_chars());
                    assert(nul@ =~= null_chars());
                }
                if w == tru {
                    Ok(JsonToken::Boolean(true))
                } else if w == fal {
                    Ok(JsonToken::Boolean(false))
                } else if w == nul {
                    Ok(JsonToken::Null)
                } else {
                    Err(LexError::InvalidConstant(w))
                }
            }
        } else {
            Err(LexError::InvalidCharacter(c))
        }
    }

    /// Scans the whole input into its token sequence, or stops at the first
    /// lexical failure, as `lex_from` describes; no partial sequence survives
    /// a failure.
    #[verifier::loop_isolation(false)]
    pub fn tokenize(&mut self) -> (r: Result<Vec<JsonToken>, LexError>)
        requires
            old(self).wf(),
        ensures
            final(self).src() == old(self).src(),
            final(self).wf(),
            match r {
                Ok(ts) => lex_from(old(self).src(), old(self).at()) == Ok::<_, LexErrorV>(
                    tokens_view(ts@),
                ),
                Err(e) => lex_from(old(self).src(), old(self).at()) == Err::<Seq<TokenV>, _>(e@),
            },
    {
        let mut tokens: Vec<JsonToken> = Vec::new();
        while self.has_next()
            invariant
                self.wf(),
                self.src() == old(self).src(),
                old(self).at() <= self.at(),
                lex_cons(tokens_view(tokens@), lex_from(self.src(), self.at())) == lex_from(
                    old(self).src(),
                    old(self).at(),
                ),
            decreases self.src().len() - self.at(),
        {
            let ghost pre = tokens_view(tokens@);
            let ghost ihere = self.at();
            let token = self.next_token();
            proof {
                lemma_scan_token(self.src(), ihere);
                lemma_lex_step(self.src(), ihere);
            }
            match token {
                Ok(t) => {
                    tokens.push(t);
                    proof {
                        assert(tokens_view(tokens@) =~= pre.push(t@));
                        assert(pre.push(t@) =~= pre + seq![t@]);
                        lemma_lex_cons_assoc(pre, seq![t@], lex_from(self.src(), self.at()));
                    }
                },
                Err(e) => {
                    return Err(e);
                },
            }
        }
        proof {
            assert(lex_from(self.src(), self.at()) == Ok::<Seq<TokenV>, LexErrorV>(Seq::empty()));
            assert(tokens_view(tokens@) + Seq::<TokenV>::empty() =~= tokens_view(tokens@));
        }
        Ok(tokens)
    }
}

/// Whether `c` is a decimal digit.
fn is_digit_exec(c: char) -> (b: bool)
    ensures
        b == is_digit_char(c),
{
    let u = c as u32;
    48 <= u && u <= 57
}

} // verus!
