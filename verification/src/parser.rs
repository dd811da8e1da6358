use vstd::prelude::*;
use crate::token::{JsonToken, TokenV, tokens_view};
use crate::value::{
    JsonValue, ValueV, value_view, members_view_from, items_view_from, lemma_members_view,
    lemma_items_view,
};

verus! {

/// A syntax failure; parsing aborts on the first one.
#[derive(Debug, Clone, Copy, PartialEq, Eq, Structural)]
pub enum ParseError {
    /// No tokens at all, or a document whose root is not an object or array.
    NoTokensToParse,
    /// Inside an object, something other than a string key or a closing brace.
    ExpectedKeyOrRightBrace,
    /// No colon after an object key.
    ExpectedColon,
    /// After an object pair, something other than a comma or a closing brace.
    ExpectedCommaOrRightBrace,
    /// A comma directly before the closing delimiter.
    TrailingComma,
    /// A token that can begin no value.
    UnexpectedToken,
}

/// What parsing one construct yields: a tree and the index just past it, or
/// a syntax failure.
pub enum ParseStep {
    Parsed(ValueV, int),
    Failed(ParseError),
}

/// The index of the first token at or after `i` that is not whitespace.
pub open spec fn skip_ws_at(ts: Seq<TokenV>, i: int) -> int
    decreases ts.len() - i,
{
    if 0 <= i < ts.len() && ts[i] is Whitespace {
        skip_ws_at(ts, i + 1)
    } else {
        i
    }
}

/// `skip_ws_at`, held inside the index range whatever the arguments.
pub open spec fn ws_end(ts: Seq<TokenV>, i: int) -> int {
    let j = skip_ws_at(ts, i);
    let ju = if j > ts.len() {
        ts.len() as int
    } else {
        j
    };
    if ju < i {
        i
    } else {
        ju
    }
}

/// Where `ws_end` points: just past a run of whitespace tokens.
pub proof fn lemma_ws_end(ts: Seq<TokenV>, i: int)
    requires
        0 <= i <= ts.len(),
    ensures
        ws_end(ts, i) == skip_ws_at(ts, i),
        i <= ws_end(ts, i) <= ts.len(),
        forall|k: int| i <= k < ws_end(ts, i) ==> ts[k] is Whitespace,
        ws_end(ts, i) == ts.len() || !(ts[ws_end(ts, i)] is Whitespace),
    decreases ts.len() - i,
{
    if i < ts.len() && ts[i] is Whitespace {
        lemma_ws_end(ts, i + 1);
    }
}

/// Parses one value at index `i`: a nested object or array, or one leaf
/// token, after skipping whitespace.
pub open spec fn parse_value_at(ts: Seq<TokenV>, i: int) -> ParseStep
    decreases ts.len() - i, 0int,
{
    let j = ws_end(ts, i);
    if j >= ts.len() {
        ParseStep::Failed(ParseError::UnexpectedToken)
    } else {
        match ts[j] {
            TokenV::LeftBrace => parse_object_at(ts, j + 1, Seq::empty()),
            TokenV::LeftBracket => parse_array_at(ts, j + 1, Seq::empty()),
            TokenV::String(s) => ParseStep::Parsed(ValueV::String(s), j + 1),
            TokenV::Number(s) => ParseStep::Parsed(ValueV::Number(s), j + 1),
            TokenV::Boolean(b) => ParseStep::Parsed(ValueV::Boolean(b), j + 1),
            TokenV::Null => ParseStep::Parsed(ValueV::Null, j + 1),
            _ => ParseStep::Failed(ParseError::UnexpectedToken),
        }
    }
}

/// Parses an object body with the opening brace already consumed and the
/// pairs seen so far in `acc`: pairs in insertion order, duplicate keys kept,
/// a comma directly before the closing brace refused.
pub open spec fn parse_object_at(ts: Seq<TokenV>, i: int, acc: Seq<(Seq<char>, ValueV)>) -> ParseStep
    decreases ts.len() - i, 1int,
{
    let j = ws_end(ts, i);
    if j >= ts.len() {
        ParseStep::Failed(ParseError::ExpectedKeyOrRightBrace)
    } else {
        match ts[j] {
            TokenV::RightBrace => ParseStep::Parsed(ValueV::Object(acc), j + 1),
            TokenV::String(k) => {
                let j2 = ws_end(ts, j + 1);
                if j2 >= ts.len() || !(ts[j2] is Colon) {
                    ParseStep::Failed(ParseError::ExpectedColon)
                } else {
                    match parse_value_at(ts, j2 + 1) {
                        ParseStep::Failed(e) => ParseStep::Failed(e),
                        ParseStep::Parsed(v, jr) => {
                            let ja = if jr < j2 + 2 {
                                j2 + 2
                            } else {
                                jr
                            };
                            let jv = if ja > ts.len() {
                                ts.len() as int
                            } else {
                                ja
                            };
                            let j4 = ws_end(ts, jv);
                            if j4 < ts.len() && ts[j4] is Comma {
                                let j5 = ws_end(ts, j4 + 1);
                                if j5 < ts.len() && ts[j5] is RightBrace {
                                    ParseStep::Failed(ParseError::TrailingComma)
                                } else {
                                    parse_object_at(ts, j5, acc.push((k, v)))
                                }
                            } else if j4 >= ts.len() {
                                ParseStep::Failed(ParseError::ExpectedKeyOrRightBrace)
                            } else if ts[j4] is RightBrace {
                                ParseStep::Parsed(ValueV::Object(acc.push((k, v))), j4 + 1)
                            } else {
                                ParseStep::Failed(ParseError::ExpectedCommaOrRightBrace)
                            }
                        },
                    }
                }
            },
            _ => ParseStep::Failed(ParseError::ExpectedKeyOrRightBrace),
        }
    }
}

/// Parses an array body with the opening bracket already consumed and the
/// elements seen so far in `acc`: elements in order, a comma directly before
/// the closing bracket refused, a missing comma between elements tolerated.
pub open spec fn parse_array_at(ts: Seq<TokenV>, i: int, acc: Seq<ValueV>) -> ParseStep
    decreases ts.len() - i, 2int,
{
    let j = ws_end(ts, i);
    if j >= ts.len() {
        ParseStep::Failed(ParseError::UnexpectedToken)
    } else if ts[j] is RightBracket {
        ParseStep::Parsed(ValueV::Array(acc), j + 1)
    } else {
        match parse_value_at(ts, j) {
            ParseStep::Failed(e) => ParseStep::Failed(e),
            ParseStep::Parsed(v, jr) => {
                let ja = if jr < j + 1 {
                    j + 1
                } else {
                    jr
                };
                let jv = if ja > ts.len() {
                    ts.len() as int
                } else {
                    ja
                };
                let j3 = ws_end(ts, jv);
                if j3 < ts.len() && ts[j3] is Comma {
                    let j4 = ws_end(ts, j3 + 1);
                    if j4 < ts.len() && ts[j4] is RightBracket {
                        ParseStep::Failed(ParseError::TrailingComma)
                    } else {
                        parse_array_at(ts, j4, acc.push(v))
                    }
                } else if j3 < ts.len() && ts[j3] is RightBracket {
                    ParseStep::Parsed(ValueV::Array(acc.push(v)), j3 + 1)
                } else {
                    parse_array_at(ts, j3, acc.push(v))
                }
            },
        }
    }
}

/// Parses a whole document from index `i`: after leading whitespace the root
/// must open an object or an array; anything else, or no tokens at all, is
/// `NoTokensToParse`. Tokens past the root are left unread.
pub open spec fn parse_top_from(ts: Seq<TokenV>, i: int) -> Result<ValueV, ParseError> {
    let j = ws_end(ts, i);
    if j < ts.len() && ts[j] is LeftBrace {
        match parse_object_at(ts, j + 1, Seq::empty()) {
            ParseStep::Parsed(v, jn) => Ok(v),
            ParseStep::Failed(e) => Err(e),
        }
    } else if j < ts.len() && ts[j] is LeftBracket {
        match parse_array_at(ts, j + 1, Seq::empty()) {
            ParseStep::Parsed(v, jn) => Ok(v),
            ParseStep::Failed(e) => Err(e),
        }
    } else {
        Err(ParseError::NoTokensToParse)
    }
}

/// Parses a whole document from the start of the token sequence.
pub open spec fn parse_top(ts: Seq<TokenV>) -> Result<ValueV, ParseError> {
    parse_top_from(ts, 0)
}

/// Whether this token is the whitespace marker.
fn is_ws_token(t: &JsonToken) -> (b: bool)
    ensures
        b == (t@ is Whitespace),
{
    match t {
        JsonToken::Whitespace => true,
        _ => false,
    }
}

/// The parser: a forward cursor with one-token lookahead over a borrowed
/// token sequence.
pub struct Parser<'a> {
    tokens: &'a [JsonToken],
    pos: usize,
}

impl<'a> Parser<'a> {
    /// The token sequence being parsed.
    pub closed spec fn toks(&self) -> Seq<TokenV> {
        tokens_view(self.tokens@)
    }

    /// The cursor position.
    pub closed spec fn at(&self) -> int {
        self.pos as int
    }

    /// The cursor never passes the end of the tokens.
    pub closed spec fn wf(&self) -> bool {
        self.pos <= self.tokens@.len()
    }

    /// Prepares to parse `tokens` from the first one.
    pub fn new(tokens: &'a [JsonToken]) -> (p: Parser<'a>)
        ensures
            p.toks() == tokens_view(tokens@),
            p.at() == 0,
            p.wf(),
    {
        Parser { tokens, pos: 0 }
    }

    /// Advances the cursor past consecutive whitespace tokens.
    #[verifier::loop_isolation(false)]
    fn skip_whitespace(&mut self)
        requires
            old(self).wf(),
        ensures
            final(self).toks() == old(self).toks(),
            final(self).wf(),
            final(self).at() == ws_end(old(self).toks(), old(self).at()),
    {
        proof {
            lemma_ws_end(self.toks(), self.at());
        }
        while self.pos < self.tokens.len() && is_ws_token(&self.tokens[self.pos])
            invariant
                self.wf(),
                self.toks() == old(self).toks(),
                old(self).at() <= self.at(),
                skip_ws_at(self.toks(), self.at()) == skip_ws_at(old(self).toks(), old(self).at()),
            decreases self.tokens@.len() - self.pos,
        {
            self.pos = self.pos + 1;
        }
        proof {
            lemma_ws_end(self.toks(), self.at());
        }
    }

    /// Parses one value at the cursor, as `parse_value_at` describes.
    fn parse_value(&mut self) -> (r: Result<JsonValue, ParseError>)
        requires
            old(self).wf(),
        ensures
            final(self).toks() == old(self).toks(),
            final(self).wf(),
            match r {
                Ok(v) => parse_value_at(old(self).toks(), old(self).at()) == ParseStep::Parsed(
                    v@,
                    final(self).at(),
                ) && old(self).at() < final(self).at(),
                Err(e) => parse_value_at(old(self).toks(), old(self).at())
                    == ParseStep::Failed(e),
            },
        decreases self.tokens@.len() - self.pos, 0int,
    {
        let ghost ts = self.toks();
        let ghost i0 = self.at();
        self.skip_whitespace();
        proof {
            lemma_ws_end(ts, i0);
        }
        if self.pos >= self.tokens.len() {
            return Err(ParseError::UnexpectedToken);
        }
        match &self.tokens[self.pos] {
            JsonToken::LeftBrace => {
                self.pos = self.pos + 1;
                self.parse_object(Vec::new())
            },
            JsonToken::LeftBracket => {
                self.pos = self.pos + 1;
                self.parse_array(Vec::new())
            },
            JsonToken::String(s) => {
                let v = JsonValue::String(s.clone());
                self.pos = self.pos + 1;
                Ok(v)
            },
            JsonToken::Number(s) => {
                let v = JsonValue::Number(s.clone());
                self.pos = self.pos + 1;
                Ok(v)
            },
            JsonToken::Boolean(b) => {
                let v = JsonValue::Boolean(*b);
                self.pos = self.pos + 1;
                Ok(v)
            },
            JsonToken::Null => {
                self.pos = self.pos + 1;
                Ok(JsonValue::Null)
            },
            _ => Err(ParseError::UnexpectedToken),
        }
    }

    /// Parses an object body at the cursor, the opening brace already
    /// consumed, as `parse_object_at` describes.
    #[verifier::rlimit(50)]
    fn parse_object(&mut self, obj: Vec<(String, Box<JsonValue>)>) -> (r: Result<
        JsonValue,
        ParseError,
    >)
        requires
            old(self).wf(),
        ensures
            final(self).toks() == old(self).toks(),
            final(self).wf(),
            match r {
                Ok(v) => parse_object_at(
                    old(self).toks(),
                    old(self).at(),
                    members_view_from(obj@, 0),
                ) == ParseStep::Parsed(v@, final(self).at()) && old(self).at() < final(self).at(),
                Err(e) => parse_object_at(
                    old(self).toks(),
                    old(self).at(),
                    members_view_from(obj@, 0),
                ) == ParseStep::Failed(e),
            },
        decreases self.tokens@.len() - self.pos, 1int,
    {
        let ghost ts = self.toks();
        let ghost i0 = self.at();
        let ghost accv = members_view_from(obj@, 0);
        self.skip_whitespace();
        proof {
            lemma_ws_end(ts, i0);
        }
        if self.pos >= self.tokens.len() {
            return Err(ParseError::ExpectedKeyOrRightBrace);
        }
        match &self.tokens[self.pos] {
            JsonToken::RightBrace => {
                self.pos = self.pos + 1;
                Ok(JsonValue::JsonObject(obj))
            },
            JsonToken::String(k) => {
                let ghost j = self.at();
                let key = k.clone();
                self.pos = self.pos + 1;
                self.skip_whitespace();
                proof {
                    lemma_ws_end(ts, j + 1);
                }
                let ghost j2 = self.at();
                if self.pos >= self.tokens.len() {
                    return Err(ParseError::ExpectedColon);
                }
                let colon_next = match &self.tokens[self.pos] {
                    JsonToken::Colon => true,
                    _ => false,
                };
                if !colon_next {
                    return Err(ParseError::ExpectedColon);
                }
                self.pos = self.pos + 1;
                let val = match self.parse_value() {
                    Ok(v) => v,
                    Err(e) => {
                        return Err(e);
                    },
                };
                let ghost jr = self.at();
                let mut obj2 = obj;
                obj2.push((key, Box::new(val)));
                proof {
                    lemma_members_view(obj@, 0);
                    lemma_members_view(obj2@, 0);
                    assert(obj2@.len() == obj@.len() + 1);
                    assert(forall|d: int| 0 <= d < obj@.len() ==> obj2@[d] == obj@[d]);
                    assert(members_view_from(obj2@, 0).len() == obj2@.len());
                    assert(forall|d: int|
                        0 <= d < obj2@.len() ==> members_view_from(obj2@, 0)[d] == (
                        obj2@[d].0@,
                        value_view(*obj2@[d].1),
                        ));
                    assert(forall|d: int| 0 <= d < obj@.len() ==> accv[d] == (
                        obj@[d].0@,
                        value_view(*obj@[d].1),
                    ));
                    assert(members_view_from(obj2@, 0) =~= accv.push(
                        (obj2@.last().0@, value_view(*obj2@.last().1)),
                    ));
                }
                self.skip_whitespace();
                proof {
                    lemma_ws_end(ts, jr);
                }
                let ghost j4 = self.at();
                let comma_next = if self.pos < self.tokens.len() {
                    match &self.tokens[self.pos] {
                        JsonToken::Comma => true,
                        _ => false,
                    }
                } else {
                    false
                };
                if comma_next {
                    self.pos = self.pos + 1;
                    self.skip_whitespace();
                    proof {
                        lemma_ws_end(ts, j4 + 1);
                    }
                    let brace_next = if self.pos < self.tokens.len() {
                        match &self.tokens[self.pos] {
                            JsonToken::RightBrace => true,
                            _ => false,
                        }
                    } else {
                        false
                    };
                    if brace_next {
                        return Err(ParseError::TrailingComma);
                    }
                    self.parse_object(obj2)
                } else if self.pos >= self.tokens.len() {
                    Err(ParseError::ExpectedKeyOrRightBrace)
                } else {
                    let brace_next = match &self.tokens[self.pos] {
                        JsonToken::RightBrace => true,
                        _ => false,
                    };
                    if brace_next {
                        self.pos = self.pos + 1;
                        Ok(JsonValue::JsonObject(obj2))
                    } else {
                        Err(ParseError::ExpectedCommaOrRightBrace)
                    }
                }
            },
            _ => Err(ParseError::ExpectedKeyOrRightBrace),
        }
    }

    /// Parses an array body at the cursor, the opening bracket already
    /// consumed, as `parse_array_at` describes.
    #[verifier::rlimit(50)]
    fn parse_array(&mut self, arr: Vec<Box<JsonValue>>) -> (r: Result<JsonValue, ParseError>)
        requires
            old(self).wf(),
        ensures
            final(self).toks() == old(self).toks(),
            final(self).wf(),
            match r {
                Ok(v) => parse_array_at(old(self).toks(), old(self).at(), items_view_from(arr@, 0))
                    == ParseStep::Parsed(v@, final(self).at()) && old(self).at() < final(self).at(),
                Err(e) => parse_array_at(
                    old(self).toks(),
                    old(self).at(),
                    items_view_from(arr@, 0),
                ) == ParseStep::Failed(e),
            },
        decreases self.tokens@.len() - self.pos, 2int,
    {
        let ghost ts = self.toks();
        let ghost i0 = self.at();
        let ghost accv = items_view_from(arr@, 0);
        self.skip_whitespace();
        proof {
            lemma_ws_end(ts, i0);
        }
        if self.pos >= self.tokens.len() {
            return Err(ParseError::UnexpectedToken);
        }
        let bracket_next = match &self.tokens[self.pos] {
            JsonToken::RightBracket => true,
            _ => false,
        };
        if bracket_next {
            self.pos = self.pos + 1;
            return Ok(JsonValue::JsonArray(arr));
        }
        let val = match self.parse_value() {
            Ok(v) => v,
            Err(e) => {
                return Err(e);
            },
        };
        let ghost jr = self.at();
        let mut arr2 = arr;
        arr2.push(Box::new(val));
        proof {
            lemma_items_view(arr@, 0);
            lemma_items_view(arr2@, 0);
            assert(arr2@.len() == arr@.len() + 1);
            assert(forall|d: int| 0 <= d < arr@.len() ==> arr2@[d] == arr@[d]);
            assert(forall|d: int|
                0 <= d < arr2@.len() ==> items_view_from(arr2@, 0)[d] == value_view(*arr2@[d]));
            assert(forall|d: int| 0 <= d < arr@.len() ==> accv[d] == value_view(*arr@[d]));
            assert(items_view_from(arr2@, 0) =~= accv.push(value_view(*arr2@.last())));
        }
        self.skip_whitespace();
        proof {
            lemma_ws_end(ts, jr);
        }
        let ghost j3 = self.at();
        let comma_next = if self.pos < self.tokens.len() {
            match &self.tokens[self.pos] {
                JsonToken::Comma => true,
                _ => false,
            }
        } else {
            false
        };
        if comma_next {
            self.pos = self.pos + 1;
            self.skip_whitespace();
            proof {
                lemma_ws_end(ts, j3 + 1);
            }
            let bracket_after = if self.pos < self.tokens.len() {
                match &self.tokens[self.pos] {
                    JsonToken::RightBracket => true,
                    _ => false,
                }
            } else {
                false
            };
            if bracket_after {
                return Err(ParseError::TrailingComma);
            }
            self.parse_array(arr2)
        } else {
            let bracket_after = if self.pos < self.tokens.len() {
                match &self.tokens[self.pos] {
                    JsonToken::RightBracket => true,
                    _ => false,
                }
            } else {
                false
            };
            if bracket_after {
                self.pos = self.pos + 1;
                Ok(JsonValue::JsonArray(arr2))
            } else {
                self.parse_array(arr2)
            }
        }
    }

    /// Parses the whole token sequence into a single root tree, as
    /// `parse_top_from` describes: the root must be an object or an array.
    pub fn parse(&mut self) -> (r: Result<JsonValue, ParseError>)
        requires
            old(self).wf(),
        ensures
            final(self).toks() == old(self).toks(),
            final(self).wf(),
            match r {
                Ok(v) => parse_top_from(old(self).toks(), old(self).at()) == Ok::<_, ParseError>(
                    v@,
                ),
                Err(e) => parse_top_from(old(self).toks(), old(self).at()) == Err::<ValueV, _>(e),
            },
    {
        let ghost ts = self.toks();
        let ghost i0 = self.at();
        self.skip_whitespace();
        proof {
            lemma_ws_end(ts, i0);
        }
        if self.pos >= self.tokens.len() {
            return Err(ParseError::NoTokensToParse);
        }
        match &self.tokens[self.pos] {
            JsonToken::LeftBrace => {
                self.pos = self.pos + 1;
                self.parse_object(Vec::new())
            },
            JsonToken::LeftBracket => {
                self.pos = self.pos + 1;
                self.parse_array(Vec::new())
            },
            _ => Err(ParseError::NoTokensToParse),
        }
    }
}

} // verus!
