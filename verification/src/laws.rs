use vstd::prelude::*;
use crate::chars::{is_digit_char, is_number_char, true_chars, false_chars, null_chars};
use crate::token::TokenV;
use crate::value::ValueV;
use crate::render::{render_value, render_members, render_items, ast_render};
use crate::lexer::{
    lex_from, lex_cons, scan_token, Scan, quote_end, number_end, LexErrorV, lemma_quote_end,
    lemma_number_end, lemma_lex_step, lemma_lex_cons_assoc, lemma_scan_token,
};
use crate::parser::{
    parse_value_at, parse_object_at, parse_array_at, parse_top, ParseStep, ParseError, ws_end,
    lemma_ws_end,
};

verus! {

// ------------------------------------------------------------------
// Trees the parser itself can produce.
// ------------------------------------------------------------------

/// Whether the lexer could have produced every text in this tree: strings
/// and keys hold no quote, numbers are a digit followed by digits and dots.
pub open spec fn lexable(v: ValueV) -> bool
    decreases v, 0int,
{
    match v {
        ValueV::Object(ps) => lexable_members(ps, 0),
        ValueV::Array(es) => lexable_items(es, 0),
        ValueV::String(s) => forall|t: int| 0 <= t < s.len() ==> s[t] != '"',
        ValueV::Number(s) => s.len() > 0 && is_digit_char(s[0]) && (forall|t: int|
            0 <= t < s.len() ==> is_number_char(s[t])),
        ValueV::Boolean(b) => true,
        ValueV::Null => true,
    }
}

/// `lexable` over an object's pairs from index `k` on.
pub open spec fn lexable_members(ps: Seq<(Seq<char>, ValueV)>, k: int) -> bool
    decreases ps, ps.len() - k,
{
    if 0 <= k < ps.len() {
        (forall|t: int| 0 <= t < ps[k].0.len() ==> ps[k].0[t] != '"') && lexable(ps[k].1)
            && lexable_members(ps, k + 1)
    } else {
        true
    }
}

/// `lexable` over an array's elements from index `k` on.
pub open spec fn lexable_items(es: Seq<ValueV>, k: int) -> bool
    decreases es, es.len() - k,
{
    if 0 <= k < es.len() {
        lexable(es[k]) && lexable_items(es, k + 1)
    } else {
        true
    }
}

// ------------------------------------------------------------------
// The token sequence of a compact rendering.
// ------------------------------------------------------------------

/// The tokens that scanning the compact rendering of a tree yields.
pub open spec fn tokens_of(v: ValueV) -> Seq<TokenV>
    decreases v, 0int,
{
    match v {
        ValueV::Object(ps) => seq![TokenV::LeftBrace] + member_tokens(ps, 0) + seq![
            TokenV::RightBrace,
        ],
        ValueV::Array(es) => seq![TokenV::LeftBracket] + item_tokens(es, 0) + seq![
            TokenV::RightBracket,
        ],
        ValueV::String(s) => seq![TokenV::String(s)],
        ValueV::Number(s) => seq![TokenV::Number(s)],
        ValueV::Boolean(b) => seq![TokenV::Boolean(b)],
        ValueV::Null => seq![TokenV::Null],
    }
}

/// The tokens of an object's rendered pairs from index `k` on.
pub open spec fn member_tokens(ps: Seq<(Seq<char>, ValueV)>, k: int) -> Seq<TokenV>
    decreases ps, ps.len() - k,
{
    if 0 <= k < ps.len() {
        seq![TokenV::String(ps[k].0), TokenV::Colon, TokenV::Whitespace] + tokens_of(ps[k].1) + (
        if k + 1 < ps.len() {
            seq![TokenV::Comma, TokenV::Whitespace] + member_tokens(ps, k + 1)
        } else {
            Seq::empty()
        })
    } else {
        Seq::empty()
    }
}

/// The tokens of an array's rendered elements from index `k` on.
pub open spec fn item_tokens(es: Seq<ValueV>, k: int) -> Seq<TokenV>
    decreases es, es.len() - k,
{
    if 0 <= k < es.len() {
        tokens_of(es[k]) + (if k + 1 < es.len() {
            seq![TokenV::Comma, TokenV::Whitespace] + item_tokens(es, k + 1)
        } else {
            Seq::empty()
        })
    } else {
        Seq::empty()
    }
}

/// A tree's token sequence starts with a token that can begin a value; in
/// particular it is not whitespace or a closing delimiter.
pub proof fn lemma_tokens_of_first(v: ValueV)
    ensures
        tokens_of(v).len() >= 1,
        !(tokens_of(v)[0] is Whitespace),
        !(tokens_of(v)[0] is RightBrace),
        !(tokens_of(v)[0] is RightBracket),
        !(tokens_of(v)[0] is Comma),
        !(tokens_of(v)[0] is Colon),
{
    match v {
        ValueV::Object(ps) => {},
        ValueV::Array(es) => {},
        _ => {},
    }
}

// ------------------------------------------------------------------
// Idempotence: rendering is a pure function of the tree.
// ------------------------------------------------------------------

/// Two compact renderings of the same tree are the same text: the compact
/// text is one fixed character sequence per tree.
pub proof fn lemma_compact_idempotent(v: ValueV, a: Seq<char>, b: Seq<char>)
    requires
        a == render_value(v),
        b == render_value(v),
    ensures
        a == b,
{
}

/// Two structural dumps of the same tree at the same depth are the same text.
pub proof fn lemma_ast_idempotent(v: ValueV, d: int, a: Seq<char>, b: Seq<char>)
    requires
        a == ast_render(v, d),
        b == ast_render(v, d),
    ensures
        a == b,
{
}

// ------------------------------------------------------------------
// Re-parsing a rendered tree's tokens yields the tree back.
// ------------------------------------------------------------------

/// One element of a region that matches a subrange of `ts`.
pub proof fn lemma_at<A>(ts: Seq<A>, i: int, a: Seq<A>, t: int)
    requires
        0 <= i,
        i + a.len() <= ts.len(),
        ts.subrange(i, i + a.len() as int) == a,
        0 <= t < a.len(),
    ensures
        ts[i + t] == a[t],
{
    assert(a[t] == ts.subrange(i, i + a.len() as int)[t]);
}

/// A region match transfers to any inner subrange.
pub proof fn lemma_subrange_shift<A>(ts: Seq<A>, i: int, a: Seq<A>, lo: int, hi: int)
    requires
        0 <= i,
        i + a.len() <= ts.len(),
        ts.subrange(i, i + a.len() as int) == a,
        0 <= lo <= hi <= a.len(),
    ensures
        ts.subrange(i + lo, i + hi) == a.subrange(lo, hi),
{
    assert forall|t: int| 0 <= t < hi - lo implies ts.subrange(i + lo, i + hi)[t] == a.subrange(
        lo,
        hi,
    )[t] by {
        assert(a[lo + t] == ts.subrange(i, i + a.len() as int)[lo + t]);
    }
    assert(ts.subrange(i + lo, i + hi) =~= a.subrange(lo, hi));
}

/// Parsing one value whose tokens sit at the whitespace-skipped cursor
/// yields exactly that value and stops just past its tokens.
pub proof fn lemma_parse_value(ts: Seq<TokenV>, i: int, v: ValueV)
    requires
        0 <= i <= ts.len(),
        ws_end(ts, i) + tokens_of(v).len() <= ts.len(),
        ts.subrange(ws_end(ts, i), ws_end(ts, i) + tokens_of(v).len() as int) == tokens_of(v),
    ensures
        parse_value_at(ts, i) == ParseStep::Parsed(v, ws_end(ts, i) + tokens_of(v).len() as int),
    decreases v, 0int,
{
    lemma_ws_end(ts, i);
    lemma_tokens_of_first(v);
    let j = ws_end(ts, i);
    let toks = tokens_of(v);
    let n = toks.len() as int;
    lemma_at(ts, j, toks, 0);
    match v {
        ValueV::Object(ps) => {
            let m = member_tokens(ps, 0);
            assert(ts[j] == TokenV::LeftBrace);
            lemma_subrange_shift(ts, j, toks, 1, n);
            assert(toks.subrange(1, n) =~= m + seq![TokenV::RightBrace]);
            lemma_parse_members(ts, j + 1, ps, 0, Seq::empty());
            assert(Seq::empty() + ps.skip(0) =~= ps);
        },
        ValueV::Array(es) => {
            let m = item_tokens(es, 0);
            assert(ts[j] == TokenV::LeftBracket);
            lemma_subrange_shift(ts, j, toks, 1, n);
            assert(toks.subrange(1, n) =~= m + seq![TokenV::RightBracket]);
            lemma_parse_items(ts, j + 1, es, 0, Seq::empty());
            assert(Seq::empty() + es.skip(0) =~= es);
        },
        ValueV::String(s) => {
            assert(ts[j] == TokenV::String(s));
        },
        ValueV::Number(s) => {
            assert(ts[j] == TokenV::Number(s));
        },
        ValueV::Boolean(b) => {
            assert(ts[j] == TokenV::Boolean(b));
        },
        ValueV::Null => {
            assert(ts[j] == TokenV::Null);
        },
    }
}

/// A nonempty pair region starts with its key token.
pub proof fn lemma_member_tokens_first(ps: Seq<(Seq<char>, ValueV)>, k: int)
    requires
        0 <= k < ps.len(),
    ensures
        member_tokens(ps, k).len() >= 1,
        member_tokens(ps, k)[0] == TokenV::String(ps[k].0),
{
}

/// A nonempty element region starts with its value's first token.
pub proof fn lemma_item_tokens_first(es: Seq<ValueV>, k: int)
    requires
        0 <= k < es.len(),
    ensures
        item_tokens(es, k).len() >= 1,
        item_tokens(es, k)[0] == tokens_of(es[k])[0],
{
    lemma_tokens_of_first(es[k]);
}

/// Parsing an object body whose remaining pair tokens and closing brace sit
/// at the cursor appends exactly those pairs and stops just past the brace.
pub proof fn lemma_parse_members(
    ts: Seq<TokenV>,
    i: int,
    ps: Seq<(Seq<char>, ValueV)>,
    k: int,
    acc: Seq<(Seq<char>, ValueV)>,
)
    requires
        0 <= k <= ps.len(),
        0 <= i,
        i + member_tokens(ps, k).len() + 1 <= ts.len(),
        ts.subrange(i, i + member_tokens(ps, k).len() as int + 1) == member_tokens(ps, k) + seq![
            TokenV::RightBrace,
        ],
    ensures
        parse_object_at(ts, i, acc) == ParseStep::Parsed(
            ValueV::Object(acc + ps.skip(k)),
            i + member_tokens(ps, k).len() as int + 1,
        ),
    decreases ps, ps.len() - k,
{
    lemma_ws_end(ts, i);
    let m = member_tokens(ps, k);
    let region = m + seq![TokenV::RightBrace];
    let n = m.len() as int;
    if k == ps.len() {
        lemma_at(ts, i, region, 0);
        assert(ts[i] == TokenV::RightBrace);
        assert(ws_end(ts, i) == i);
        assert(acc + ps.skip(k) =~= acc);
    } else {
        let key = ps[k].0;
        let v = ps[k].1;
        let toks = tokens_of(v);
        let nv = toks.len() as int;
        lemma_tokens_of_first(v);
        lemma_at(ts, i, region, 0);
        lemma_at(ts, i, region, 1);
        lemma_at(ts, i, region, 2);
        lemma_at(ts, i, region, 3);
        assert(ts[i] == TokenV::String(key));
        assert(ws_end(ts, i) == i);
        assert(ts[i + 1] == TokenV::Colon);
        lemma_ws_end(ts, i + 1);
        assert(ws_end(ts, i + 1) == i + 1);
        assert(ts[i + 2] == TokenV::Whitespace);
        assert(ts[i + 3] == toks[0]);
        lemma_ws_end(ts, i + 2);
        lemma_ws_end(ts, i + 3);
        assert(ws_end(ts, i + 2) == i + 3);
        lemma_subrange_shift(ts, i, region, 3, 3 + nv);
        assert(region.subrange(3, 3 + nv) =~= toks);
        lemma_parse_value(ts, i + 2, v);
        let jr = i + 3 + nv;
        assert(parse_value_at(ts, i + 2) == ParseStep::Parsed(v, jr));
        lemma_ws_end(ts, jr);
        if k + 1 < ps.len() {
            let rest = member_tokens(ps, k + 1);
            lemma_member_tokens_first(ps, k + 1);
            lemma_at(ts, i, region, 3 + nv);
            lemma_at(ts, i, region, 4 + nv);
            lemma_at(ts, i, region, 5 + nv);
            assert(ts[jr] == TokenV::Comma);
            assert(ws_end(ts, jr) == jr);
            assert(ts[jr + 1] == TokenV::Whitespace);
            assert(ts[jr + 2] == rest[0]);
            lemma_ws_end(ts, jr + 1);
            lemma_ws_end(ts, jr + 2);
            assert(ws_end(ts, jr + 1) == jr + 2);
            assert(!(ts[jr + 2] is RightBrace));
            lemma_subrange_shift(ts, i, region, 5 + nv, n + 1);
            assert(region.subrange(5 + nv, n + 1) =~= rest + seq![TokenV::RightBrace]);
            lemma_parse_members(ts, jr + 2, ps, k + 1, acc.push((key, v)));
            assert(acc.push((key, v)) + ps.skip(k + 1) =~= acc + ps.skip(k));
        } else {
            lemma_at(ts, i, region, 3 + nv);
            assert(ts[jr] == TokenV::RightBrace);
            assert(ws_end(ts, jr) == jr);
            assert(acc.push((key, v)) =~= acc + ps.skip(k));
        }
    }
}

/// Parsing an array body whose remaining element tokens and closing bracket
/// sit at the cursor appends exactly those elements and stops just past the
/// bracket.
pub proof fn lemma_parse_items(ts: Seq<TokenV>, i: int, es: Seq<ValueV>, k: int, acc: Seq<ValueV>)
    requires
        0 <= k <= es.len(),
        0 <= i,
        i + item_tokens(es, k).len() + 1 <= ts.len(),
        ts.subrange(i, i + item_tokens(es, k).len() as int + 1) == item_tokens(es, k) + seq![
            TokenV::RightBracket,
        ],
    ensures
        parse_array_at(ts, i, acc) == ParseStep::Parsed(
            ValueV::Array(acc + es.skip(k)),
            i + item_tokens(es, k).len() as int + 1,
        ),
    decreases es, es.len() - k,
{
    lemma_ws_end(ts, i);
    let m = item_tokens(es, k);
    let region = m + seq![TokenV::RightBracket];
    let n = m.len() as int;
    if k == es.len() {
        lemma_at(ts, i, region, 0);
        assert(ts[i] == TokenV::RightBracket);
        assert(ws_end(ts, i) == i);
        assert(acc + es.skip(k) =~= acc);
    } else {
        let v = es[k];
        let toks = tokens_of(v);
        let nv = toks.len() as int;
        lemma_tokens_of_first(v);
        lemma_at(ts, i, region, 0);
        assert(ts[i] == toks[0]);
        assert(ws_end(ts, i) == i);
        lemma_subrange_shift(ts, i, region, 0, nv);
        assert(region.subrange(0, nv) =~= toks);
        lemma_parse_value(ts, i, v);
        let jr = i + nv;
        assert(parse_value_at(ts, i) == ParseStep::Parsed(v, jr));
        lemma_ws_end(ts, jr);
        if k + 1 < es.len() {
            let rest = item_tokens(es, k + 1);
            lemma_item_tokens_first(es, k + 1);
            lemma_tokens_of_first(es[k + 1]);
            lemma_at(ts, i, region, nv);
            lemma_at(ts, i, region, nv + 1);
            lemma_at(ts, i, region, nv + 2);
            assert(ts[jr] == TokenV::Comma);
            assert(ws_end(ts, jr) == jr);
            assert(ts[jr + 1] == TokenV::Whitespace);
            assert(ts[jr + 2] == rest[0]);
            lemma_ws_end(ts, jr + 1);
            lemma_ws_end(ts, jr + 2);
            assert(ws_end(ts, jr + 1) == jr + 2);
            assert(!(ts[jr + 2] is RightBracket));
            lemma_subrange_shift(ts, i, region, nv + 2, n + 1);
            assert(region.subrange(nv + 2, n + 1) =~= rest + seq![TokenV::RightBracket]);
            lemma_parse_items(ts, jr + 2, es, k + 1, acc.push(v));
            assert(acc.push(v) + es.skip(k + 1) =~= acc + es.skip(k));
        } else {
            lemma_at(ts, i, region, nv);
            assert(ts[jr] == TokenV::RightBracket);
            assert(ws_end(ts, jr) == jr);
            assert(acc.push(v) =~= acc + es.skip(k));
        }
    }
}

/// Parsing the token sequence of a container tree yields that tree back.
pub proof fn theorem_parse_tokens(v: ValueV)
    requires
        v is Object || v is Array,
    ensures
        parse_top(tokens_of(v)) == Ok::<ValueV, ParseError>(v),
{
    let ts = tokens_of(v);
    let n = ts.len() as int;
    lemma_tokens_of_first(v);
    lemma_ws_end(ts, 0);
    assert(ts.subrange(0, n) =~= ts);
    match v {
        ValueV::Object(ps) => {
            assert(ts[0] == TokenV::LeftBrace);
            assert(ws_end(ts, 0) == 0);
            lemma_subrange_shift(ts, 0, ts, 1, n);
            assert(ts.subrange(1, n) =~= member_tokens(ps, 0) + seq![TokenV::RightBrace]);
            lemma_parse_members(ts, 1, ps, 0, Seq::empty());
            assert(Seq::empty() + ps.skip(0) =~= ps);
        },
        ValueV::Array(es) => {
            assert(ts[0] == TokenV::LeftBracket);
            assert(ws_end(ts, 0) == 0);
            lemma_subrange_shift(ts, 0, ts, 1, n);
            assert(ts.subrange(1, n) =~= item_tokens(es, 0) + seq![TokenV::RightBracket]);
            lemma_parse_items(ts, 1, es, 0, Seq::empty());
            assert(Seq::empty() + es.skip(0) =~= es);
        },
        _ => {},
    }
}

// ------------------------------------------------------------------
// Scanning a rendered tree yields exactly its tokens.
// ------------------------------------------------------------------

/// Prefixing nothing changes nothing.
pub proof fn lemma_lex_cons_empty(r: Result<Seq<TokenV>, LexErrorV>)
    ensures
        lex_cons(Seq::empty(), r) == r,
{
    match r {
        Ok(ts) => {
            assert(Seq::empty() + ts =~= ts);
        },
        Err(e) => {},
    }
}

/// Scanning the rendering of one tree, embedded in a larger text with no
/// number character directly after it, yields its tokens and then scans on.
pub proof fn lemma_lex_render(s: Seq<char>, i: int, v: ValueV)
    requires
        lexable(v),
        0 <= i,
        i + render_value(v).len() <= s.len(),
        s.subrange(i, i + render_value(v).len() as int) == render_value(v),
        i + render_value(v).len() == s.len() || !is_number_char(
            s[i + render_value(v).len() as int],
        ),
    ensures
        lex_from(s, i) == lex_cons(tokens_of(v), lex_from(s, i + render_value(v).len() as int)),
    decreases v, 0int,
{
    let r = render_value(v);
    let n = r.len() as int;
    lemma_at(s, i, r, 0);
    match v {
        ValueV::Object(ps) => {
            let m = render_members(ps, 0);
            let nm = m.len() as int;
            assert(s[i] == '{');
            assert(scan_token(s, i) == Scan::Next(TokenV::LeftBrace, i + 1));
            lemma_lex_step(s, i);
            lemma_subrange_shift(s, i, r, 1, 1 + nm);
            assert(r.subrange(1, 1 + nm) =~= m);
            lemma_at(s, i, r, n - 1);
            assert(s[i + 1 + nm] == '}');
            lemma_lex_members(s, i + 1, ps, 0);
            assert(scan_token(s, i + 1 + nm) == Scan::Next(TokenV::RightBrace, i + n));
            lemma_lex_step(s, i + 1 + nm);
            let tail = lex_from(s, i + n);
            lemma_lex_cons_assoc(
                member_tokens(ps, 0),
                seq![TokenV::RightBrace],
                tail,
            );
            lemma_lex_cons_assoc(
                seq![TokenV::LeftBrace],
                member_tokens(ps, 0) + seq![TokenV::RightBrace],
                tail,
            );
            assert(seq![TokenV::LeftBrace] + (member_tokens(ps, 0) + seq![TokenV::RightBrace])
                =~= tokens_of(v));
        },
        ValueV::Array(es) => {
            let m = render_items(es, 0);
            let nm = m.len() as int;
            assert(s[i] == '[');
            assert(scan_token(s, i) == Scan::Next(TokenV::LeftBracket, i + 1));
            lemma_lex_step(s, i);
            lemma_subrange_shift(s, i, r, 1, 1 + nm);
            assert(r.subrange(1, 1 + nm) =~= m);
            lemma_at(s, i, r, n - 1);
            assert(s[i + 1 + nm] == ']');
            lemma_lex_items(s, i + 1, es, 0);
            assert(scan_token(s, i + 1 + nm) == Scan::Next(TokenV::RightBracket, i + n));
            lemma_lex_step(s, i + 1 + nm);
            let tail = lex_from(s, i + n);
            lemma_lex_cons_assoc(
                item_tokens(es, 0),
                seq![TokenV::RightBracket],
                tail,
            );
            lemma_lex_cons_assoc(
                seq![TokenV::LeftBracket],
                item_tokens(es, 0) + seq![TokenV::RightBracket],
                tail,
            );
            assert(seq![TokenV::LeftBracket] + (item_tokens(es, 0) + seq![TokenV::RightBracket])
                =~= tokens_of(v));
        },
        ValueV::String(sv) => {
            let q = i + 1 + sv.len() as int;
            assert(s[i] == '"');
            lemma_at(s, i, r, n - 1);
            assert(s[q] == '"');
            assert forall|t: int| i + 1 <= t < q implies s[t] != '"' by {
                lemma_at(s, i, r, t - i);
            }
            lemma_quote_end(s, i + 1);
            match quote_end(s, i + 1) {
                Some(qq) => {
                    assert(qq == q);
                },
                None => {
                    assert(false);
                },
            }
            lemma_subrange_shift(s, i, r, 1, n - 1);
            assert(r.subrange(1, n - 1) =~= sv);
            assert(scan_token(s, i) == Scan::Next(TokenV::String(sv), q + 1));
            lemma_lex_step(s, i);
        },
        ValueV::Number(sv) => {
            assert(s[i] == sv[0]);
            assert(is_digit_char(s[i]));
            assert forall|t: int| i + 1 <= t < i + n implies is_number_char(s[t]) by {
                lemma_at(s, i, r, t - i);
            }
            lemma_number_end(s, i + 1);
            let ne = number_end(s, i + 1);
            assert(ne == i + n) by {
                if ne < i + n {
                    assert(is_number_char(s[ne]));
                }
                if ne > i + n {
                    assert(is_number_char(s[i + n]));
                }
            }
            lemma_subrange_shift(s, i, r, 0, n);
            assert(s.subrange(i, i + n) =~= sv);
            assert(scan_token(s, i) == Scan::Next(TokenV::Number(sv), i + n));
            lemma_lex_step(s, i);
        },
        ValueV::Boolean(b) => {
            if b {
                assert(s[i] == 't');
                lemma_subrange_shift(s, i, r, 0, n);
                assert(s.subrange(i, i + 4) =~= true_chars());
                assert(scan_token(s, i) == Scan::Next(TokenV::Boolean(true), i + 4));
                lemma_lex_step(s, i);
            } else {
                assert(s[i] == 'f');
                lemma_subrange_shift(s, i, r, 0, n);
                assert(s.subrange(i, i + 5) =~= false_chars());
                assert(scan_token(s, i) == Scan::Next(TokenV::Boolean(false), i + 5));
                lemma_lex_step(s, i);
            }
        },
        ValueV::Null => {
            assert(s[i] == 'n');
            lemma_subrange_shift(s, i, r, 0, n);
            assert(s.subrange(i, i + 4) =~= null_chars());
            assert(null_chars()[0] == 'n' && true_chars()[0] == 't');
            assert(scan_token(s, i) == Scan::Next(TokenV::Null, i + 4));
            lemma_lex_step(s, i);
        },
    }
}

/// Scanning the rendered pairs of an object from pair `k` on, with a
/// non-number character directly after them, yields their tokens in order.
pub proof fn lemma_lex_members(s: Seq<char>, i: int, ps: Seq<(Seq<char>, ValueV)>, k: int)
    requires
        lexable_members(ps, k),
        0 <= k <= ps.len(),
        0 <= i,
        i + render_members(ps, k).len() <= s.len(),
        s.subrange(i, i + render_members(ps, k).len() as int) == render_members(ps, k),
        i + render_members(ps, k).len() == s.len() || !is_number_char(
            s[i + render_members(ps, k).len() as int],
        ),
    ensures
        lex_from(s, i) == lex_cons(
            member_tokens(ps, k),
            lex_from(s, i + render_members(ps, k).len() as int),
        ),
    decreases ps, ps.len() - k,
{
    let m = render_members(ps, k);
    let nm = m.len() as int;
    if k == ps.len() {
        lemma_lex_cons_empty(lex_from(s, i));
    } else {
        let key = ps[k].0;
        let nk = key.len() as int;
        let v = ps[k].1;
        let rv = render_value(v);
        let nv = rv.len() as int;
        let q = i + 1 + nk;
        let iv = i + nk + 4;
        // the key's string token
        lemma_at(s, i, m, 0);
        assert(s[i] == '"');
        lemma_at(s, i, m, 1 + nk);
        assert(s[q] == '"');
        assert forall|t: int| i + 1 <= t < q implies s[t] != '"' by {
            lemma_at(s, i, m, t - i);
        }
        lemma_quote_end(s, i + 1);
        match quote_end(s, i + 1) {
            Some(qq) => {
                assert(qq == q);
            },
            None => {
                assert(false);
            },
        }
        lemma_subrange_shift(s, i, m, 1, 1 + nk);
        assert(m.subrange(1, 1 + nk) =~= key);
        assert(scan_token(s, i) == Scan::Next(TokenV::String(key), q + 1));
        lemma_lex_step(s, i);
        // the colon and the single space
        lemma_at(s, i, m, 2 + nk);
        assert(s[q + 1] == ':');
        assert(scan_token(s, q + 1) == Scan::Next(TokenV::Colon, q + 2));
        lemma_lex_step(s, q + 1);
        lemma_at(s, i, m, 3 + nk);
        assert(s[q + 2] == ' ');
        assert(scan_token(s, q + 2) == Scan::Next(TokenV::Whitespace, q + 3));
        lemma_lex_step(s, q + 2);
        // the value
        lemma_subrange_shift(s, i, m, 4 + nk, 4 + nk + nv);
        assert(m.subrange(4 + nk, 4 + nk + nv) =~= rv);
        if k + 1 < ps.len() {
            lemma_at(s, i, m, 4 + nk + nv);
            assert(s[iv + nv] == ',');
            assert(!is_number_char(s[iv + nv]));
            lemma_lex_render(s, iv, v);
            let ic = iv + nv;
            assert(scan_token(s, ic) == Scan::Next(TokenV::Comma, ic + 1));
            lemma_lex_step(s, ic);
            lemma_at(s, i, m, 5 + nk + nv);
            assert(s[ic + 1] == ' ');
            assert(scan_token(s, ic + 1) == Scan::Next(TokenV::Whitespace, ic + 2));
            lemma_lex_step(s, ic + 1);
            let rest = render_members(ps, k + 1);
            lemma_subrange_shift(s, i, m, 6 + nk + nv, nm);
            assert(m.subrange(6 + nk + nv, nm) =~= rest);
            lemma_lex_members(s, ic + 2, ps, k + 1);
            // fold the pieces together
            let tail = lex_from(s, i + nm);
            let t_rest = member_tokens(ps, k + 1);
            lemma_lex_cons_assoc(seq![TokenV::Whitespace], t_rest, tail);
            lemma_lex_cons_assoc(seq![TokenV::Comma], seq![TokenV::Whitespace] + t_rest, tail);
            let t_sep = seq![TokenV::Comma] + (seq![TokenV::Whitespace] + t_rest);
            lemma_lex_cons_assoc(tokens_of(v), t_sep, tail);
            lemma_lex_cons_assoc(seq![TokenV::Whitespace], tokens_of(v) + t_sep, tail);
            lemma_lex_cons_assoc(
                seq![TokenV::Colon],
                seq![TokenV::Whitespace] + (tokens_of(v) + t_sep),
                tail,
            );
            lemma_lex_cons_assoc(
                seq![TokenV::String(key)],
                seq![TokenV::Colon] + (seq![TokenV::Whitespace] + (tokens_of(v) + t_sep)),
                tail,
            );
            assert(seq![TokenV::String(key)] + (seq![TokenV::Colon] + (seq![TokenV::Whitespace]
                + (tokens_of(v) + t_sep))) =~= member_tokens(ps, k));
        } else {
            assert(iv + nv == i + nm);
            lemma_lex_render(s, iv, v);
            let tail = lex_from(s, i + nm);
            lemma_lex_cons_assoc(seq![TokenV::Whitespace], tokens_of(v), tail);
            lemma_lex_cons_assoc(seq![TokenV::Colon], seq![TokenV::Whitespace] + tokens_of(v), tail);
            lemma_lex_cons_assoc(
                seq![TokenV::String(key)],
                seq![TokenV::Colon] + (seq![TokenV::Whitespace] + tokens_of(v)),
                tail,
            );
            assert(seq![TokenV::String(key)] + (seq![TokenV::Colon] + (seq![TokenV::Whitespace]
                + tokens_of(v))) =~= member_tokens(ps, k));
        }
    }
}

/// Scanning the rendered elements of an array from element `k` on, with a
/// non-number character directly after them, yields their tokens in order.
pub proof fn lemma_lex_items(s: Seq<char>, i: int, es: Seq<ValueV>, k: int)
    requires
        lexable_items(es, k),
        0 <= k <= es.len(),
        0 <= i,
        i + render_items(es, k).len() <= s.len(),
        s.subrange(i, i + render_items(es, k).len() as int) == render_items(es, k),
        i + render_items(es, k).len() == s.len() || !is_number_char(
            s[i + render_items(es, k).len() as int],
        ),
    ensures
        lex_from(s, i) == lex_cons(
            item_tokens(es, k),
            lex_from(s, i + render_items(es, k).len() as int),
        ),
    decreases es, es.len() - k,
{
    let m = render_items(es, k);
    let nm = m.len() as int;
    if k == es.len() {
        lemma_lex_cons_empty(lex_from(s, i));
    } else {
        let v = es[k];
        let rv = render_value(v);
        let nv = rv.len() as int;
        lemma_subrange_shift(s, i, m, 0, nv);
        assert(m.subrange(0, nv) =~= rv);
        if k + 1 < es.len() {
            lemma_at(s, i, m, nv);
            assert(s[i + nv] == ',');
            assert(!is_number_char(s[i + nv]));
            lemma_lex_render(s, i, v);
            let ic = i + nv;
            assert(scan_token(s, ic) == Scan::Next(TokenV::Comma, ic + 1));
            lemma_lex_step(s, ic);
            lemma_at(s, i, m, nv + 1);
            assert(s[ic + 1] == ' ');
            assert(scan_token(s, ic + 1) == Scan::Next(TokenV::Whitespace, ic + 2));
            lemma_lex_step(s, ic + 1);
            let rest = render_items(es, k + 1);
            lemma_subrange_shift(s, i, m, nv + 2, nm);
            assert(m.subrange(nv + 2, nm) =~= rest);
            lemma_lex_items(s, ic + 2, es, k + 1);
            let tail = lex_from(s, i + nm);
            let t_rest = item_tokens(es, k + 1);
            lemma_lex_cons_assoc(seq![TokenV::Whitespace], t_rest, tail);
            lemma_lex_cons_assoc(seq![TokenV::Comma], seq![TokenV::Whitespace] + t_rest, tail);
            lemma_lex_cons_assoc(
                tokens_of(v),
                seq![TokenV::Comma] + (seq![TokenV::Whitespace] + t_rest),
                tail,
            );
            assert(tokens_of(v) + (seq![TokenV::Comma] + (seq![TokenV::Whitespace] + t_rest))
                =~= item_tokens(es, k));
        } else {
            assert(i + nv == i + nm);
            lemma_lex_render(s, i, v);
            assert(tokens_of(v) =~= item_tokens(es, k));
        }
    }
}

/// Scanning the compact rendering of a parser-producible tree yields exactly
/// its token sequence.
pub proof fn theorem_lex_render(v: ValueV)
    requires
        lexable(v),
    ensures
        lex_from(render_value(v), 0) == Ok::<Seq<TokenV>, LexErrorV>(tokens_of(v)),
{
    let s = render_value(v);
    let n = s.len() as int;
    assert(s.subrange(0, n) =~= s);
    lemma_lex_render(s, 0, v);
    assert(lex_from(s, n) == Ok::<Seq<TokenV>, LexErrorV>(Seq::empty()));
    assert(tokens_of(v) + Seq::<TokenV>::empty() =~= tokens_of(v));
}

/// Round trip: compact-rendering a parser-producible tree and scanning and
/// parsing the text again yields the tree back, equal in structure and in
/// every leaf.
pub proof fn theorem_round_trip(v: ValueV)
    requires
        lexable(v),
        v is Object || v is Array,
    ensures
        lex_from(render_value(v), 0) == Ok::<Seq<TokenV>, LexErrorV>(tokens_of(v)),
        parse_top(tokens_of(v)) == Ok::<ValueV, ParseError>(v),
{
    theorem_lex_render(v);
    theorem_parse_tokens(v);
}

// ------------------------------------------------------------------
// Every tree the parser produces from scanned text is such a tree.
// ------------------------------------------------------------------

/// Whether a token's payload could have come out of the scanner: string
/// payloads hold no quote, number payloads are a digit followed by digits
/// and dots.
pub open spec fn token_clean(t: TokenV) -> bool {
    match t {
        TokenV::String(sv) => forall|x: int| 0 <= x < sv.len() ==> sv[x] != '"',
        TokenV::Number(sv) => sv.len() > 0 && is_digit_char(sv[0]) && (forall|x: int|
            0 <= x < sv.len() ==> is_number_char(sv[x])),
        _ => true,
    }
}

/// Whether every token in a sequence is clean.
pub open spec fn tokens_clean(ts: Seq<TokenV>) -> bool {
    forall|x: int| 0 <= x < ts.len() ==> token_clean(#[trigger] ts[x])
}

/// One scanning step yields a clean token.
pub proof fn lemma_scan_clean(s: Seq<char>, i: int)
    requires
        0 <= i < s.len(),
    ensures
        match scan_token(s, i) {
            Scan::Next(t, j) => token_clean(t),
            Scan::Stop(e) => true,
        },
{
    lemma_quote_end(s, i + 1);
    lemma_number_end(s, i + 1);
    if s[i] == '"' {
        match quote_end(s, i + 1) {
            Some(q) => {
                assert forall|x: int| 0 <= x < q - (i + 1) implies #[trigger] s.subrange(
                    i + 1,
                    q,
                )[x] != '"' by {
                    assert(s.subrange(i + 1, q)[x] == s[i + 1 + x]);
                }
            },
            None => {},
        }
    }
    if is_digit_char(s[i]) {
        let ne = number_end(s, i + 1);
        assert forall|x: int| 0 <= x < ne - i implies is_number_char(s.subrange(i, ne)[x]) by {
            assert(s.subrange(i, ne)[x] == s[i + x]);
        }
    }
}

/// Every token the scanner produces is clean.
pub proof fn lemma_lex_clean(s: Seq<char>, i: int)
    requires
        0 <= i,
    ensures
        match lex_from(s, i) {
            Ok(ts) => tokens_clean(ts),
            Err(e) => true,
        },
    decreases s.len() - i,
{
    if i < s.len() {
        lemma_scan_token(s, i);
        lemma_scan_clean(s, i);
        match scan_token(s, i) {
            Scan::Next(t, j) => {
                lemma_lex_clean(s, j);
                match lex_from(s, j) {
                    Ok(rest) => {
                        assert forall|x: int| 0 <= x < (seq![t] + rest).len() implies token_clean(
                            #[trigger] (seq![t] + rest)[x],
                        ) by {
                            if x > 0 {
                                assert(token_clean(rest[x - 1]));
                            }
                        }
                    },
                    Err(e) => {},
                }
            },
            Scan::Stop(e) => {},
        }
    }
}

/// A clean pair appended to clean pairs leaves them clean.
pub proof fn lemma_members_push(ps: Seq<(Seq<char>, ValueV)>, p: (Seq<char>, ValueV), k: int)
    requires
        0 <= k <= ps.len(),
        lexable_members(ps, k),
        forall|x: int| 0 <= x < p.0.len() ==> p.0[x] != '"',
        lexable(p.1),
    ensures
        lexable_members(ps.push(p), k),
    decreases ps.len() - k,
{
    let q = ps.push(p);
    if k < ps.len() {
        lemma_members_push(ps, p, k + 1);
        assert(q[k] == ps[k]);
        assert forall|t: int| 0 <= t < q[k].0.len() implies #[trigger] q[k].0[t] != '"' by {
            assert(q[k].0[t] == ps[k].0[t]);
        }
        assert(lexable(q[k].1)) by {
            assert(q[k].1 == ps[k].1);
        }
        assert(lexable_members(q, k));
    } else {
        assert(q[k] == p);
        assert forall|t: int| 0 <= t < q[k].0.len() implies #[trigger] q[k].0[t] != '"' by {
            assert(q[k].0[t] == p.0[t]);
        }
        assert(lexable(q[k].1)) by {
            assert(q[k].1 == p.1);
        }
        assert(q.len() == ps.len() + 1);
        assert(lexable_members(q, k + 1));
        assert(lexable_members(q, k));
    }
}

/// A clean element appended to clean elements leaves them clean.
pub proof fn lemma_items_push(es: Seq<ValueV>, p: ValueV, k: int)
    requires
        0 <= k <= es.len(),
        lexable_items(es, k),
        lexable(p),
    ensures
        lexable_items(es.push(p), k),
    decreases es.len() - k,
{
    let q = es.push(p);
    if k < es.len() {
        lemma_items_push(es, p, k + 1);
        assert(q[k] == es[k]);
        assert(lexable_items(q, k));
    } else {
        assert(q[k] == p);
        assert(q.len() == es.len() + 1);
        assert(lexable_items(q, k + 1));
        assert(lexable_items(q, k));
    }
}

/// A value parsed from clean tokens is a tree the lexer could have written.
pub proof fn lemma_parse_value_clean(ts: Seq<TokenV>, i: int)
    requires
        tokens_clean(ts),
        0 <= i <= ts.len(),
    ensures
        match parse_value_at(ts, i) {
            ParseStep::Parsed(v, j) => lexable(v) && i < j <= ts.len(),
            ParseStep::Failed(e) => true,
        },
    decreases ts.len() - i, 0int,
{
    lemma_ws_end(ts, i);
    let j = ws_end(ts, i);
    if j < ts.len() {
        match ts[j] {
            TokenV::LeftBrace => {
                lemma_parse_object_clean(ts, j + 1, Seq::empty());
            },
            TokenV::LeftBracket => {
                lemma_parse_array_clean(ts, j + 1, Seq::empty());
            },
            _ => {
                assert(token_clean(ts[j]));
            },
        }
    }
}

/// An object parsed from clean tokens, extending clean pairs, is clean.
pub proof fn lemma_parse_object_clean(ts: Seq<TokenV>, i: int, acc: Seq<(Seq<char>, ValueV)>)
    requires
        tokens_clean(ts),
        0 <= i <= ts.len(),
        lexable_members(acc, 0),
    ensures
        match parse_object_at(ts, i, acc) {
            ParseStep::Parsed(v, j) => lexable(v) && (v is Object) && i < j <= ts.len(),
            ParseStep::Failed(e) => true,
        },
    decreases ts.len() - i, 1int,
{
    lemma_ws_end(ts, i);
    let j = ws_end(ts, i);
    if j < ts.len() {
        match ts[j] {
            TokenV::RightBrace => {},
            TokenV::String(k) => {
                assert(token_clean(ts[j]));
                let j2 = ws_end(ts, j + 1);
                lemma_ws_end(ts, j + 1);
                if j2 < ts.len() && ts[j2] is Colon {
                    lemma_parse_value_clean(ts, j2 + 1);
                    match parse_value_at(ts, j2 + 1) {
                        ParseStep::Failed(e) => {},
                        ParseStep::Parsed(v, jr) => {
                            lemma_members_push(acc, (k, v), 0);
                            let j4 = ws_end(ts, jr);
                            lemma_ws_end(ts, jr);
                            if j4 < ts.len() && ts[j4] is Comma {
                                let j5 = ws_end(ts, j4 + 1);
                                lemma_ws_end(ts, j4 + 1);
                                if !(j5 < ts.len() && ts[j5] is RightBrace) {
                                    lemma_parse_object_clean(ts, j5, acc.push((k, v)));
                                }
                            }
                        },
                    }
                }
            },
            _ => {},
        }
    }
}

/// An array parsed from clean tokens, extending clean elements, is clean.
pub proof fn lemma_parse_array_clean(ts: Seq<TokenV>, i: int, acc: Seq<ValueV>)
    requires
        tokens_clean(ts),
        0 <= i <= ts.len(),
        lexable_items(acc, 0),
    ensures
        match parse_array_at(ts, i, acc) {
            ParseStep::Parsed(v, j) => lexable(v) && (v is Array) && i < j <= ts.len(),
            ParseStep::Failed(e) => true,
        },
    decreases ts.len() - i, 2int,
{
    lemma_ws_end(ts, i);
    let j = ws_end(ts, i);
    if j < ts.len() && !(ts[j] is RightBracket) {
        lemma_parse_value_clean(ts, j);
        match parse_value_at(ts, j) {
            ParseStep::Failed(e) => {},
            ParseStep::Parsed(v, jr) => {
                lemma_items_push(acc, v, 0);
                let j3 = ws_end(ts, jr);
                lemma_ws_end(ts, jr);
                if j3 < ts.len() && ts[j3] is Comma {
                    let j4 = ws_end(ts, j3 + 1);
                    lemma_ws_end(ts, j3 + 1);
                    if !(j4 < ts.len() && ts[j4] is RightBracket) {
                        lemma_parse_array_clean(ts, j4, acc.push(v));
                    }
                } else if !(j3 < ts.len() && ts[j3] is RightBracket) {
                    lemma_parse_array_clean(ts, j3, acc.push(v));
                }
            },
        }
    }
}

/// A document parsed from clean tokens is a container the lexer could have
/// written.
pub proof fn lemma_parse_top_clean(ts: Seq<TokenV>)
    requires
        tokens_clean(ts),
    ensures
        match parse_top(ts) {
            Ok(v) => lexable(v) && (v is Object || v is Array),
            Err(e) => true,
        },
{
    lemma_ws_end(ts, 0);
    let j = ws_end(ts, 0);
    if j < ts.len() && ts[j] is LeftBrace {
        lemma_parse_object_clean(ts, j + 1, Seq::empty());
    } else if j < ts.len() && ts[j] is LeftBracket {
        lemma_parse_array_clean(ts, j + 1, Seq::empty());
    }
}

/// Round trip for any tree the parser produced: the tree parsed out of any
/// scanned text compact-renders to text that scans and re-parses to a tree
/// equal in structure and in every leaf.
pub proof fn theorem_parsed_tree_round_trip(text: Seq<char>, ts: Seq<TokenV>, v: ValueV)
    requires
        lex_from(text, 0) == Ok::<Seq<TokenV>, LexErrorV>(ts),
        parse_top(ts) == Ok::<ValueV, ParseError>(v),
    ensures
        lex_from(render_value(v), 0) == Ok::<Seq<TokenV>, LexErrorV>(tokens_of(v)),
        parse_top(tokens_of(v)) == Ok::<ValueV, ParseError>(v),
{
    lemma_lex_clean(text, 0);
    lemma_parse_top_clean(ts);
    theorem_round_trip(v);
}

// ------------------------------------------------------------------
// Whitespace insensitivity: whitespace tokens never change the tree.
// ------------------------------------------------------------------

/// The token sequence from index `i` on with its whitespace tokens removed.
pub open spec fn strip_from(ts: Seq<TokenV>, i: int) -> Seq<TokenV>
    decreases ts.len() - i,
{
    if 0 <= i < ts.len() {
        if ts[i] is Whitespace {
            strip_from(ts, i + 1)
        } else {
            seq![ts[i]] + strip_from(ts, i + 1)
        }
    } else {
        Seq::empty()
    }
}

/// The token sequence with its whitespace tokens removed.
pub open spec fn strip(ts: Seq<TokenV>) -> Seq<TokenV> {
    strip_from(ts, 0)
}

/// Skipping whitespace does not change the stripped suffix.
pub proof fn lemma_strip_ws(ts: Seq<TokenV>, i: int)
    requires
        0 <= i <= ts.len(),
    ensures
        strip_from(ts, ws_end(ts, i)) == strip_from(ts, i),
    decreases ts.len() - i,
{
    lemma_ws_end(ts, i);
    if i < ts.len() && ts[i] is Whitespace {
        lemma_strip_ws(ts, i + 1);
        lemma_ws_end(ts, i + 1);
    }
}

/// Reading the head of a suffix equality: the cursor sits on the same token
/// and the tails keep matching.
pub proof fn lemma_suffix_head(us: Seq<TokenV>, p: int, h: TokenV, rest: Seq<TokenV>)
    requires
        0 <= p <= us.len(),
        us.skip(p) == seq![h] + rest,
    ensures
        p < us.len(),
        us[p] == h,
        us.skip(p + 1) == rest,
{
    assert(us.skip(p).len() == us.len() - p);
    assert(us.skip(p).len() == 1 + rest.len());
    assert(p < us.len());
    assert(us.subrange(p, us.len() as int)[0] == us[p]);
    assert(us.subrange(p, us.len() as int)[0] == (seq![h] + rest)[0]);
    assert forall|x: int| 0 <= x < rest.len() implies us.skip(p + 1)[x] == rest[x] by {
        assert(us.skip(p + 1)[x] == us[p + 1 + x]);
        assert(us.skip(p)[1 + x] == us[p + 1 + x]);
        assert(us.skip(p)[1 + x] == (seq![h] + rest)[1 + x]);
    }
    assert(us.skip(p + 1) =~= rest);
}

/// Parsing one value sees only the non-whitespace tokens: any two cursors
/// whose stripped suffixes agree yield the same outcome.
pub proof fn lemma_strip_value(ts: Seq<TokenV>, i: int, us: Seq<TokenV>, p: int)
    requires
        0 <= i <= ts.len(),
        0 <= p <= us.len(),
        us.skip(p) == strip_from(ts, i),
    ensures
        match parse_value_at(ts, i) {
            ParseStep::Parsed(v, j) => i < j <= ts.len() && exists|q: int|
                {
                    &&& #[trigger] parse_value_at(us, p) == ParseStep::Parsed(v, q)
                    &&& p < q <= us.len()
                    &&& us.skip(q) == strip_from(ts, j)
                },
            ParseStep::Failed(e) => parse_value_at(us, p) == ParseStep::Failed(e),
        },
    decreases ts.len() - i, 0int,
{
    lemma_ws_end(ts, i);
    lemma_strip_ws(ts, i);
    let j = ws_end(ts, i);
    if j >= ts.len() {
        assert(us.skip(p) =~= Seq::<TokenV>::empty());
        assert(p >= us.len());
        lemma_ws_end(us, p);
    } else {
        lemma_suffix_head(us, p, ts[j], strip_from(ts, j + 1));
        lemma_ws_end(us, p);
        assert(ws_end(us, p) == p);
        match ts[j] {
            TokenV::LeftBrace => {
                lemma_strip_object(ts, j + 1, us, p + 1, Seq::empty());
            },
            TokenV::LeftBracket => {
                lemma_strip_array(ts, j + 1, us, p + 1, Seq::empty());
            },
            _ => {},
        }
    }
}

/// Parsing an object body sees only the non-whitespace tokens.
pub proof fn lemma_strip_object(
    ts: Seq<TokenV>,
    i: int,
    us: Seq<TokenV>,
    p: int,
    acc: Seq<(Seq<char>, ValueV)>,
)
    requires
        0 <= i <= ts.len(),
        0 <= p <= us.len(),
        us.skip(p) == strip_from(ts, i),
    ensures
        match parse_object_at(ts, i, acc) {
            ParseStep::Parsed(v, j) => i < j <= ts.len() && exists|q: int|
                {
                    &&& #[trigger] parse_object_at(us, p, acc) == ParseStep::Parsed(v, q)
                    &&& p < q <= us.len()
                    &&& us.skip(q) == strip_from(ts, j)
                },
            ParseStep::Failed(e) => parse_object_at(us, p, acc) == ParseStep::Failed(e),
        },
    decreases ts.len() - i, 1int,
{
    lemma_ws_end(ts, i);
    lemma_strip_ws(ts, i);
    let j = ws_end(ts, i);
    if j >= ts.len() {
        assert(us.skip(p) =~= Seq::<TokenV>::empty());
        assert(p >= us.len());
        lemma_ws_end(us, p);
    } else {
        lemma_suffix_head(us, p, ts[j], strip_from(ts, j + 1));
        lemma_ws_end(us, p);
        assert(ws_end(us, p) == p);
        match ts[j] {
            TokenV::RightBrace => {},
            TokenV::String(k) => {
                let j2 = ws_end(ts, j + 1);
                lemma_ws_end(ts, j + 1);
                lemma_strip_ws(ts, j + 1);
                if j2 >= ts.len() {
                    assert(us.skip(p + 1) =~= Seq::<TokenV>::empty());
                    assert(p + 1 >= us.len());
                    lemma_ws_end(us, p + 1);
                } else {
                    lemma_suffix_head(us, p + 1, ts[j2], strip_from(ts, j2 + 1));
                    lemma_ws_end(us, p + 1);
                    assert(ws_end(us, p + 1) == p + 1);
                    if !(ts[j2] is Colon) {
                    } else {
                        lemma_strip_value(ts, j2 + 1, us, p + 2);
                        match parse_value_at(ts, j2 + 1) {
                            ParseStep::Failed(e) => {},
                            ParseStep::Parsed(v, jr) => {
                                let q = choose|q: int|
                                    {
                                        &&& #[trigger] parse_value_at(us, p + 2)
                                            == ParseStep::Parsed(v, q)
                                        &&& p + 2 < q <= us.len()
                                        &&& us.skip(q) == strip_from(ts, jr)
                                    };
                                let j4 = ws_end(ts, jr);
                                lemma_ws_end(ts, jr);
                                lemma_strip_ws(ts, jr);
                                if j4 >= ts.len() {
                                    assert(us.skip(q) =~= Seq::<TokenV>::empty());
                                    assert(q >= us.len());
                                    lemma_ws_end(us, q);
                                } else {
                                    lemma_suffix_head(us, q, ts[j4], strip_from(ts, j4 + 1));
                                    lemma_ws_end(us, q);
                                    assert(ws_end(us, q) == q);
                                    if ts[j4] is Comma {
                                        let j5 = ws_end(ts, j4 + 1);
                                        lemma_ws_end(ts, j4 + 1);
                                        lemma_strip_ws(ts, j4 + 1);
                                        if j5 >= ts.len() {
                                            assert(us.skip(q + 1) =~= Seq::<TokenV>::empty());
                                            assert(q + 1 >= us.len());
                                            lemma_ws_end(us, q + 1);
                                            lemma_strip_object(ts, j5, us, q + 1, acc.push((k, v)));
                                        } else {
                                            lemma_suffix_head(
                                                us,
                                                q + 1,
                                                ts[j5],
                                                strip_from(ts, j5 + 1),
                                            );
                                            lemma_ws_end(us, q + 1);
                                            assert(ws_end(us, q + 1) == q + 1);
                                            if !(ts[j5] is RightBrace) {
                                                lemma_strip_object(
                                                    ts,
                                                    j5,
                                                    us,
                                                    q + 1,
                                                    acc.push((k, v)),
                                                );
                                            }
                                        }
                                    }
                                }
                            },
                        }
                    }
                }
            },
            _ => {},
        }
    }
}

/// Parsing an array body sees only the non-whitespace tokens.
pub proof fn lemma_strip_array(
    ts: Seq<TokenV>,
    i: int,
    us: Seq<TokenV>,
    p: int,
    acc: Seq<ValueV>,
)
    requires
        0 <= i <= ts.len(),
        0 <= p <= us.len(),
        us.skip(p) == strip_from(ts, i),
    ensures
        match parse_array_at(ts, i, acc) {
            ParseStep::Parsed(v, j) => i < j <= ts.len() && exists|q: int|
                {
                    &&& #[trigger] parse_array_at(us, p, acc) == ParseStep::Parsed(v, q)
                    &&& p < q <= us.len()
                    &&& us.skip(q) == strip_from(ts, j)
                },
            ParseStep::Failed(e) => parse_array_at(us, p, acc) == ParseStep::Failed(e),
        },
    decreases ts.len() - i, 2int,
{
    lemma_ws_end(ts, i);
    lemma_strip_ws(ts, i);
    let j = ws_end(ts, i);
    if j >= ts.len() {
        assert(us.skip(p) =~= Seq::<TokenV>::empty());
        assert(p >= us.len());
        lemma_ws_end(us, p);
    } else {
        lemma_suffix_head(us, p, ts[j], strip_from(ts, j + 1));
        lemma_ws_end(us, p);
        assert(ws_end(us, p) == p);
        if ts[j] is RightBracket {
        } else {
            lemma_strip_value(ts, j, us, p);
            match parse_value_at(ts, j) {
                ParseStep::Failed(e) => {},
                ParseStep::Parsed(v, jr) => {
                    let q = choose|q: int|
                        {
                            &&& #[trigger] parse_value_at(us, p) == ParseStep::Parsed(v, q)
                            &&& p < q <= us.len()
                            &&& us.skip(q) == strip_from(ts, jr)
                        };
                    let j3 = ws_end(ts, jr);
                    lemma_ws_end(ts, jr);
                    lemma_strip_ws(ts, jr);
                    if j3 >= ts.len() {
                        assert(us.skip(q) =~= Seq::<TokenV>::empty());
                        assert(q >= us.len());
                        lemma_ws_end(us, q);
                        lemma_strip_array(ts, j3, us, q, acc.push(v));
                    } else {
                        lemma_suffix_head(us, q, ts[j3], strip_from(ts, j3 + 1));
                        lemma_ws_end(us, q);
                        assert(ws_end(us, q) == q);
                        if ts[j3] is Comma {
                            let j4 = ws_end(ts, j3 + 1);
                            lemma_ws_end(ts, j3 + 1);
                            lemma_strip_ws(ts, j3 + 1);
                            if j4 >= ts.len() {
                                assert(us.skip(q + 1) =~= Seq::<TokenV>::empty());
                                assert(q + 1 >= us.len());
                                lemma_ws_end(us, q + 1);
                                lemma_strip_array(ts, j4, us, q + 1, acc.push(v));
                            } else {
                                lemma_suffix_head(us, q + 1, ts[j4], strip_from(ts, j4 + 1));
                                lemma_ws_end(us, q + 1);
                                assert(ws_end(us, q + 1) == q + 1);
                                if !(ts[j4] is RightBracket) {
                                    lemma_strip_array(ts, j4, us, q + 1, acc.push(v));
                                }
                            }
                        } else if ts[j3] is RightBracket {
                        } else {
                            lemma_strip_array(ts, j3, us, q, acc.push(v));
                        }
                    }
                },
            }
        }
    }
}

/// Whitespace insensitivity: two inputs whose token sequences differ only in
/// whitespace tokens parse to the same tree or fail with the same error.
pub proof fn theorem_whitespace_insensitive(ts: Seq<TokenV>, us: Seq<TokenV>)
    requires
        strip(ts) == strip(us),
    ensures
        parse_top(ts) == parse_top(us),
{
    lemma_strip_top(ts);
    lemma_strip_top(us);
}

/// Parsing a document sees only the non-whitespace tokens.
pub proof fn lemma_strip_top(ts: Seq<TokenV>)
    ensures
        parse_top(ts) == parse_top(strip(ts)),
{
    let us = strip(ts);
    assert(us.skip(0) =~= strip_from(ts, 0));
    lemma_ws_end(ts, 0);
    lemma_strip_ws(ts, 0);
    let j = ws_end(ts, 0);
    if j >= ts.len() {
        assert(us.skip(0) =~= Seq::<TokenV>::empty());
        assert(us.len() == 0);
        lemma_ws_end(us, 0);
    } else {
        lemma_suffix_head(us, 0, ts[j], strip_from(ts, j + 1));
        lemma_ws_end(us, 0);
        assert(ws_end(us, 0) == 0);
        if ts[j] is LeftBrace {
            lemma_strip_object(ts, j + 1, us, 1, Seq::empty());
        } else if ts[j] is LeftBracket {
            lemma_strip_array(ts, j + 1, us, 1, Seq::empty());
        }
    }
}

} // verus!
