use vstd::prelude::*;
use crate::chars::{push_char, true_chars, false_chars, null_chars};
use crate::value::{JsonValue, ValueV, value_view, members_view_from, items_view_from,
    lemma_members_view, lemma_items_view};

verus! {

// ------------------------------------------------------------------
// Compact rendering: minified JSON-like text.
// ------------------------------------------------------------------

/// The compact text of a tree: objects as `{"k": v, "k2": v2}`, arrays as
/// `[v, v2]`, strings quoted verbatim, numbers as their raw numeral text.
pub open spec fn render_value(v: ValueV) -> Seq<char>
    decreases v, 0int,
{
    match v {
        ValueV::Object(ps) => seq!['{'] + render_members(ps, 0) + seq!['}'],
        ValueV::Array(es) => seq!['['] + render_items(es, 0) + seq![']'],
        ValueV::String(s) => seq!['"'] + s + seq!['"'],
        ValueV::Number(s) => s,
        ValueV::Boolean(b) => if b {
            true_chars()
        } else {
            false_chars()
        },
        ValueV::Null => null_chars(),
    }
}

/// The compact text of an object's pairs from index `k` on, with `", "`
/// between siblings and no trailing comma.
pub open spec fn render_members(ps: Seq<(Seq<char>, ValueV)>, k: int) -> Seq<char>
    decreases ps, ps.len() - k,
{
    if 0 <= k < ps.len() {
        let head = seq!['"'] + ps[k].0 + seq!['"', ':', ' '] + render_value(ps[k].1);
        if k + 1 < ps.len() {
            head + seq![',', ' '] + render_members(ps, k + 1)
        } else {
            head
        }
    } else {
        Seq::empty()
    }
}

/// The compact text of an array's elements from index `k` on.
pub open spec fn render_items(es: Seq<ValueV>, k: int) -> Seq<char>
    decreases es, es.len() - k,
{
    if 0 <= k < es.len() {
        if k + 1 < es.len() {
            render_value(es[k]) + seq![',', ' '] + render_items(es, k + 1)
        } else {
            render_value(es[k])
        }
    } else {
        Seq::empty()
    }
}

impl JsonValue {
    /// Appends the compact rendering of this value to `out`.
    #[verifier::loop_isolation(false)]
    fn write_compact(&self, out: &mut String)
        ensures
            final(out)@ == old(out)@ + render_value(self@),
        decreases *self,
    {
        match self {
            JsonValue::JsonObject(ps) => {
                let ghost psv = members_view_from(ps@, 0);
                proof {
                    lemma_members_view(ps@, 0);
                }
                push_char(out, '{');
                let ghost base = out@;
                let mut i: usize = 0;
                while i < ps.len()
                    invariant
                        0 <= i <= ps.len(),
                        psv == members_view_from(ps@, 0),
                        psv.len() == ps@.len(),
                        forall|j: int|
                            0 <= j < ps@.len() ==> psv[j] == (ps@[j].0@, value_view(*ps@[j].1)),
                        out@ + render_members(psv, i as int) == base + render_members(psv, 0),
                    decreases ps.len() - i,
                {
                    push_char(out, '"');
                    let key: &String = &ps[i].0;
                    out.append(key.as_str());
                    push_char(out, '"');
                    push_char(out, ':');
                    push_char(out, ' ');
                    let ghost before_val = out@;
                    proof {
                        assert(*self == JsonValue::JsonObject(*ps));
                        assert(decreases_to!(*self => *ps));
                        assert(decreases_to!(*ps => ps@));
                        assert(decreases_to!(ps@ => ps@[i as int]));
                    }
                    ps[i].1.write_compact(out);
                    proof {
                        assert(out@ =~= before_val + render_value(psv[i as int].1));
                    }
                    if i + 1 < ps.len() {
                        push_char(out, ',');
                        push_char(out, ' ');
                    }
                    proof {
                        let head = seq!['"'] + psv[i as int].0 + seq!['"', ':', ' ']
                            + render_value(psv[i as int].1);
                        if i + 1 < ps.len() {
                            assert(render_members(psv, i as int) == head + seq![',', ' ']
                                + render_members(psv, i as int + 1));
                            assert(out@ + render_members(psv, i as int + 1) =~= base
                                + render_members(psv, 0));
                        } else {
                            assert(render_members(psv, i as int) == head);
                            assert(render_members(psv, i as int + 1) =~= Seq::<char>::empty());
                            assert(out@ + render_members(psv, i as int + 1) =~= base
                                + render_members(psv, 0));
                        }
                    }
                    i = i + 1;
                }
                push_char(out, '}');
                proof {
                    assert(render_members(psv, ps@.len() as int) =~= Seq::<char>::empty());
                    assert(out@ =~= old(out)@ + (seq!['{'] + render_members(psv, 0)
                        + seq!['}']));
                }
            },
            JsonValue::JsonArray(es) => {
                let ghost esv = items_view_from(es@, 0);
                proof {
                    lemma_items_view(es@, 0);
                }
                push_char(out, '[');
                let ghost base = out@;
                let mut i: usize = 0;
                while i < es.len()
                    invariant
                        0 <= i <= es.len(),
                        esv == items_view_from(es@, 0),
                        esv.len() == es@.len(),
                        forall|j: int| 0 <= j < es@.len() ==> esv[j] == value_view(*es@[j]),
                        out@ + render_items(esv, i as int) == base + render_items(esv, 0),
                    decreases es.len() - i,
                {
                    proof {
                        assert(*self == JsonValue::JsonArray(*es));
                        assert(decreases_to!(*self => *es));
                        assert(decreases_to!(*es => es@));
                        assert(decreases_to!(es@ => es@[i as int]));
                    }
                    es[i].write_compact(out);
                    if i + 1 < es.len() {
                        push_char(out, ',');
                        push_char(out, ' ');
                    }
                    proof {
                        if i + 1 < es.len() {
                            assert(render_items(esv, i as int) == render_value(esv[i as int])
                                + seq![',', ' '] + render_items(esv, i as int + 1));
                            assert(out@ + render_items(esv, i as int + 1) =~= base
                                + render_items(esv, 0));
                        } else {
                            assert(render_items(esv, i as int) == render_value(esv[i as int]));
                            assert(render_items(esv, i as int + 1) =~= Seq::<char>::empty());
                            assert(out@ + render_items(esv, i as int + 1) =~= base
                                + render_items(esv, 0));
                        }
                    }
                    i = i + 1;
                }
                push_char(out, ']');
                proof {
                    assert(render_items(esv, es@.len() as int) =~= Seq::<char>::empty());
                    assert(out@ =~= old(out)@ + (seq!['['] + render_items(esv, 0) + seq![']']));
                }
            },
            JsonValue::String(s) => {
                push_char(out, '"');
                out.append(s.as_str());
                push_char(out, '"');
                proof {
                    assert(out@ =~= old(out)@ + (seq!['"'] + s@ + seq!['"']));
                }
            },
            JsonValue::Number(s) => {
                out.append(s.as_str());
            },
            JsonValue::Boolean(b) => {
                if *b {
                    out.append("true");
                    proof {
                        reveal_strlit("true");
                        assert(out@ =~= old(out)@ + true_chars());
                    }
                } else {
                    out.append("false");
                    proof {
                        reveal_strlit("false");
                        assert(out@ =~= old(out)@ + false_chars());
                    }
                }
            },
            JsonValue::Null => {
                out.append("null");
                proof {
                    reveal_strlit("null");
                    assert(out@ =~= old(out)@ + null_chars());
                }
            },
        }
    }

    /// Renders this tree as minified JSON-like text.
    pub fn render_compact(&self) -> (r: String)
        ensures
            r@ == render_value(self@),
    {
        let mut out = String::new();
        self.write_compact(&mut out);
        proof {
            assert(out@ =~= render_value(self@));
        }
        out
    }
}

// ------------------------------------------------------------------
// Structural (indented) rendering.
// ------------------------------------------------------------------

/// `n` spaces of indentation.
pub open spec fn spaces(n: int) -> Seq<char>
    decreases n,
{
    if n <= 0 {
        Seq::empty()
    } else {
        spaces(n - 1).push(' ')
    }
}

/// The decimal digit character for `d` (clamped into the digit range).
pub open spec fn digit_char(d: int) -> char {
    if d <= 0 {
        '0'
    } else if d == 1 {
        '1'
    } else if d == 2 {
        '2'
    } else if d == 3 {
        '3'
    } else if d == 4 {
        '4'
    } else if d == 5 {
        '5'
    } else if d == 6 {
        '6'
    } else if d == 7 {
        '7'
    } else if d == 8 {
        '8'
    } else {
        '9'
    }
}

/// The decimal numeral of `n`; a single digit for values under ten.
pub open spec fn dec_chars(n: int) -> Seq<char>
    decreases n,
{
    if n < 10 {
        seq![digit_char(n)]
    } else {
        dec_chars(n / 10).push(digit_char(n % 10))
    }
}

/// Nesting height of a tree: leaves are zero, containers one above their
/// tallest child.
pub open spec fn vheight(v: ValueV) -> int
    decreases v, 0int,
{
    match v {
        ValueV::Object(ps) => 1 + members_height(ps, 0),
        ValueV::Array(es) => 1 + items_height(es, 0),
        _ => 0,
    }
}

/// The tallest height among an object's member values from index `k` on.
pub open spec fn members_height(ps: Seq<(Seq<char>, ValueV)>, k: int) -> int
    decreases ps, ps.len() - k,
{
    if 0 <= k < ps.len() {
        let h = vheight(ps[k].1);
        let r = members_height(ps, k + 1);
        if h > r {
            h
        } else {
            r
        }
    } else {
        0
    }
}

/// The tallest height among an array's elements from index `k` on.
pub open spec fn items_height(es: Seq<ValueV>, k: int) -> int
    decreases es, es.len() - k,
{
    if 0 <= k < es.len() {
        let h = vheight(es[k]);
        let r = items_height(es, k + 1);
        if h > r {
            h
        } else {
            r
        }
    } else {
        0
    }
}

/// Member height is nonnegative and bounds every member value's height.
pub proof fn lemma_members_height(ps: Seq<(Seq<char>, ValueV)>, k: int)
    requires
        0 <= k <= ps.len(),
    ensures
        members_height(ps, k) >= 0,
        forall|i: int| k <= i < ps.len() ==> vheight(#[trigger] ps[i].1) <= members_height(ps, k),
    decreases ps.len() - k,
{
    if k < ps.len() {
        lemma_members_height(ps, k + 1);
    }
}

/// Item height is nonnegative and bounds every element's height.
pub proof fn lemma_items_height(es: Seq<ValueV>, k: int)
    requires
        0 <= k <= es.len(),
    ensures
        items_height(es, k) >= 0,
        forall|i: int| k <= i < es.len() ==> vheight(#[trigger] es[i]) <= items_height(es, k),
    decreases es.len() - k,
{
    if k < es.len() {
        lemma_items_height(es, k + 1);
    }
}

/// The indented structural dump of a tree at indentation `d`: containers
/// print their element count and a bracketed delimiter line, leaves print
/// their kind name and value, one entry per line.
pub open spec fn ast_render(v: ValueV, d: int) -> Seq<char>
    decreases v, 0int,
{
    match v {
        ValueV::Object(ps) => spaces(d) + "JsonObject of size "@ + dec_chars(ps.len() as int)
            + " {\n"@ + ast_members(ps, d, 0) + spaces(d) + "}\n"@,
        ValueV::Array(es) => spaces(d) + "JsonArray of size "@ + dec_chars(es.len() as int)
            + " [\n"@ + ast_items(es, d, 0) + spaces(d) + "]\n"@,
        ValueV::String(s) => spaces(d) + "String: \""@ + s + "\"\n"@,
        ValueV::Number(s) => spaces(d) + "Number: "@ + s + "\n"@,
        ValueV::Boolean(b) => spaces(d) + "Boolean: "@ + (if b {
            "true\n"@
        } else {
            "false\n"@
        }),
        ValueV::Null => spaces(d) + "Null\n"@,
    }
}

/// The dump lines of an object's pairs from index `k` on.
pub open spec fn ast_members(ps: Seq<(Seq<char>, ValueV)>, d: int, k: int) -> Seq<char>
    decreases ps, ps.len() - k,
{
    if 0 <= k < ps.len() {
        spaces(d + 2) + "Key: "@ + ps[k].0 + ", Value: "@ + ast_render(ps[k].1, d + 4)
            + ast_members(ps, d, k + 1)
    } else {
        Seq::empty()
    }
}

/// The dump lines of an array's elements from index `k` on.
pub open spec fn ast_items(es: Seq<ValueV>, d: int, k: int) -> Seq<char>
    decreases es, es.len() - k,
{
    if 0 <= k < es.len() {
        spaces(d + 2) + ast_render(es[k], d + 2) + ast_items(es, d, k + 1)
    } else {
        Seq::empty()
    }
}

/// Appends `n` spaces to `out`.
#[verifier::loop_isolation(false)]
fn append_spaces(out: &mut String, n: usize)
    ensures
        final(out)@ == old(out)@ + spaces(n as int),
{
    let mut j: usize = 0;
    while j < n
        invariant
            0 <= j <= n,
            out@ == old(out)@ + spaces(j as int),
        decreases n - j,
    {
        push_char(out, ' ');
        proof {
            assert(out@ =~= old(out)@ + spaces(j as int + 1));
        }
        j = j + 1;
    }
}

/// The decimal digit character for `d`.
fn digit_of(d: usize) -> (c: char)
    requires
        d < 10,
    ensures
        c == digit_char(d as int),
{
    if d == 0 {
        '0'
    } else if d == 1 {
        '1'
    } else if d == 2 {
        '2'
    } else if d == 3 {
        '3'
    } else if d == 4 {
        '4'
    } else if d == 5 {
        '5'
    } else if d == 6 {
        '6'
    } else if d == 7 {
        '7'
    } else if d == 8 {
        '8'
    } else {
        '9'
    }
}

/// Appends the decimal numeral of `n` to `out`.
fn append_dec(out: &mut String, n: usize)
    ensures
        final(out)@ == old(out)@ + dec_chars(n as int),
    decreases n,
{
    if n < 10 {
        let c = digit_of(n);
        push_char(out, c);
        proof {
            assert(out@ =~= old(out)@ + dec_chars(n as int));
        }
    } else {
        append_dec(out, n / 10);
        let c = digit_of(n % 10);
        push_char(out, c);
        proof {
            assert(out@ =~= old(out)@ + dec_chars(n as int));
        }
    }
}

/// Structural (indented) rendering: a human-readable dump, one entry per
/// line, indentation growing with nesting depth.
pub trait AstDisplay {
    /// Whether a dump from this starting indentation stays within machine
    /// index bounds.
    spec fn ast_fits(&self, depth: int) -> bool;

    /// The text the dump produces.
    spec fn ast_text(&self, depth: int) -> Seq<char>;

    /// Renders the indented dump, starting `depth` spaces in.
    fn ast_fmt(&self, depth: usize) -> (r: String)
        requires
            self.ast_fits(depth as int),
        ensures
            r@ == self.ast_text(depth as int),
    ;
}

impl AstDisplay for JsonValue {
    open spec fn ast_fits(&self, depth: int) -> bool {
        depth + 4 * vheight(self@) <= usize::MAX as int
    }

    open spec fn ast_text(&self, depth: int) -> Seq<char> {
        ast_render(self@, depth)
    }

    #[verifier::loop_isolation(false)]
    fn ast_fmt(&self, depth: usize) -> (r: String)
        decreases *self,
    {
        let mut out = String::new();
        match self {
            JsonValue::JsonObject(ps) => {
                let ghost psv = members_view_from(ps@, 0);
                proof {
                    lemma_members_view(ps@, 0);
                    lemma_members_height(psv, 0);
                }
                append_spaces(&mut out, depth);
                out.append("JsonObject of size ");
                append_dec(&mut out, ps.len());
                out.append(" {\n");
                let ghost base = out@;
                let mut i: usize = 0;
                while i < ps.len()
                    invariant
                        0 <= i <= ps.len(),
                        out@ + ast_members(psv, depth as int, i as int) == base + ast_members(
                            psv,
                            depth as int,
                            0,
                        ),
                    decreases ps.len() - i,
                {
                    append_spaces(&mut out, depth + 2);
                    out.append("Key: ");
                    let key: &String = &ps[i].0;
                    out.append(key.as_str());
                    out.append(", Value: ");
                    proof {
                        assert(*self == JsonValue::JsonObject(*ps));
                        assert(decreases_to!(*self => *ps));
                        assert(decreases_to!(*ps => ps@));
                        assert(decreases_to!(ps@ => ps@[i as int]));
                        assert(vheight(psv[i as int].1) <= members_height(psv, 0));
                    }
                    let sub = ps[i].1.ast_fmt(depth + 4);
                    out.append(sub.as_str());
                    proof {
                        assert(ast_members(psv, depth as int, i as int) == spaces(
                            depth as int + 2,
                        ) + "Key: "@ + psv[i as int].0 + ", Value: "@ + ast_render(
                            psv[i as int].1,
                            depth as int + 4,
                        ) + ast_members(psv, depth as int, i as int + 1));
                        assert(out@ + ast_members(psv, depth as int, i as int + 1) =~= base
                            + ast_members(psv, depth as int, 0));
                    }
                    i = i + 1;
                }
                append_spaces(&mut out, depth);
                out.append("}\n");
                proof {
                    assert(ast_members(psv, depth as int, ps@.len() as int) =~= Seq::<
                        char,
                    >::empty());
                    assert(out@ =~= ast_render(self@, depth as int));
                }
            },
            JsonValue::JsonArray(es) => {
                let ghost esv = items_view_from(es@, 0);
                proof {
                    lemma_items_view(es@, 0);
                    lemma_items_height(esv, 0);
                }
                append_spaces(&mut out, depth);
                out.append("JsonArray of size ");
                append_dec(&mut out, es.len());
                out.append(" [\n");
                let ghost base = out@;
                let mut i: usize = 0;
                while i < es.len()
                    invariant
                        0 <= i <= es.len(),
                        out@ + ast_items(esv, depth as int, i as int) == base + ast_items(
                            esv,
                            depth as int,
                            0,
                        ),
                    decreases es.len() - i,
                {
                    append_spaces(&mut out, depth + 2);
                    proof {
                        assert(*self == JsonValue::JsonArray(*es));
                        assert(decreases_to!(*self => *es));
                        assert(decreases_to!(*es => es@));
                        assert(decreases_to!(es@ => es@[i as int]));
                        assert(vheight(esv[i as int]) <= items_height(esv, 0));
                    }
                    let sub = es[i].ast_fmt(depth + 2);
                    out.append(sub.as_str());
                    proof {
                        assert(ast_items(esv, depth as int, i as int) == spaces(depth as int + 2)
                            + ast_render(esv[i as int], depth as int + 2) + ast_items(
                            esv,
                            depth as int,
                            i as int + 1,
                        ));
                        assert(out@ + ast_items(esv, depth as int, i as int + 1) =~= base
                            + ast_items(esv, depth as int, 0));
                    }
                    i = i + 1;
                }
                append_spaces(&mut out, depth);
                out.append("]\n");
                proof {
                    assert(ast_items(esv, depth as int, es@.len() as int) =~= Seq::<char>::empty());
                    assert(out@ =~= ast_render(self@, depth as int));
                }
            },
            JsonValue::String(s) => {
                append_spaces(&mut out, depth);
                out.append("String: \"");
                out.append(s.as_str());
                out.append("\"\n");
                proof {
                    assert(out@ =~= ast_render(self@, depth as int));
                }
            },
            JsonValue::Number(s) => {
                append_spaces(&mut out, depth);
                out.append("Number: ");
                out.append(s.as_str());
                out.append("\n");
                proof {
                    assert(out@ =~= ast_render(self@, depth as int));
                }
            },
            JsonValue::Boolean(b) => {
                append_spaces(&mut out, depth);
                out.append("Boolean: ");
                if *b {
                    out.append("true\n");
                } else {
                    out.append("false\n");
                }
                proof {
                    assert(out@ =~= ast_render(self@, depth as int));
                }
            },
            JsonValue::Null => {
                append_spaces(&mut out, depth);
                out.append("Null\n");
                proof {
                    assert(out@ =~= ast_render(self@, depth as int));
                }
            },
        }
        out
    }
}

/// Borrows a tree for its structural dump, from indentation zero.
pub struct AstWrapper<'a>(pub &'a JsonValue);

impl<'a> AstWrapper<'a> {
    /// The indented structural dump of the borrowed tree.
    pub fn to_text(&self) -> (r: String)
        requires
            self.0.ast_fits(0),
        ensures
            r@ == ast_render(self.0@, 0),
    {
        self.0.ast_fmt(0)
    }
}

} // verus!
