use vstd::prelude::*;

verus! {

/// One node of the parsed result tree. An object keeps its pairs in insertion
/// order and may hold duplicate keys; every child is owned by its parent.
/// A number keeps the raw numeral text the lexer scanned; turning that text
/// into a machine number is left to unverified callers.
#[derive(Debug)]
pub enum JsonValue {
    JsonObject(Vec<(String, Box<JsonValue>)>),
    JsonArray(Vec<Box<JsonValue>>),
    String(String),
    Number(String),
    Boolean(bool),
    Null,
}

/// The mathematical shape of a tree node: text as character sequences,
/// containers as sequences.
pub enum ValueV {
    Object(Seq<(Seq<char>, ValueV)>),
    Array(Seq<ValueV>),
    String(Seq<char>),
    Number(Seq<char>),
    Boolean(bool),
    Null,
}

/// The tree a stored value stands for.
pub open spec fn value_view(v: JsonValue) -> ValueV
    decreases v, 0int,
{
    match v {
        JsonValue::JsonObject(ps) => ValueV::Object(members_view_from(ps@, 0)),
        JsonValue::JsonArray(es) => ValueV::Array(items_view_from(es@, 0)),
        JsonValue::String(s) => ValueV::String(s@),
        JsonValue::Number(s) => ValueV::Number(s@),
        JsonValue::Boolean(b) => ValueV::Boolean(b),
        JsonValue::Null => ValueV::Null,
    }
}

/// The pair sequence a vector of object members stands for, from index `k` on.
pub open spec fn members_view_from(ps: Seq<(String, Box<JsonValue>)>, k: int) -> Seq<
    (Seq<char>, ValueV),
>
    decreases ps, ps.len() - k,
{
    if 0 <= k < ps.len() {
        seq![(ps[k].0@, value_view(*ps[k].1))] + members_view_from(ps, k + 1)
    } else {
        Seq::empty()
    }
}

/// The element sequence a vector of array elements stands for, from index `k` on.
pub open spec fn items_view_from(es: Seq<Box<JsonValue>>, k: int) -> Seq<ValueV>
    decreases es, es.len() - k,
{
    if 0 <= k < es.len() {
        seq![value_view(*es[k])] + items_view_from(es, k + 1)
    } else {
        Seq::empty()
    }
}

impl View for JsonValue {
    type V = ValueV;

    open spec fn view(&self) -> ValueV {
        value_view(*self)
    }
}

/// Each viewed pair is the view of the stored pair at the same position.
pub proof fn lemma_members_view(ps: Seq<(String, Box<JsonValue>)>, k: int)
    requires
        0 <= k <= ps.len(),
    ensures
        members_view_from(ps, k).len() == ps.len() - k,
        forall|i: int|
            k <= i < ps.len() ==> members_view_from(ps, k)[i - k] == (ps[i].0@, value_view(*ps[i].1)),
    decreases ps.len() - k,
{
    if k < ps.len() {
        lemma_members_view(ps, k + 1);
    }
}

/// Each viewed element is the view of the stored element at the same position.
pub proof fn lemma_items_view(es: Seq<Box<JsonValue>>, k: int)
    requires
        0 <= k <= es.len(),
    ensures
        items_view_from(es, k).len() == es.len() - k,
        forall|i: int| k <= i < es.len() ==> items_view_from(es, k)[i - k] == value_view(*es[i]),
    decreases es.len() - k,
{
    if k < es.len() {
        lemma_items_view(es, k + 1);
    }
}

} // verus!
