//! A verified JSON front end: a lexical scanner that turns text into a flat
//! sequence of typed tokens, and a recursive-descent parser that turns the
//! token sequence into a tree of typed values.
//!
//! Numbers are carried as their validated literal text, so that the library
//! stays within exact (integer/character) reasoning; a caller that wants a
//! machine float converts the literal outside this crate.

pub mod parse;
pub mod serialize;
pub mod tokenize;

use vstd::prelude::*;

verus! {

/// The parsed-result tree: a closed tagged union of JSON value kinds.
///
/// An `Object` is a sequence of key/value pairs with pairwise-distinct keys
/// (insertion order is kept, duplicate keys in the source are resolved
/// last-wins). A `Number` holds the numeric literal exactly as scanned,
/// already validated against the number grammar.
#[derive(Debug, PartialEq)]
pub enum Value {
    Null,
    Boolean(bool),
    String(String),
    Number(String),
    Object(Vec<(String, Value)>),
    Array(Vec<Value>),
}

/// Mathematical model of a [`Value`] tree: text becomes `Seq<char>`,
/// containers become `Seq`.
pub enum SpecValue {
    Null,
    Boolean(bool),
    String(Seq<char>),
    Number(Seq<char>),
    Object(Seq<(Seq<char>, SpecValue)>),
    Array(Seq<SpecValue>),
}

/// The models of a sequence of values, element-wise.
pub open spec fn spec_values_view(vs: Seq<Value>) -> Seq<SpecValue>
    decreases vs, 0int,
{
    if vs.len() == 0 {
        Seq::empty()
    } else {
        seq![vs[0]@] + spec_values_view(vs.drop_first())
    }
}

/// The models of a sequence of object members, member-wise.
pub open spec fn spec_members_view(ms: Seq<(String, Value)>) -> Seq<(Seq<char>, SpecValue)>
    decreases ms, 0int,
{
    if ms.len() == 0 {
        Seq::empty()
    } else {
        seq![(ms[0].0@, ms[0].1@)] + spec_members_view(ms.drop_first())
    }
}

impl View for Value {
    type V = SpecValue;

    open spec fn view(&self) -> SpecValue
        decreases self, 0int,
    {
        match self {
            Value::Null => SpecValue::Null,
            Value::Boolean(b) => SpecValue::Boolean(*b),
            Value::String(s) => SpecValue::String(s@),
            Value::Number(n) => SpecValue::Number(n@),
            Value::Object(members) => SpecValue::Object(spec_members_view(members@)),
            Value::Array(elems) => SpecValue::Array(spec_values_view(elems@)),
        }
    }
}

/// The element views stand at the same positions.
pub proof fn lemma_values_view(vs: Seq<Value>)
    ensures
        spec_values_view(vs).len() == vs.len(),
        forall|i: int| 0 <= i < vs.len() ==> spec_values_view(vs)[i] == vs[i]@,
    decreases vs.len(),
{
    if vs.len() == 0 {
        assert(spec_values_view(vs) == Seq::<SpecValue>::empty());
    } else {
        lemma_values_view(vs.drop_first());
        assert(spec_values_view(vs) == seq![vs[0]@] + spec_values_view(vs.drop_first()));
        assert(spec_values_view(vs).len() == vs.len());
        assert forall|i: int| 0 <= i < vs.len() implies spec_values_view(vs)[i] == vs[i]@ by {
            if i > 0 {
                assert(vs.drop_first()[i - 1] == vs[i]);
                assert(spec_values_view(vs)[i] == spec_values_view(vs.drop_first())[i - 1]);
            } else {
                assert(spec_values_view(vs)[0] == vs[0]@);
            }
        }
    }
}

/// The member views stand at the same positions.
pub proof fn lemma_members_view(ms: Seq<(String, Value)>)
    ensures
        spec_members_view(ms).len() == ms.len(),
        forall|i: int|
            0 <= i < ms.len() ==> spec_members_view(ms)[i] == (ms[i].0@, ms[i].1@),
    decreases ms.len(),
{
    if ms.len() == 0 {
        assert(spec_members_view(ms) == Seq::<(Seq<char>, SpecValue)>::empty());
    } else {
        lemma_members_view(ms.drop_first());
        assert(spec_members_view(ms) == seq![(ms[0].0@, ms[0].1@)] + spec_members_view(
            ms.drop_first(),
        ));
        assert(spec_members_view(ms).len() == ms.len());
        assert forall|i: int| 0 <= i < ms.len() implies spec_members_view(ms)[i] == (
        ms[i].0@,
        ms[i].1@,
        ) by {
            if i > 0 {
                assert(ms.drop_first()[i - 1] == ms[i]);
                assert(spec_members_view(ms)[i] == spec_members_view(ms.drop_first())[i - 1]);
            } else {
                assert(spec_members_view(ms)[0] == (ms[0].0@, ms[0].1@));
            }
        }
    }
}

/// Well-formedness of a value tree: every numeric literal satisfies the
/// number grammar, and every object's keys are pairwise distinct.
pub open spec fn spec_wf(m: SpecValue) -> bool
    decreases m,
{
    match m {
        SpecValue::Null => true,
        SpecValue::Boolean(_) => true,
        SpecValue::String(_) => true,
        SpecValue::Number(n) => crate::tokenize::spec_valid_number(n),
        SpecValue::Array(es) => forall|i: int| 0 <= i < es.len() ==> spec_wf(#[trigger] es[i]),
        SpecValue::Object(ms) => {
            &&& forall|i: int, j: int|
                0 <= i < j < ms.len() ==> (#[trigger] ms[i].0) != (#[trigger] ms[j].0)
            &&& forall|i: int| 0 <= i < ms.len() ==> spec_wf(#[trigger] ms[i].1)
        },
    }
}

/// Relies on `String::push`: appends the given character at the end.
#[verifier::external_body]
pub(crate) fn push_char(s: &mut String, c: char)
    ensures
        final(s)@ == old(s)@.push(c),
{
    s.push(c);
}

/// Whether the tree nests no deeper than `d` container levels.
pub open spec fn spec_fits_depth(m: SpecValue, d: int) -> bool
    decreases m,
{
    match m {
        SpecValue::Null => true,
        SpecValue::Boolean(_) => true,
        SpecValue::String(_) => true,
        SpecValue::Number(_) => true,
        SpecValue::Array(es) => d >= 1 && forall|i: int|
            0 <= i < es.len() ==> spec_fits_depth(#[trigger] es[i], d - 1),
        SpecValue::Object(ms) => d >= 1 && forall|i: int|
            0 <= i < ms.len() ==> spec_fits_depth(#[trigger] ms[i].1, d - 1),
    }
}

} // verus!
