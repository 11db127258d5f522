//! Serializer: turns a [`Value`] tree back into JSON text, and the laws that
//! tie the three stages together (escape resolution inverts escaping, and the
//! parser inverts the serializer at the token level).

use vstd::prelude::*;

use crate::parse::{
    lemma_key_index, spec_esc_char, spec_key_index, spec_obj_from_pairs, spec_parse_array_items,
    spec_parse_obj_items, spec_parse_value, spec_unescape, spec_unescape_from,
};
use crate::push_char;
use crate::tokenize::SpecToken;
use crate::{lemma_members_view, lemma_values_view};
use crate::{spec_fits_depth, spec_wf, SpecValue, Value};

verus! {

/// A string-literal character in escaped form: `"` as `\"` and `\` as `\\`;
/// every other character stands for itself.
pub open spec fn spec_escape_char(c: char) -> Seq<char> {
    if c == '"' {
        seq!['\\', '"']
    } else if c == '\\' {
        seq!['\\', '\\']
    } else {
        seq![c]
    }
}

/// The escaped form of a whole string-literal body.
pub open spec fn spec_escape(s: Seq<char>) -> Seq<char>
    decreases s.len(),
{
    if s.len() == 0 {
        Seq::empty()
    } else {
        spec_escape_char(s[0]) + spec_escape(s.drop_first())
    }
}

/// Escaping distributes over concatenation.
pub proof fn lemma_escape_concat(a: Seq<char>, b: Seq<char>)
    ensures
        spec_escape(a + b) == spec_escape(a) + spec_escape(b),
    decreases a.len(),
{
    if a.len() == 0 {
        assert(a + b =~= b);
        assert(spec_escape(a) =~= Seq::<char>::empty());
        assert(spec_escape(a) + spec_escape(b) =~= spec_escape(b));
    } else {
        assert((a + b).len() > 0);
        assert((a + b)[0] == a[0]);
        assert((a + b).drop_first() =~= a.drop_first() + b);
        lemma_escape_concat(a.drop_first(), b);
        assert(spec_escape_char(a[0]) + (spec_escape(a.drop_first()) + spec_escape(b))
            =~= (spec_escape_char(a[0]) + spec_escape(a.drop_first())) + spec_escape(b));
    }
}

/// The text of one value: scalars print their literal form, a string prints
/// quoted and escaped, containers print their members separated by commas.
pub open spec fn spec_serialize(m: SpecValue) -> Seq<char>
    decreases m, 0int,
{
    match m {
        SpecValue::Null => seq!['n', 'u', 'l', 'l'],
        SpecValue::Boolean(b) => if b {
            seq!['t', 'r', 'u', 'e']
        } else {
            seq!['f', 'a', 'l', 's', 'e']
        },
        SpecValue::String(s) => seq!['"'] + spec_escape(s) + seq!['"'],
        SpecValue::Number(n) => n,
        SpecValue::Array(es) => if es.len() == 0 {
            seq!['[', ']']
        } else {
            seq!['['] + spec_ser_items(es, 0) + seq![']']
        },
        SpecValue::Object(ms) => if ms.len() == 0 {
            seq!['{', '}']
        } else {
            seq!['{'] + spec_ser_members(ms, 0) + seq!['}']
        },
    }
}

/// The text of the elements from position `k` on, comma-separated.
pub open spec fn spec_ser_items(es: Seq<SpecValue>, k: int) -> Seq<char>
    decreases es, es.len() - k,
{
    if !(0 <= k < es.len()) {
        Seq::empty()
    } else if k + 1 == es.len() {
        spec_serialize(es[k])
    } else {
        spec_serialize(es[k]) + seq![','] + spec_ser_items(es, k + 1)
    }
}

/// The text of the members from position `k` on: quoted escaped key, colon,
/// value, comma-separated.
pub open spec fn spec_ser_members(ms: Seq<(Seq<char>, SpecValue)>, k: int) -> Seq<char>
    decreases ms, ms.len() - k,
{
    if !(0 <= k < ms.len()) {
        Seq::empty()
    } else {
        let member = seq!['"'] + spec_escape(ms[k].0) + seq!['"', ':'] + spec_serialize(ms[k].1);
        if k + 1 == ms.len() {
            member
        } else {
            member + seq![','] + spec_ser_members(ms, k + 1)
        }
    }
}

// ---------------------------------------------------------------------------
// Executable serializer
// ---------------------------------------------------------------------------

/// Appends the escaped form of `s` to `out`.
fn escape_into(out: &mut String, s: &str)
    ensures
        final(out)@ == old(out)@ + spec_escape(s@),
{
    let n = s.unicode_len();
    let mut i: usize = 0;
    while i < n
        invariant
            0 <= i <= n,
            n == s@.len(),
            out@ == old(out)@ + spec_escape(s@.take(i as int)),
        decreases n - i,
    {
        let c = s.get_char(i);
        proof {
            assert(s@.take(i as int + 1) =~= s@.take(i as int) + seq![s@[i as int]]);
            lemma_escape_concat(s@.take(i as int), seq![s@[i as int]]);
            assert(seq![s@[i as int]].drop_first() =~= Seq::<char>::empty());
            assert(spec_escape(Seq::<char>::empty()) =~= Seq::<char>::empty());
            assert(spec_escape(seq![s@[i as int]]) =~= spec_escape_char(s@[i as int]));
        }
        if c == '"' {
            push_char(out, '\\');
            push_char(out, '"');
        } else if c == '\\' {
            push_char(out, '\\');
            push_char(out, '\\');
        } else {
            push_char(out, c);
        }
        i = i + 1;
        proof {
            assert(out@ =~= old(out)@ + spec_escape(s@.take(i as int)));
        }
    }
    proof {
        assert(s@.take(n as int) =~= s@);
    }
}

/// Prints a value tree as JSON text, exactly as [`spec_serialize`]
/// describes. Re-tokenizing and re-parsing that text recovers the tree; see
/// [`lemma_parse_inverts_tokens`] for the proved token-level statement.
pub fn serialize(v: &Value) -> (out: String)
    ensures
        out@ == spec_serialize(v@),
    decreases v, 0int,
{
    match v {
        Value::Null => {
            let out = String::from_str("null");
            proof {
                reveal_strlit("null");
                assert(out@ =~= seq!['n', 'u', 'l', 'l']);
            }
            out
        },
        Value::Boolean(b) => {
            if *b {
                let out = String::from_str("true");
                proof {
                    reveal_strlit("true");
                    assert(out@ =~= seq!['t', 'r', 'u', 'e']);
                }
                out
            } else {
                let out = String::from_str("false");
                proof {
                    reveal_strlit("false");
                    assert(out@ =~= seq!['f', 'a', 'l', 's', 'e']);
                }
                out
            }
        },
        Value::String(s) => {
            let mut out = String::new();
            push_char(&mut out, '"');
            escape_into(&mut out, s.as_str());
            push_char(&mut out, '"');
            proof {
                assert(out@ =~= seq!['"'] + spec_escape(s@) + seq!['"']);
            }
            out
        },
        Value::Number(n) => n.clone(),
        Value::Array(elems) => {
            let mut out = String::new();
            push_char(&mut out, '[');
            if elems.len() > 0 {
                let items = serialize_items(elems, 0);
                out.append(items.as_str());
            }
            push_char(&mut out, ']');
            proof {
                lemma_values_view(elems@);
                if elems@.len() == 0 {
                    assert(out@ =~= seq!['[', ']']);
                } else {
                    assert(out@ =~= seq!['['] + spec_ser_items(
                        crate::spec_values_view(elems@),
                        0,
                    ) + seq![']']);
                }
            }
            out
        },
        Value::Object(members) => {
            let mut out = String::new();
            push_char(&mut out, '{');
            if members.len() > 0 {
                let body = serialize_members(members, 0);
                out.append(body.as_str());
            }
            push_char(&mut out, '}');
            proof {
                lemma_members_view(members@);
                if members@.len() == 0 {
                    assert(out@ =~= seq!['{', '}']);
                } else {
                    assert(out@ =~= seq!['{'] + spec_ser_members(
                        crate::spec_members_view(members@),
                        0,
                    ) + seq!['}']);
                }
            }
            out
        },
    }
}

/// The comma-separated text of the elements from `pos` on.
fn serialize_items(elems: &Vec<Value>, pos: usize) -> (out: String)
    requires
        pos < elems@.len(),
    ensures
        out@ == spec_ser_items(crate::spec_values_view(elems@), pos as int),
    decreases elems, elems@.len() - pos as int,
{
    proof {
        lemma_values_view(elems@);
    }
    let n = elems.len();
    let mut out = serialize(&elems[pos]);
    if pos + 1 < n {
        push_char(&mut out, ',');
        let rest = serialize_items(elems, pos + 1);
        out.append(rest.as_str());
        proof {
            assert(out@ =~= spec_serialize(elems@[pos as int]@) + seq![','] + spec_ser_items(
                crate::spec_values_view(elems@),
                pos as int + 1,
            ));
        }
    }
    out
}

/// The comma-separated text of the members from `pos` on.
fn serialize_members(members: &Vec<(String, Value)>, pos: usize) -> (out: String)
    requires
        pos < members@.len(),
    ensures
        out@ == spec_ser_members(crate::spec_members_view(members@), pos as int),
    decreases members, members@.len() - pos as int,
{
    proof {
        lemma_members_view(members@);
    }
    let n = members.len();
    let pair = &members[pos];
    let mut out = String::new();
    push_char(&mut out, '"');
    escape_into(&mut out, pair.0.as_str());
    push_char(&mut out, '"');
    push_char(&mut out, ':');
    let val = serialize(&pair.1);
    out.append(val.as_str());
    proof {
        assert(out@ =~= seq!['"'] + spec_escape(members@[pos as int].0@) + seq!['"', ':']
            + spec_serialize(members@[pos as int].1@));
    }
    if pos + 1 < n {
        push_char(&mut out, ',');
        let rest = serialize_members(members, pos + 1);
        out.append(rest.as_str());
        proof {
            assert(out@ =~= (seq!['"'] + spec_escape(members@[pos as int].0@) + seq!['"', ':']
                + spec_serialize(members@[pos as int].1@)) + seq![','] + spec_ser_members(
                crate::spec_members_view(members@),
                pos as int + 1,
            ));
        }
    }
    out
}

} // verus!

verus! {

/// Law: escape resolution inverts escaping. Resolving the escape sequences
/// of the escaped form of any string body gives the body back, whatever the
/// body holds, in a single pass.
pub proof fn lemma_unescape_escape(s: Seq<char>)
    ensures
        spec_unescape(spec_escape(s)) == Some(s),
{
    let full = spec_escape(s);
    assert(full.subrange(0, full.len() as int) =~= full);
    lemma_unescape_escape_at(s, full, 0);
}

/// Escape resolution from position `i` on recovers `s` when the suffix from
/// `i` on is the escaped form of `s`.
proof fn lemma_unescape_escape_at(s: Seq<char>, full: Seq<char>, i: int)
    requires
        0 <= i <= full.len(),
        full.subrange(i, full.len() as int) == spec_escape(s),
    ensures
        spec_unescape_from(full, i) == Some(s),
    decreases s.len(),
{
    let suffix = full.subrange(i, full.len() as int);
    if s.len() == 0 {
        assert(spec_escape(s) =~= Seq::<char>::empty());
        assert(i == full.len());
        assert(s =~= Seq::<char>::empty());
    } else {
        let c = s[0];
        let rest = s.drop_first();
        let ec = spec_escape_char(c);
        assert(suffix == ec + spec_escape(rest));
        assert forall|t: int| 0 <= t < ec.len() implies full[i + t] == ec[t] by {
            assert(suffix[t] == ec[t]);
        }
        let i2 = i + ec.len();
        assert(i2 <= full.len()) by {
            assert(suffix.len() == ec.len() + spec_escape(rest).len());
        }
        assert(full.subrange(i2, full.len() as int) =~= spec_escape(rest)) by {
            assert forall|t: int| 0 <= t < full.len() - i2 implies full.subrange(
                i2,
                full.len() as int,
            )[t] == spec_escape(rest)[t] by {
                assert(suffix[ec.len() + t] == (ec + spec_escape(rest))[ec.len() + t]);
            }
        }
        lemma_unescape_escape_at(rest, full, i2);
        assert(full[i + 0] == ec[0]);
        if c == '"' {
            assert(full[i] == '\\');
            assert(full[i + 1] == ec[1]);
            assert(full[i + 1] == '"');
            assert(spec_esc_char('"') == Some('"'));
            assert(spec_unescape_from(full, i) == Some(seq!['"'] + rest));
            assert(seq![c] + rest =~= s);
        } else if c == '\\' {
            assert(full[i] == '\\');
            assert(full[i + 1] == ec[1]);
            assert(full[i + 1] == '\\');
            assert(spec_esc_char('\\') == Some('\\'));
            assert(spec_unescape_from(full, i) == Some(seq!['\\'] + rest));
            assert(seq![c] + rest =~= s);
        } else {
            assert(ec =~= seq![c]);
            assert(full[i] == c);
            assert(spec_unescape_from(full, i) == Some(seq![c] + rest));
            assert(seq![c] + rest =~= s);
        }
    }
}

} // verus!

verus! {

/// The token sequence that the serialized text of `m` scans to: one token
/// per scalar, and brackets, braces, commas and colons around container
/// members; string payloads carry the escaped body, as the scanner leaves
/// escape resolution to the parser.
pub open spec fn spec_tokens_of(m: SpecValue) -> Seq<SpecToken>
    decreases m, 0int,
{
    match m {
        SpecValue::Null => seq![SpecToken::Null],
        SpecValue::Boolean(b) => if b {
            seq![SpecToken::True]
        } else {
            seq![SpecToken::False]
        },
        SpecValue::String(s) => seq![SpecToken::String(spec_escape(s))],
        SpecValue::Number(n) => seq![SpecToken::Number(n)],
        SpecValue::Array(es) => if es.len() == 0 {
            seq![SpecToken::LeftBracket, SpecToken::RightBracket]
        } else {
            seq![SpecToken::LeftBracket] + spec_items_tokens(es, 0)
        },
        SpecValue::Object(ms) => if ms.len() == 0 {
            seq![SpecToken::LeftBrace, SpecToken::RightBrace]
        } else {
            seq![SpecToken::LeftBrace] + spec_members_tokens(ms, 0)
        },
    }
}

/// The tokens of the elements from `k` on, with their separating commas and
/// the closing bracket.
pub open spec fn spec_items_tokens(es: Seq<SpecValue>, k: int) -> Seq<SpecToken>
    decreases es, es.len() - k,
{
    if !(0 <= k < es.len()) {
        Seq::empty()
    } else if k + 1 == es.len() {
        spec_tokens_of(es[k]) + seq![SpecToken::RightBracket]
    } else {
        spec_tokens_of(es[k]) + seq![SpecToken::Comma] + spec_items_tokens(es, k + 1)
    }
}

/// The tokens of the members from `k` on: key, colon, value, with their
/// separating commas and the closing brace.
pub open spec fn spec_members_tokens(ms: Seq<(Seq<char>, SpecValue)>, k: int) -> Seq<SpecToken>
    decreases ms, ms.len() - k,
{
    if !(0 <= k < ms.len()) {
        Seq::empty()
    } else {
        let member = seq![SpecToken::String(spec_escape(ms[k].0)), SpecToken::Colon]
            + spec_tokens_of(ms[k].1);
        if k + 1 == ms.len() {
            member + seq![SpecToken::RightBrace]
        } else {
            member + seq![SpecToken::Comma] + spec_members_tokens(ms, k + 1)
        }
    }
}

/// A value's token sequence is non-empty and opens with a token that can
/// start a value.
proof fn lemma_tokens_of_head(m: SpecValue)
    ensures
        spec_tokens_of(m).len() >= 1,
        !(spec_tokens_of(m)[0] is RightBracket),
        !(spec_tokens_of(m)[0] is RightBrace),
        !(spec_tokens_of(m)[0] is Comma),
        !(spec_tokens_of(m)[0] is Colon),
{
    match m {
        SpecValue::Array(es) => {
            if es.len() > 0 {
                assert(spec_tokens_of(m)[0] == SpecToken::LeftBracket);
            }
        },
        SpecValue::Object(ms) => {
            if ms.len() > 0 {
                assert(spec_tokens_of(m)[0] == SpecToken::LeftBrace);
            }
        },
        _ => {},
    }
}

/// Folding a pair sequence whose keys are pairwise distinct changes nothing:
/// every insertion appends.
proof fn lemma_obj_from_pairs_unique(ms: Seq<(Seq<char>, SpecValue)>)
    requires
        forall|i: int, j: int|
            0 <= i < j < ms.len() ==> (#[trigger] ms[i].0) != (#[trigger] ms[j].0),
    ensures
        spec_obj_from_pairs(ms) == ms,
    decreases ms.len(),
{
    if ms.len() > 0 {
        let m0 = ms.drop_last();
        let last = ms.last();
        assert forall|i: int, j: int|
            0 <= i < j < m0.len() implies (#[trigger] m0[i].0) != (#[trigger] m0[j].0) by {
            assert(m0[i] == ms[i]);
            assert(m0[j] == ms[j]);
        }
        lemma_obj_from_pairs_unique(m0);
        lemma_key_index(m0, last.0);
        let idx = spec_key_index(m0, last.0);
        if idx < m0.len() {
            assert(m0[idx] == ms[idx]);
            assert(ms[idx].0 == ms[ms.len() - 1].0);
            assert(false);
        }
        assert(m0.push(last) =~= ms);
    }
}

/// Parsing the tokens of `m` at position `i` yields exactly `m` and stops
/// just past them, given depth budget enough for `m`'s nesting.
proof fn lemma_parse_value_at(ts: Seq<SpecToken>, i: int, m: SpecValue, d: int)
    requires
        spec_wf(m),
        spec_fits_depth(m, d),
        0 <= i,
        i + spec_tokens_of(m).len() <= ts.len(),
        ts.subrange(i, i + spec_tokens_of(m).len() as int) == spec_tokens_of(m),
    ensures
        spec_parse_value(ts, i, d) == Ok::<(SpecValue, int), crate::parse::SpecParseError>(
            (m, i + spec_tokens_of(m).len()),
        ),
    decreases m, 0int,
{
    let toks = spec_tokens_of(m);
    assert forall|t: int| 0 <= t < toks.len() implies ts[i + t] == toks[t] by {
        assert(ts.subrange(i, i + toks.len() as int)[t] == toks[t]);
    }
    assert(ts[i + 0] == toks[0]);
    match m {
        SpecValue::Null => {
            assert(ts[i] == SpecToken::Null);
        },
        SpecValue::Boolean(b) => {
            if b {
                assert(ts[i] == SpecToken::True);
            } else {
                assert(ts[i] == SpecToken::False);
            }
        },
        SpecValue::Number(n) => {
            assert(ts[i] == SpecToken::Number(n));
        },
        SpecValue::String(s) => {
            assert(ts[i] == SpecToken::String(spec_escape(s)));
            lemma_unescape_escape(s);
        },
        SpecValue::Array(es) => {
            assert(ts[i] == SpecToken::LeftBracket);
            if es.len() == 0 {
                assert(ts[i + 1] == toks[1]);
                assert(ts[i + 1] == SpecToken::RightBracket);
                assert(SpecValue::Array(Seq::empty()) == m) by {
                    assert(es =~= Seq::<SpecValue>::empty());
                }
            } else {
                assert(toks == seq![SpecToken::LeftBracket] + spec_items_tokens(es, 0));
                lemma_tokens_of_head(es[0]);
                assert(ts[i + 1] == toks[1]);
                assert(ts[i + 1] == spec_items_tokens(es, 0)[0]);
                lemma_tokens_of_head(es[0]);
                assert(spec_items_tokens(es, 0)[0] == spec_tokens_of(es[0])[0]);
                assert(!(ts[i + 1] is RightBracket));
                assert(ts.subrange(i + 1, i + 1 + spec_items_tokens(es, 0).len() as int)
                    =~= spec_items_tokens(es, 0)) by {
                    assert forall|t: int| 0 <= t < spec_items_tokens(es, 0).len() implies ts[i + 1
                        + t] == spec_items_tokens(es, 0)[t] by {
                        assert(toks[1 + t] == spec_items_tokens(es, 0)[t]);
                    }
                }
                lemma_parse_items_at(ts, i + 1, es, 0, d);
                assert(es.subrange(0, es.len() as int) =~= es);
            }
        },
        SpecValue::Object(ms) => {
            assert(ts[i] == SpecToken::LeftBrace);
            if ms.len() == 0 {
                assert(ts[i + 1] == toks[1]);
                assert(ts[i + 1] == SpecToken::RightBrace);
                assert(SpecValue::Object(Seq::empty()) == m) by {
                    assert(ms =~= Seq::<(Seq<char>, SpecValue)>::empty());
                }
            } else {
                assert(toks == seq![SpecToken::LeftBrace] + spec_members_tokens(ms, 0));
                assert(ts[i + 1] == toks[1]) by {
                    lemma_tokens_of_head(ms[0].1);
                    assert(spec_members_tokens(ms, 0).len() >= 1);
                }
                assert(ts[i + 1] == spec_members_tokens(ms, 0)[0]);
                assert(spec_members_tokens(ms, 0)[0] == SpecToken::String(spec_escape(ms[0].0)));
                assert(!(ts[i + 1] is RightBrace));
                assert(ts.subrange(i + 1, i + 1 + spec_members_tokens(ms, 0).len() as int)
                    =~= spec_members_tokens(ms, 0)) by {
                    assert forall|t: int| 0 <= t < spec_members_tokens(ms, 0).len() implies ts[i
                        + 1 + t] == spec_members_tokens(ms, 0)[t] by {
                        assert(toks[1 + t] == spec_members_tokens(ms, 0)[t]);
                    }
                }
                lemma_parse_members_at(ts, i + 1, ms, 0, d);
                assert(ms.subrange(0, ms.len() as int) =~= ms);
                lemma_obj_from_pairs_unique(ms);
            }
        },
    }
}

/// Parsing the element tokens of `es[k..]` at position `i` yields exactly
/// those elements and stops just past the closing bracket.
proof fn lemma_parse_items_at(ts: Seq<SpecToken>, i: int, es: Seq<SpecValue>, k: int, d: int)
    requires
        forall|t: int| 0 <= t < es.len() ==> spec_wf(#[trigger] es[t]),
        forall|t: int| 0 <= t < es.len() ==> spec_fits_depth(#[trigger] es[t], d - 1),
        d >= 1,
        0 <= k < es.len(),
        0 <= i,
        i + spec_items_tokens(es, k).len() <= ts.len(),
        ts.subrange(i, i + spec_items_tokens(es, k).len() as int) == spec_items_tokens(es, k),
    ensures
        spec_parse_array_items(ts, i, d) == Ok::<
            (Seq<SpecValue>, int),
            crate::parse::SpecParseError,
        >((es.subrange(k, es.len() as int), i + spec_items_tokens(es, k).len())),
    decreases es, es.len() - k,
{
    let itoks = spec_items_tokens(es, k);
    assert forall|t: int| 0 <= t < itoks.len() implies ts[i + t] == itoks[t] by {
        assert(ts.subrange(i, i + itoks.len() as int)[t] == itoks[t]);
    }
    let vtoks = spec_tokens_of(es[k]);
    lemma_tokens_of_head(es[k]);
    assert(ts.subrange(i, i + vtoks.len() as int) =~= vtoks) by {
        assert forall|t: int| 0 <= t < vtoks.len() implies ts[i + t] == vtoks[t] by {
            assert(itoks[t] == vtoks[t]);
        }
    }
    lemma_parse_value_at(ts, i, es[k], d - 1);
    let j = i + vtoks.len();
    if k + 1 == es.len() {
        assert(ts[j] == SpecToken::RightBracket) by {
            assert(itoks[vtoks.len() as int] == SpecToken::RightBracket);
        }
        assert(j < ts.len());
        assert(seq![es[k]] =~= es.subrange(k, es.len() as int));
    } else {
        assert(ts[j] == SpecToken::Comma) by {
            assert(itoks[vtoks.len() as int] == SpecToken::Comma);
        }
        assert(j < ts.len());
        let rtoks = spec_items_tokens(es, k + 1);
        assert(ts.subrange(j + 1, j + 1 + rtoks.len() as int) =~= rtoks) by {
            assert forall|t: int| 0 <= t < rtoks.len() implies ts[j + 1 + t] == rtoks[t] by {
                assert(itoks[vtoks.len() + 1 + t] == rtoks[t]);
            }
        }
        lemma_parse_items_at(ts, j + 1, es, k + 1, d);
        assert(seq![es[k]] + es.subrange(k + 1, es.len() as int) =~= es.subrange(
            k,
            es.len() as int,
        ));
    }
}

/// Parsing the member tokens of `ms[k..]` at position `i` yields exactly
/// those members and stops just past the closing brace.
proof fn lemma_parse_members_at(
    ts: Seq<SpecToken>,
    i: int,
    ms: Seq<(Seq<char>, SpecValue)>,
    k: int,
    d: int,
)
    requires
        forall|t: int| 0 <= t < ms.len() ==> spec_wf(#[trigger] ms[t].1),
        forall|t: int| 0 <= t < ms.len() ==> spec_fits_depth(#[trigger] ms[t].1, d - 1),
        d >= 1,
        0 <= k < ms.len(),
        0 <= i,
        i + spec_members_tokens(ms, k).len() <= ts.len(),
        ts.subrange(i, i + spec_members_tokens(ms, k).len() as int) == spec_members_tokens(ms, k),
    ensures
        spec_parse_obj_items(ts, i, d) == Ok::<
            (Seq<(Seq<char>, SpecValue)>, int),
            crate::parse::SpecParseError,
        >((ms.subrange(k, ms.len() as int), i + spec_members_tokens(ms, k).len())),
    decreases ms, ms.len() - k,
{
    let mtoks = spec_members_tokens(ms, k);
    assert forall|t: int| 0 <= t < mtoks.len() implies ts[i + t] == mtoks[t] by {
        assert(ts.subrange(i, i + mtoks.len() as int)[t] == mtoks[t]);
    }
    let key = ms[k].0;
    let vtoks = spec_tokens_of(ms[k].1);
    lemma_tokens_of_head(ms[k].1);
    assert(ts[i] == SpecToken::String(spec_escape(key))) by {
        assert(mtoks[0] == SpecToken::String(spec_escape(key)));
    }
    lemma_unescape_escape(key);
    assert(ts[i + 1] == SpecToken::Colon) by {
        assert(mtoks[1] == SpecToken::Colon);
    }
    assert(ts.subrange(i + 2, i + 2 + vtoks.len() as int) =~= vtoks) by {
        assert forall|t: int| 0 <= t < vtoks.len() implies ts[i + 2 + t] == vtoks[t] by {
            assert(mtoks[2 + t] == vtoks[t]);
        }
    }
    lemma_parse_value_at(ts, i + 2, ms[k].1, d - 1);
    let j = i + 2 + vtoks.len();
    if k + 1 == ms.len() {
        assert(ts[j] == SpecToken::RightBrace) by {
            assert(mtoks[2 + vtoks.len() as int] == SpecToken::RightBrace);
        }
        assert(j < ts.len());
        assert(seq![(key, ms[k].1)] =~= ms.subrange(k, ms.len() as int));
    } else {
        assert(ts[j] == SpecToken::Comma) by {
            assert(mtoks[2 + vtoks.len() as int] == SpecToken::Comma);
        }
        assert(j < ts.len());
        let rtoks = spec_members_tokens(ms, k + 1);
        assert(ts.subrange(j + 1, j + 1 + rtoks.len() as int) =~= rtoks) by {
            assert forall|t: int| 0 <= t < rtoks.len() implies ts[j + 1 + t] == rtoks[t] by {
                assert(mtoks[2 + vtoks.len() + 1 + t] == rtoks[t]);
            }
        }
        lemma_parse_members_at(ts, j + 1, ms, k + 1, d);
        assert(seq![(key, ms[k].1)] + ms.subrange(k + 1, ms.len() as int) =~= ms.subrange(
            k,
            ms.len() as int,
        ));
    }
}

/// Law (round trip, token level): for every well-formed value tree whose
/// nesting fits the parser's depth bound, parsing the tree's own token
/// sequence succeeds and yields a tree deep-equal to the original, with no
/// token left over.
pub proof fn lemma_parse_inverts_tokens(m: SpecValue)
    requires
        spec_wf(m),
        spec_fits_depth(m, crate::parse::MAX_DEPTH as int),
    ensures
        crate::parse::spec_parse(spec_tokens_of(m)) == Ok::<
            SpecValue,
            crate::parse::SpecParseError,
        >(m),
{
    let ts = spec_tokens_of(m);
    assert(ts.subrange(0, ts.len() as int) =~= ts);
    lemma_parse_value_at(ts, 0, m, crate::parse::MAX_DEPTH as int);
}

} // verus!
