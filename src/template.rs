//! Placeholder substitution in translation templates.
//!
//! A placeholder is `{name}`; `{{name}}` is its escaped form and comes out
//! as the literal text `{name}`.
use vstd::prelude::*;
use crate::text::{replace_all, replaced};

verus! {

/// The character that marks an escaped placeholder while values go in.
pub open spec fn marker() -> char {
    '\u{1}'
}

/// `{name}`.
pub open spec fn placeholder(name: Seq<char>) -> Seq<char> {
    seq!['{'] + name + seq!['}']
}

/// `{{name}}`.
pub open spec fn escaped_placeholder(name: Seq<char>) -> Seq<char> {
    seq!['{', '{'] + name + seq!['}', '}']
}

/// The sentinel that stands for an escaped placeholder between the phases;
/// it holds no brace, so the second phase cannot reach into it.
pub open spec fn sentinel(name: Seq<char>) -> Seq<char> {
    seq![marker()] + name + seq![marker()]
}

/// One binding applied in three phases: escaped placeholders become
/// sentinels, placeholders become the value, sentinels become the literal
/// placeholder text.
pub open spec fn substituted_one(t: Seq<char>, name: Seq<char>, value: Seq<char>) -> Seq<char> {
    replaced(
        replaced(replaced(t, escaped_placeholder(name), sentinel(name)), placeholder(name), value),
        sentinel(name),
        placeholder(name),
    )
}

/// The bindings applied one after another, first to last.
pub open spec fn substituted(t: Seq<char>, bindings: Seq<(String, String)>) -> Seq<char>
    decreases bindings.len(),
{
    if bindings.len() == 0 {
        t
    } else {
        let last = bindings.last();
        substituted_one(substituted(t, bindings.drop_last()), last.0@, last.1@)
    }
}

/// Text made of an opening string, the name, and a closing string.
fn wrapped(open: &str, name: &str, close: &str) -> (r: String)
    ensures
        r@ == open@ + name@ + close@,
{
    let mut r = String::from_str(open);
    r.append(name);
    r.append(close);
    r
}

/// Applies one binding `name -> value` to `template`: every `{name}` becomes
/// `value`, every `{{name}}` becomes the literal `{name}`.
pub fn substitute_one(template: &str, name: &str, value: &str) -> (r: String)
    ensures
        r@ == substituted_one(template@, name@, value@),
{
    proof {
        reveal_strlit("{");
        reveal_strlit("}");
        reveal_strlit("{{");
        reveal_strlit("}}");
        reveal_strlit("\u{1}");
    }
    let plain = wrapped("{", name, "}");
    let escaped = wrapped("{{", name, "}}");
    let guard = wrapped("\u{1}", name, "\u{1}");
    proof {
        assert(plain@ == placeholder(name@));
        assert(escaped@ == escaped_placeholder(name@));
        assert(guard@ == sentinel(name@));
    }
    let step1 = replace_all(template, escaped.as_str(), guard.as_str());
    let step2 = replace_all(step1.as_str(), plain.as_str(), value);
    replace_all(step2.as_str(), guard.as_str(), plain.as_str())
}

/// Applies every binding `(name, value)` to `template`, in order.
/// Placeholders without a binding stay as they are.
pub fn substitute(template: &str, bindings: &Vec<(String, String)>) -> (r: String)
    ensures
        r@ == substituted(template@, bindings@),
{
    let mut cur = String::from_str(template);
    let mut i: usize = 0;
    proof {
        assert(bindings@.subrange(0, 0).len() == 0);
    }
    while i < bindings.len()
        invariant
            i <= bindings@.len(),
            cur@ == substituted(template@, bindings@.subrange(0, i as int)),
        decreases bindings@.len() - i,
    {
        proof {
            assert(bindings@.subrange(0, i + 1).drop_last() == bindings@.subrange(0, i as int));
        }
        cur = substitute_one(cur.as_str(), bindings[i].0.as_str(), bindings[i].1.as_str());
        i += 1;
    }
    proof {
        assert(bindings@.subrange(0, i as int) == bindings@);
    }
    cur
}

} // verus!
