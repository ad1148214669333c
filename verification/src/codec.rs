//! Text codec: conversion between literal reserved characters and their
//! named entity forms.
//!
//! `escape_ascii` replaces each of `"`, `'`, `&`, `<`, `>` by its entity in
//! one left-to-right pass. `un_escape_ascii` scans left to right; at a `&`
//! it consumes characters up to and including the next `;` (or to the end
//! of the input) as an entity name, emits the matching literal character
//! for the five known names, and emits a plain `&` for an unknown name,
//! discarding the consumed characters. That lossy fallback is part of the
//! codec's contract, not an accident to be repaired.

use vstd::prelude::*;

verus! {

/// The five characters the codec treats as reserved.
pub open spec fn reserved(c: char) -> bool {
    c == '"' || c == '\'' || c == '&' || c == '<' || c == '>'
}

/// The full entity (ampersand and semicolon included) for a reserved character.
pub open spec fn entity_for(c: char) -> Seq<char>
    recommends
        reserved(c),
{
    if c == '"' {
        seq!['&', 'q', 'u', 'o', 't', ';']
    } else if c == '\'' {
        seq!['&', 'a', 'p', 'o', 's', ';']
    } else if c == '&' {
        seq!['&', 'a', 'm', 'p', ';']
    } else if c == '<' {
        seq!['&', 'l', 't', ';']
    } else {
        seq!['&', 'g', 't', ';']
    }
}

/// What a single character contributes to the escaped form.
pub open spec fn escape_char(c: char) -> Seq<char> {
    if reserved(c) {
        entity_for(c)
    } else {
        seq![c]
    }
}

/// The escaped form of a text: each reserved character replaced by its entity.
pub open spec fn escaped(s: Seq<char>) -> Seq<char>
    decreases s.len(),
{
    if s.len() == 0 {
        Seq::empty()
    } else {
        escape_char(s[0]) + escaped(s.skip(1))
    }
}

/// The literal character an entity name (without `&` and `;`) stands for;
/// an unknown name degrades to a plain `&`.
pub open spec fn entity_char(name: Seq<char>) -> char {
    if name == seq!['q', 'u', 'o', 't'] {
        '"'
    } else if name == seq!['a', 'p', 'o', 's'] {
        '\''
    } else if name == seq!['a', 'm', 'p'] {
        '&'
    } else if name == seq!['l', 't'] {
        '<'
    } else if name == seq!['g', 't'] {
        '>'
    } else {
        '&'
    }
}

/// Unescaping while inside an entity: `name` holds the characters consumed
/// since the opening `&`. The name ends at the first `;`, or at the end of
/// the input (so a known name left unterminated at the very end still counts).
pub open spec fn scan_entity(s: Seq<char>, name: Seq<char>) -> Seq<char>
    decreases s.len(), 0nat,
{
    if s.len() == 0 {
        seq![entity_char(name)]
    } else if s[0] == ';' {
        seq![entity_char(name)] + unescaped(s.skip(1))
    } else {
        scan_entity(s.skip(1), name.push(s[0]))
    }
}

/// The unescaped form of a text: entities back to literal characters,
/// unknown entities degraded to `&` with their name discarded.
pub open spec fn unescaped(s: Seq<char>) -> Seq<char>
    decreases s.len(), 1nat,
{
    if s.len() == 0 {
        Seq::empty()
    } else if s[0] != '&' {
        seq![s[0]] + unescaped(s.skip(1))
    } else {
        scan_entity(s.skip(1), Seq::empty())
    }
}

/// Relies on `String::push`: appends exactly the given character.
#[verifier::external_body]
pub(crate) fn push_char(s: &mut String, c: char)
    ensures
        final(s)@ == old(s)@.push(c),
{
    s.push(c);
}

proof fn lemma_escaped_snoc(t: Seq<char>, c: char)
    ensures
        escaped(t.push(c)) == escaped(t) + escape_char(c),
    decreases t.len(),
{
    if t.len() == 0 {
        assert(t.push(c).skip(1) =~= Seq::<char>::empty());
        assert(t.push(c)[0] == c);
        assert(escaped(t.push(c)) == escape_char(c) + escaped(Seq::<char>::empty()));
        assert(escaped(Seq::<char>::empty()) == Seq::<char>::empty());
        assert(escaped(t) == Seq::<char>::empty());
        assert(escape_char(c) + Seq::<char>::empty() =~= Seq::<char>::empty() + escape_char(c));
    } else {
        assert(t.push(c).skip(1) =~= t.skip(1).push(c));
        assert(t.push(c)[0] == t[0]);
        lemma_escaped_snoc(t.skip(1), c);
        assert(escaped(t.push(c)) == escape_char(t[0]) + (escaped(t.skip(1)) + escape_char(c)));
        assert(escaped(t) == escape_char(t[0]) + escaped(t.skip(1)));
        assert(escape_char(t[0]) + (escaped(t.skip(1)) + escape_char(c)) =~= (escape_char(t[0])
            + escaped(t.skip(1))) + escape_char(c));
    }
}

proof fn lemma_scan_through(pfx: Seq<char>, rest: Seq<char>, acc: Seq<char>)
    requires
        forall|k: int| 0 <= k < pfx.len() ==> pfx[k] != ';',
    ensures
        scan_entity(pfx + seq![';'] + rest, acc) == seq![entity_char(acc + pfx)] + unescaped(rest),
    decreases pfx.len(),
{
    let s = pfx + seq![';'] + rest;
    if pfx.len() == 0 {
        assert(s[0] == ';');
        assert(s.skip(1) =~= rest);
        assert(acc + pfx =~= acc);
    } else {
        assert(s[0] == pfx[0]);
        assert(s.skip(1) =~= pfx.skip(1) + seq![';'] + rest);
        lemma_scan_through(pfx.skip(1), rest, acc.push(pfx[0]));
        assert(acc.push(pfx[0]) + pfx.skip(1) =~= acc + pfx);
    }
}

proof fn lemma_unescape_entity(c: char, rest: Seq<char>)
    requires
        reserved(c),
    ensures
        unescaped(entity_for(c) + rest) == seq![c] + unescaped(rest),
{
    let s = entity_for(c) + rest;
    assert(s[0] == '&');
    let name = entity_for(c).subrange(1, entity_for(c).len() - 1);
    assert(s.skip(1) =~= name + seq![';'] + rest);
    assert(forall|k: int| 0 <= k < name.len() ==> name[k] != ';');
    lemma_scan_through(name, rest, Seq::empty());
    assert(Seq::empty() + name =~= name);
    assert(seq!['q', 'u', 'o', 't'].len() == 4 && seq!['q', 'u', 'o', 't'][0] == 'q');
    assert(seq!['a', 'p', 'o', 's'].len() == 4 && seq!['a', 'p', 'o', 's'][0] == 'a');
    assert(seq!['a', 'm', 'p'].len() == 3 && seq!['a', 'm', 'p'][0] == 'a');
    assert(seq!['l', 't'].len() == 2 && seq!['l', 't'][0] == 'l');
    assert(seq!['g', 't'].len() == 2 && seq!['g', 't'][0] == 'g');
    if c == '"' {
        assert(name =~= seq!['q', 'u', 'o', 't']);
        assert(entity_char(name) == '"');
    } else if c == '\'' {
        assert(name =~= seq!['a', 'p', 'o', 's']);
        assert(entity_char(name) == '\'');
    } else if c == '&' {
        assert(name =~= seq!['a', 'm', 'p']);
        assert(entity_char(name) == '&');
    } else if c == '<' {
        assert(name =~= seq!['l', 't']);
        assert(entity_char(name) == '<');
    } else {
        assert(name =~= seq!['g', 't']);
        assert(entity_char(name) == '>');
    }
}

/// Law: unescaping undoes escaping, for every text. Escaping turns every
/// literal `&` into `&amp;`, so the escaped form contains ampersands only
/// as entity openers and the lossy fallback of `un_escape_ascii` is never
/// reached on it.
pub proof fn lemma_unescape_escape(s: Seq<char>)
    ensures
        unescaped(escaped(s)) == s,
    decreases s.len(),
{
    if s.len() == 0 {
    } else {
        let c = s[0];
        let rest = escaped(s.skip(1));
        lemma_unescape_escape(s.skip(1));
        if reserved(c) {
            lemma_unescape_entity(c, rest);
        } else {
            let w = seq![c] + rest;
            assert(w[0] == c);
            assert(c != '&');
            assert(w.skip(1) =~= rest);
            assert(unescaped(escape_char(c) + rest) == seq![c] + unescaped(rest));
        }
        assert(seq![c] + s.skip(1) =~= s);
    }
}

/// Law: escaping is injective — two texts with the same escaped form are
/// the same text.
pub proof fn lemma_escape_injective(a: Seq<char>, b: Seq<char>)
    requires
        escaped(a) == escaped(b),
    ensures
        a == b,
{
    lemma_unescape_escape(a);
    lemma_unescape_escape(b);
}

/// Replaces each occurrence of the five reserved characters with its named
/// entity, in a single pass that never re-scans produced output.
pub fn escape_ascii(s: &str) -> (r: String)
    ensures
        r@ == escaped(s@),
{
    let n = s.unicode_len();
    let mut r = String::new();
    let mut i: usize = 0;
    proof {
        reveal_strlit("&quot;");
        reveal_strlit("&apos;");
        reveal_strlit("&amp;");
        reveal_strlit("&lt;");
        reveal_strlit("&gt;");
        assert("&quot;"@ =~= seq!['&', 'q', 'u', 'o', 't', ';']);
        assert("&apos;"@ =~= seq!['&', 'a', 'p', 'o', 's', ';']);
        assert("&amp;"@ =~= seq!['&', 'a', 'm', 'p', ';']);
        assert("&lt;"@ =~= seq!['&', 'l', 't', ';']);
        assert("&gt;"@ =~= seq!['&', 'g', 't', ';']);
    }
    while i < n
        invariant
            n == s@.len(),
            i <= n,
            r@ == escaped(s@.take(i as int)),
            "&quot;"@ == seq!['&', 'q', 'u', 'o', 't', ';'],
            "&apos;"@ == seq!['&', 'a', 'p', 'o', 's', ';'],
            "&amp;"@ == seq!['&', 'a', 'm', 'p', ';'],
            "&lt;"@ == seq!['&', 'l', 't', ';'],
            "&gt;"@ == seq!['&', 'g', 't', ';'],
        decreases n - i,
    {
        let c = s.get_char(i);
        if c == '"' {
            r.append("&quot;");
        } else if c == '\'' {
            r.append("&apos;");
        } else if c == '&' {
            r.append("&amp;");
        } else if c == '<' {
            r.append("&lt;");
        } else if c == '>' {
            r.append("&gt;");
        } else {
            push_char(&mut r, c);
        }
        proof {
            lemma_escaped_snoc(s@.take(i as int), c);
            assert(s@.take(i + 1) =~= s@.take(i as int).push(c));
            if !reserved(c) {
                assert(escaped(s@.take(i as int)).push(c) =~= escaped(s@.take(i as int))
                    + escape_char(c));
            }
        }
        i += 1;
    }
    proof {
        assert(s@.take(n as int) =~= s@);
    }
    r
}

/// Picks the literal character an entity name stands for.
fn entity_lookup(name: &String) -> (c: char)
    ensures
        c == entity_char(name@),
{
    proof {
        reveal_strlit("quot");
        reveal_strlit("apos");
        reveal_strlit("amp");
        reveal_strlit("lt");
        reveal_strlit("gt");
        assert("quot"@ =~= seq!['q', 'u', 'o', 't']);
        assert("apos"@ =~= seq!['a', 'p', 'o', 's']);
        assert("amp"@ =~= seq!['a', 'm', 'p']);
        assert("lt"@ =~= seq!['l', 't']);
        assert("gt"@ =~= seq!['g', 't']);
    }
    if *name == "quot".to_owned() {
        '"'
    } else if *name == "apos".to_owned() {
        '\''
    } else if *name == "amp".to_owned() {
        '&'
    } else if *name == "lt".to_owned() {
        '<'
    } else if *name == "gt".to_owned() {
        '>'
    } else {
        '&'
    }
}

/// Scans left to right; a `&` starts an entity whose name runs to the next
/// `;` (or to the end of input); known names become their literal character,
/// unknown ones a plain `&`, their consumed characters discarded.
pub fn un_escape_ascii(s: &str) -> (r: String)
    ensures
        r@ == unescaped(s@),
{
    let n = s.unicode_len();
    let mut r = String::new();
    let mut i: usize = 0;
    proof {
        assert(s@.skip(0) =~= s@);
        assert(r@ + unescaped(s@) =~= unescaped(s@));
    }
    while i < n
        invariant
            n == s@.len(),
            i <= n,
            unescaped(s@) == r@ + unescaped(s@.skip(i as int)),
        decreases n - i,
    {
        let c = s.get_char(i);
        if c != '&' {
            push_char(&mut r, c);
            proof {
                assert(s@.skip(i as int).skip(1) =~= s@.skip(i + 1));
                assert(r@ =~= (r@.drop_last() + seq![c]));
                assert(r@.drop_last() + (seq![c] + unescaped(s@.skip(i + 1))) =~= r@ + unescaped(
                    s@.skip(i + 1),
                ));
            }
            i += 1;
        } else {
            let mut name = String::new();
            let mut j: usize = i + 1;
            let mut hit_semi = false;
            proof {
                assert(s@.skip(i as int).skip(1) =~= s@.skip(j as int));
            }
            while j < n && !hit_semi
                invariant
                    n == s@.len(),
                    i < j <= n,
                    unescaped(s@) == r@ + scan_entity(s@.skip(j as int), name@),
                    hit_semi ==> j < n && s@[j as int] == ';',
                decreases 2 * (n - j) + (if hit_semi { 0int } else { 1int }),
            {
                let c2 = s.get_char(j);
                if c2 == ';' {
                    hit_semi = true;
                } else {
                    push_char(&mut name, c2);
                    proof {
                        assert(s@.skip(j as int).skip(1) =~= s@.skip(j + 1));
                    }
                    j += 1;
                }
            }
            let ch = entity_lookup(&name);
            push_char(&mut r, ch);
            proof {
                if hit_semi {
                    assert(s@.skip(j as int).skip(1) =~= s@.skip(j + 1));
                    assert(r@.drop_last() + (seq![ch] + unescaped(s@.skip(j + 1))) =~= r@
                        + unescaped(s@.skip(j + 1)));
                } else {
                    assert(s@.skip(j as int) =~= Seq::<char>::empty());
                    assert(r@.drop_last() + seq![ch] =~= r@);
                    assert(unescaped(s@.skip(n as int)) =~= Seq::<char>::empty());
                    assert(r@.drop_last() + (seq![ch] + unescaped(s@.skip(n as int))) =~= r@
                        + unescaped(s@.skip(n as int)));
                }
            }
            if hit_semi {
                i = j + 1;
            } else {
                i = j;
            }
        }
    }
    proof {
        assert(unescaped(s@.skip(n as int)) =~= Seq::<char>::empty());
        assert(r@ + unescaped(s@.skip(n as int)) =~= r@);
    }
    r
}

} // verus!
