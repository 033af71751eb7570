//! SQL `LIKE ... ESCAPE '\'` as SQLite evaluates it (ASCII letters match
//! regardless of case), and the escaping that makes a typed prefix match
//! literally.

use vstd::prelude::*;

use crate::text::{chars_of, push_char};

verus! {

pub open spec fn is_ascii_upper(c: char) -> bool {
    'A' <= c && c <= 'Z'
}

/// Two characters match in `LIKE`: equal, or the same ASCII letter in
/// different case.
pub open spec fn like_char_eq(a: char, b: char) -> bool {
    ||| a == b
    ||| is_ascii_upper(a) && (b as int) == (a as int) + 32
    ||| is_ascii_upper(b) && (a as int) == (b as int) + 32
}

/// `t LIKE p ESCAPE '\'`: `%` matches any run of characters, `_` any single
/// character, `\` makes the next pattern character literal (a trailing `\`
/// matches nothing); other characters match by `like_char_eq`.
pub open spec fn sql_like(p: Seq<char>, t: Seq<char>) -> bool
    decreases p.len(), t.len(),
{
    if p.len() == 0 {
        t.len() == 0
    } else if p[0] == '%' {
        sql_like(p.drop_first(), t) || (t.len() > 0 && sql_like(p, t.drop_first()))
    } else if p[0] == '_' {
        t.len() > 0 && sql_like(p.drop_first(), t.drop_first())
    } else if p[0] == '\\' {
        p.len() >= 2 && t.len() > 0 && like_char_eq(p[1], t[0]) && sql_like(
            p.subrange(2, p.len() as int),
            t.drop_first(),
        )
    } else {
        t.len() > 0 && like_char_eq(p[0], t[0]) && sql_like(p.drop_first(), t.drop_first())
    }
}

/// `t` starts with `p`, ASCII letters compared regardless of case.
pub open spec fn like_prefix(p: Seq<char>, t: Seq<char>) -> bool {
    p.len() <= t.len() && forall|i: int| 0 <= i < p.len() ==> like_char_eq(#[trigger] p[i], t[i])
}

/// The escape of one character.
pub open spec fn escape_char(c: char) -> Seq<char> {
    if c == '\\' || c == '%' || c == '_' {
        seq!['\\', c]
    } else {
        seq![c]
    }
}

/// `s` with `\`, `%` and `_` each preceded by `\`.
pub open spec fn escaped(s: Seq<char>) -> Seq<char>
    decreases s.len(),
{
    if s.len() == 0 {
        Seq::empty()
    } else {
        escape_char(s[0]) + escaped(s.drop_first())
    }
}

pub proof fn lemma_escaped_push(s: Seq<char>, c: char)
    ensures
        escaped(s.push(c)) == escaped(s) + escape_char(c),
    decreases s.len(),
{
    if s.len() == 0 {
        assert(s.push(c).drop_first() =~= Seq::<char>::empty());
        assert(s.push(c)[0] == c);
        assert(escaped(s.push(c).drop_first()) =~= Seq::<char>::empty());
        assert(escaped(s) =~= Seq::<char>::empty());
        assert(escaped(s.push(c)) =~= escape_char(c) + Seq::<char>::empty());
        assert(escaped(s.push(c)) =~= escaped(s) + escape_char(c));
    } else {
        lemma_escaped_push(s.drop_first(), c);
        assert(s.push(c).drop_first() =~= s.drop_first().push(c));
        assert(escaped(s.push(c)) =~= escaped(s) + escape_char(c));
    }
}

proof fn lemma_like_any(t: Seq<char>)
    ensures
        sql_like(seq!['%'], t),
    decreases t.len(),
{
    assert(seq!['%'].drop_first() =~= Seq::<char>::empty());
    assert(seq!['%'][0] == '%');
    assert(seq!['%'].len() == 1);
    let e = Seq::<char>::empty();
    assert(sql_like(e, t) == (t.len() == 0));
    assert(seq!['%'].drop_first() == e);
    if t.len() > 0 {
        lemma_like_any(t.drop_first());
        assert(sql_like(seq!['%'], t.drop_first()));
    } else {
        assert(sql_like(seq!['%'].drop_first(), t));
    }
}

/// An escaped prefix followed by `%` matches exactly the texts that start with
/// the prefix (ASCII letters regardless of case): the user's text is taken
/// literally.
pub proof fn lemma_escaped_prefix_like(p: Seq<char>, t: Seq<char>)
    ensures
        sql_like(escaped(p).push('%'), t) == like_prefix(p, t),
    decreases p.len(),
{
    if p.len() == 0 {
        assert(escaped(p).push('%') =~= seq!['%']);
        lemma_like_any(t);
    } else {
        let c = p[0];
        let rest = escaped(p.drop_first()).push('%');
        lemma_escaped_prefix_like(p.drop_first(), t.drop_first());
        let pat = escaped(p).push('%');
        assert(pat =~= escape_char(c) + rest);
        if t.len() > 0 {
            assert(like_prefix(p, t) == (like_char_eq(c, t[0]) && like_prefix(
                p.drop_first(),
                t.drop_first(),
            ))) by {
                if like_prefix(p, t) {
                    assert forall|i: int| 0 <= i < p.len() - 1 implies like_char_eq(
                        #[trigger] p.drop_first()[i],
                        t.drop_first()[i],
                    ) by {
                        assert(like_char_eq(p[i + 1], t[i + 1]));
                    }
                }
                if like_char_eq(c, t[0]) && like_prefix(p.drop_first(), t.drop_first()) {
                    assert forall|i: int| 0 <= i < p.len() implies like_char_eq(
                        #[trigger] p[i],
                        t[i],
                    ) by {
                        if i > 0 {
                            assert(like_char_eq(p.drop_first()[i - 1], t.drop_first()[i - 1]));
                        }
                    }
                }
            }
        }
        if c == '\\' || c == '%' || c == '_' {
            assert(pat[0] == '\\' && pat[1] == c);
            assert(pat.subrange(2, pat.len() as int) =~= rest);
        } else {
            assert(pat[0] == c);
            assert(pat.drop_first() =~= rest);
        }
    }
}

/// Escapes `%` and `_` (and the escape character `\` itself) so that a
/// user-typed prefix is matched literally in `LIKE ... ESCAPE '\'`.
pub fn escape_like(s: &str) -> (r: String)
    ensures
        r@ == escaped(s@),
{
    let v = chars_of(s);
    let mut r = String::new();
    let mut i: usize = 0;
    assert(v@.take(0) =~= Seq::<char>::empty());
    while i < v.len()
        invariant
            i <= v.len(),
            r@ == escaped(v@.take(i as int)),
        decreases v.len() - i,
    {
        let c = v[i];
        proof {
            lemma_escaped_push(v@.take(i as int), c);
            assert(v@.take(i + 1) =~= v@.take(i as int).push(c));
        }
        if c == '\\' || c == '%' || c == '_' {
            push_char(&mut r, '\\');
        }
        push_char(&mut r, c);
        assert(r@ =~= escaped(v@.take(i + 1)));
        i = i + 1;
    }
    assert(v@.take(v.len() as int) =~= v@);
    r
}

pub fn char_eq_like(a: char, b: char) -> (r: bool)
    ensures
        r == like_char_eq(a, b),
{
    a == b || ('A' <= a && a <= 'Z' && (b as u32) == (a as u32) + 32) || ('A' <= b && b <= 'Z'
        && (a as u32) == (b as u32) + 32)
}

/// Whether `t` starts with `p`, ASCII letters compared regardless of case.
pub fn starts_with_like(p: &Vec<char>, t: &Vec<char>) -> (r: bool)
    ensures
        r == like_prefix(p@, t@),
{
    if p.len() > t.len() {
        return false;
    }
    let mut i: usize = 0;
    while i < p.len()
        invariant
            i <= p.len() <= t.len(),
            forall|j: int| 0 <= j < i ==> like_char_eq(#[trigger] p@[j], t@[j]),
        decreases p.len() - i,
    {
        if !char_eq_like(p[i], t[i]) {
            return false;
        }
        i = i + 1;
    }
    true
}

} // verus!
