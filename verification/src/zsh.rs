//! Reading commands out of a zsh history file: plain lines, or extended
//! history lines `: <start>:<elapsed>;<command>`.

use vstd::prelude::*;

use crate::text::{string_of_range, trim_bounds, trimmed};

verus! {

/// Position of the first `c` in `s`, or -1.
pub open spec fn find_char(s: Seq<char>, c: char) -> int
    decreases s.len(),
{
    if s.len() == 0 {
        -1
    } else if s[0] == c {
        0
    } else {
        let r = find_char(s.drop_first(), c);
        if r < 0 {
            -1
        } else {
            r + 1
        }
    }
}

pub proof fn lemma_find_char_range(s: Seq<char>, c: char)
    ensures
        -1 <= find_char(s, c) < s.len(),
    decreases s.len(),
{
    if s.len() > 0 {
        lemma_find_char_range(s.drop_first(), c);
    }
}

proof fn lemma_find_char_at(s: Seq<char>, c: char, k: int)
    requires
        0 <= k <= s.len(),
        forall|j: int| 0 <= j < k ==> s[j] != c,
        k == s.len() || s[k] == c,
    ensures
        find_char(s, c) == (if k < s.len() {
            k
        } else {
            -1
        }),
    decreases k,
{
    if k > 0 {
        let t = s.drop_first();
        assert forall|j: int| 0 <= j < k - 1 implies t[j] != c by {
            assert(t[j] == s[j + 1]);
        }
        if k < s.len() {
            assert(t[k - 1] == s[k]);
        }
        lemma_find_char_at(t, c, k - 1);
    }
}

/// A line as `str::lines` yields it: a line ended by `\n` loses one trailing `\r`.
pub open spec fn without_cr(line: Seq<char>) -> Seq<char> {
    if line.len() > 0 && line.last() == '\r' {
        line.drop_last()
    } else {
        line
    }
}

/// The first line of `s` (without its line ending).
pub open spec fn first_line(s: Seq<char>) -> Seq<char> {
    let k = find_char(s, '\n');
    if k < 0 {
        s
    } else {
        without_cr(s.take(k))
    }
}

/// What follows the first line ending of `s` (empty when there is none).
pub open spec fn after_first_line(s: Seq<char>) -> Seq<char> {
    let k = find_char(s, '\n');
    if k < 0 {
        Seq::empty()
    } else {
        s.skip(k + 1)
    }
}

/// The command of one history line: for an extended-history line (starting
/// with `:`) the trimmed text after its first `;` (empty when there is none),
/// otherwise the trimmed line.
pub open spec fn history_entry(line: Seq<char>) -> Seq<char> {
    if line.len() > 0 && line[0] == ':' {
        let rest = line.drop_first();
        let k = find_char(rest, ';');
        if k < 0 {
            Seq::empty()
        } else {
            trimmed(rest.skip(k + 1))
        }
    } else {
        trimmed(line)
    }
}

/// The non-empty commands of a history file's lines, in order.
pub open spec fn zsh_commands(s: Seq<char>) -> Seq<Seq<char>>
    decreases s.len(),
{
    if s.len() == 0 {
        Seq::empty()
    } else {
        let e = history_entry(first_line(s));
        proof {
            lemma_find_char_range(s, '\n');
        }
        let rest = zsh_commands(after_first_line(s));
        if e.len() > 0 {
            seq![e] + rest
        } else {
            rest
        }
    }
}

/// First position at or after `from` holding `c` (`to` when none before `to`).
fn find_from(v: &Vec<char>, c: char, from: usize, to: usize) -> (k: usize)
    requires
        from <= to <= v.len(),
    ensures
        from <= k <= to,
        forall|j: int| from <= j < k ==> v@[j] != c,
        k == to || v@[k as int] == c,
{
    let mut k = from;
    while k < to && v[k] != c
        invariant
            from <= k <= to <= v.len(),
            forall|j: int| from <= j < k ==> v@[j] != c,
        decreases to - k,
    {
        k = k + 1;
    }
    k
}

/// Trimmed text of `v[from..to]`.
fn trimmed_range(v: &Vec<char>, from: usize, to: usize) -> (r: String)
    requires
        from <= to <= v.len(),
    ensures
        r@ == trimmed(v@.subrange(from as int, to as int)),
{
    let mut part: Vec<char> = Vec::new();
    let mut i = from;
    while i < to
        invariant
            from <= i <= to <= v.len(),
            part@ == v@.subrange(from as int, i as int),
        decreases to - i,
    {
        part.push(v[i]);
        i = i + 1;
        assert(part@ =~= v@.subrange(from as int, i as int));
    }
    let (a, b) = trim_bounds(&part);
    string_of_range(&part, a, b)
}

/// The command of the line `v[from..to]`.
fn entry_of_line(v: &Vec<char>, from: usize, to: usize) -> (r: String)
    requires
        from <= to <= v.len(),
    ensures
        r@ == history_entry(v@.subrange(from as int, to as int)),
{
    let ghost line = v@.subrange(from as int, to as int);
    if from < to && v[from] == ':' {
        let ghost rest = line.drop_first();
        let k = find_from(v, ';', from + 1, to);
        proof {
            assert(rest =~= v@.subrange(from + 1, to as int));
            assert forall|j: int| 0 <= j < k - (from + 1) implies rest[j] != ';' by {
                assert(rest[j] == v@[j + from + 1]);
            }
            if k < to {
                assert(rest[k - (from + 1)] == v@[k as int]);
            }
            lemma_find_char_at(rest, ';', k - (from + 1));
        }
        if k < to {
            assert(rest.skip(k - from) =~= v@.subrange(k + 1, to as int));
            trimmed_range(v, k + 1, to)
        } else {
            String::new()
        }
    } else {
        trimmed_range(v, from, to)
    }
}

/// The commands of a zsh history file's text, in order; empty lines and lines
/// whose command is empty are skipped.
pub fn parse_zsh_history(content: &Vec<char>) -> (r: Vec<String>)
    ensures
        crate::rank::views(r@) == zsh_commands(content@),
{
    let v = content;
    let n = v.len();
    let ghost all = zsh_commands(v@);
    let mut out: Vec<String> = Vec::new();
    let mut start: usize = 0;
    assert(v@.subrange(0, n as int) =~= v@);
    while start < n
        invariant
            start <= n == v.len(),
            all == zsh_commands(v@),
            crate::rank::views(out@) + zsh_commands(v@.subrange(start as int, n as int)) == all,
        decreases n - start,
    {
        let ghost s = v@.subrange(start as int, n as int);
        let k = find_from(v, '\n', start, n);
        proof {
            assert forall|j: int| 0 <= j < k - start implies s[j] != '\n' by {
                assert(s[j] == v@[j + start]);
            }
            if k < n {
                assert(s[k - start] == v@[k as int]);
            }
            lemma_find_char_at(s, '\n', k - start);
        }
        let mut end = k;
        if k < n && end > start && v[end - 1] == '\r' {
            end = end - 1;
        }
        proof {
            if k < n {
                assert(s.take(k - start) =~= v@.subrange(start as int, k as int));
                if k > start && v@[k - 1] == '\r' {
                    assert(without_cr(s.take(k - start)) =~= v@.subrange(start as int, end as int));
                } else {
                    assert(without_cr(s.take(k - start)) =~= v@.subrange(start as int, end as int));
                }
                assert(after_first_line(s) =~= v@.subrange(k + 1, n as int));
            } else {
                assert(s =~= v@.subrange(start as int, end as int));
                assert(after_first_line(s) =~= Seq::<char>::empty());
                assert(v@.subrange(n as int, n as int) =~= Seq::<char>::empty());
            }
        }
        let e = entry_of_line(v, start, end);
        let next = if k < n {
            k + 1
        } else {
            n
        };
        let ghost before = crate::rank::views(out@);
        if !e.as_str().is_empty() {
            out.push(e);
            assert(crate::rank::views(out@) =~= before.push(e@));
        }
        proof {
            assert(after_first_line(s) =~= v@.subrange(next as int, n as int));
            let tail = zsh_commands(v@.subrange(next as int, n as int));
            if e@.len() > 0 {
                assert(zsh_commands(s) == seq![e@] + tail);
                assert(crate::rank::views(out@) + tail =~= before + (seq![e@] + tail));
            } else {
                assert(zsh_commands(s) == tail);
            }
        }
        start = next;
    }
    assert(zsh_commands(v@.subrange(n as int, n as int)) =~= Seq::<Seq<char>>::empty());
    assert(crate::rank::views(out@) =~= all);
    out
}

} // verus!
