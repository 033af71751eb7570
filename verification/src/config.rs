//! The ignore list: user regexes (unanchored, matched regardless of case) whose
//! matching commands are not recorded and are soft-deleted by `prune ignore`.

use vstd::prelude::*;

use crate::db::select;
use crate::rank::views;

verus! {

#[verifier::external_type_specification]
#[verifier::external_body]
pub struct ExRegex(regex::Regex);

/// The regex crate compiles `pattern` case-insensitively (it is valid and
/// within the default size limit).
pub uninterp spec fn regex_accepts(pattern: Seq<char>) -> bool;

/// The message of the error the regex crate gives for a pattern it refuses.
pub uninterp spec fn regex_error(pattern: Seq<char>) -> Seq<char>;

/// The regex compiled case-insensitively from `pattern` matches somewhere in
/// `haystack`.
pub uninterp spec fn regex_finds(pattern: Seq<char>, haystack: Seq<char>) -> bool;

/// `regex::RegexBuilder::new(pattern).case_insensitive(true).build()`:
/// succeeds exactly for the patterns the crate accepts; the error is rendered
/// as its message.
#[verifier::external_body]
fn regex_build(pattern: &str) -> (r: Result<regex::Regex, String>)
    ensures
        r is Ok <==> regex_accepts(pattern@),
        r matches Err(e) ==> e@ == regex_error(pattern@),
{
    match regex::RegexBuilder::new(pattern).case_insensitive(true).build() {
        Ok(re) => Ok(re),
        Err(e) => Err(e.to_string()),
    }
}

/// A compiled ignore pattern together with its source text.
pub struct IgnorePattern {
    source: String,
    regex: regex::Regex,
}

impl View for IgnorePattern {
    type V = Seq<char>;

    closed spec fn view(&self) -> Seq<char> {
        self.source@
    }
}

/// `regex::Regex::is_match` on the regex compiled (case-insensitively) from
/// the pattern's source: whether it matches anywhere in `text`.
#[verifier::external_body]
fn regex_is_match(p: &IgnorePattern, text: &str) -> (r: bool)
    ensures
        r == regex_finds(p@, text@),
{
    p.regex.is_match(text)
}

impl IgnorePattern {
    /// The pattern's source text.
    pub fn source(&self) -> (r: &String)
        ensures
            r@ == self@,
    {
        &self.source
    }
}

/// Compiles one pattern, ignoring case; the error is the regex crate's message.
pub fn compile_one(pattern: &str) -> (r: Result<IgnorePattern, String>)
    ensures
        r is Ok <==> regex_accepts(pattern@),
        r matches Ok(p) ==> p@ == pattern@,
        r matches Err(e) ==> e@ == regex_error(pattern@),
{
    match regex_build(pattern) {
        Ok(regex) => Ok(IgnorePattern { source: pattern.to_string(), regex }),
        Err(e) => Err(e),
    }
}

/// Compile patterns (matching ignores case). Returns the successfully compiled
/// regexes and, separately, a list of (pattern, error message) for any that
/// failed, both in input order.
pub fn compile(patterns: &[String]) -> (r: (Vec<IgnorePattern>, Vec<(String, String)>))
    ensures
        views(r.0@) == select(views(patterns@), |p: Seq<char>| regex_accepts(p)),
        views(r.1@) == select(views(patterns@), |p: Seq<char>| !regex_accepts(p)).map_values(
            |p: Seq<char>| (p, regex_error(p)),
        ),
{
    let ghost pv = views(patterns@);
    let ghost ok = |p: Seq<char>| regex_accepts(p);
    let ghost bad_p = |p: Seq<char>| !regex_accepts(p);
    let mut good: Vec<IgnorePattern> = Vec::new();
    let mut bad: Vec<(String, String)> = Vec::new();
    let mut i: usize = 0;
    assert(pv.take(0) =~= Seq::<Seq<char>>::empty());
    while i < patterns.len()
        invariant
            i <= patterns.len(),
            pv == views(patterns@),
            ok == (|p: Seq<char>| regex_accepts(p)),
            bad_p == (|p: Seq<char>| !regex_accepts(p)),
            views(good@) == select(pv.take(i as int), ok),
            views(bad@) == select(pv.take(i as int), bad_p).map_values(
                |p: Seq<char>| (p, regex_error(p)),
            ),
        decreases patterns.len() - i,
    {
        let p = &patterns[i];
        assert(pv.take(i + 1).drop_last() =~= pv.take(i as int));
        assert(pv.take(i + 1).last() == p@);
        match compile_one(p.as_str()) {
            Ok(re) => {
                let ghost before = views(good@);
                good.push(re);
                assert(views(good@) =~= before.push(p@));
            },
            Err(e) => {
                let ghost before = views(bad@);
                let ghost sel = select(pv.take(i as int), bad_p);
                bad.push((p.clone(), e));
                assert(views(bad@) =~= before.push((p@, regex_error(p@))));
                assert(select(pv.take(i + 1), bad_p) =~= sel.push(p@));
                assert(select(pv.take(i + 1), bad_p).map_values(
                    |p: Seq<char>| (p, regex_error(p)),
                ) =~= sel.map_values(|p: Seq<char>| (p, regex_error(p))).push(
                    (p@, regex_error(p@)),
                ));
            },
        }
        i = i + 1;
    }
    assert(pv.take(patterns.len() as int) =~= pv);
    (good, bad)
}

/// Some pattern matches somewhere in `text`.
pub open spec fn ignored_by(patterns: Seq<Seq<char>>, text: Seq<char>) -> bool {
    exists|i: int| 0 <= i < patterns.len() && regex_finds(#[trigger] patterns[i], text)
}

/// True if `cmd` matches any of the (unanchored) patterns.
pub fn is_ignored(cmd: &str, patterns: &[IgnorePattern]) -> (r: bool)
    ensures
        r == ignored_by(views(patterns@), cmd@),
{
    let ghost pv = views(patterns@);
    let mut i: usize = 0;
    while i < patterns.len()
        invariant
            i <= patterns.len(),
            pv == views(patterns@),
            forall|j: int| 0 <= j < i ==> !regex_finds(#[trigger] pv[j], cmd@),
        decreases patterns.len() - i,
    {
        if regex_is_match(&patterns[i], cmd) {
            assert(pv[i as int] == patterns@[i as int]@);
            return true;
        }
        i = i + 1;
    }
    false
}

} // verus!
