//! The rows the queries return, and the orders in which they are returned.

use vstd::prelude::*;
use vstd::relations::total_ordering;

use crate::rank::Rank;
use crate::text::{
    lemma_text_le_antisymmetric, lemma_text_le_reflexive, lemma_text_le_total,
    lemma_text_le_transitive, string_le, text_le,
};

verus! {

/// A text (a command or a directory) with how many rows it has.
/// Ordered by count descending, then text ascending.
pub struct Counted {
    pub text: String,
    pub count: i64,
}

impl View for Counted {
    type V = (Seq<char>, i64);

    open spec fn view(&self) -> (Seq<char>, i64) {
        (self.text@, self.count)
    }
}

impl Rank for Counted {
    open spec fn rank_le(a: (Seq<char>, i64), b: (Seq<char>, i64)) -> bool {
        a.1 > b.1 || (a.1 == b.1 && text_le(a.0, b.0))
    }

    proof fn lemma_rank_total() {
        let f = |a: (Seq<char>, i64), b: (Seq<char>, i64)| Self::rank_le(a, b);
        assert forall|a: (Seq<char>, i64)| #[trigger] f(a, a) by {
            lemma_text_le_reflexive(a.0);
        }
        assert forall|a: (Seq<char>, i64), b: (Seq<char>, i64)|
            #[trigger] f(a, b) && #[trigger] f(b, a) implies a == b by {
            lemma_text_le_antisymmetric(a.0, b.0);
        }
        assert forall|a: (Seq<char>, i64), b: (Seq<char>, i64), c: (Seq<char>, i64)|
            #[trigger] f(a, b) && #[trigger] f(b, c) implies f(a, c) by {
            if a.1 == b.1 && b.1 == c.1 {
                lemma_text_le_transitive(a.0, b.0, c.0);
            }
        }
        assert forall|a: (Seq<char>, i64), b: (Seq<char>, i64)|
            #[trigger] f(a, b) || #[trigger] f(b, a) by {
            lemma_text_le_total(a.0, b.0);
        }
    }

    fn ranks_before(&self, other: &Self) -> (r: bool) {
        self.count > other.count || (self.count == other.count && string_le(
            &self.text,
            &other.text,
        ))
    }
}

/// A favorite: ordered newest first, then by command.
pub struct FavEntry {
    pub cmd: String,
    pub created_ts: i64,
    pub noted: bool,
}

impl View for FavEntry {
    type V = (Seq<char>, i64, bool);

    open spec fn view(&self) -> (Seq<char>, i64, bool) {
        (self.cmd@, self.created_ts, self.noted)
    }
}

impl Rank for FavEntry {
    open spec fn rank_le(a: (Seq<char>, i64, bool), b: (Seq<char>, i64, bool)) -> bool {
        a.1 > b.1 || (a.1 == b.1 && a.0 != b.0 && text_le(a.0, b.0)) || (a.1 == b.1 && a.0 == b.0
            && (!a.2 || b.2))
    }

    proof fn lemma_rank_total() {
        let f = |a: (Seq<char>, i64, bool), b: (Seq<char>, i64, bool)| Self::rank_le(a, b);
        assert forall|a: (Seq<char>, i64, bool)| #[trigger] f(a, a) by {}
        assert forall|a: (Seq<char>, i64, bool), b: (Seq<char>, i64, bool)|
            #[trigger] f(a, b) && #[trigger] f(b, a) implies a == b by {
            if a.0 != b.0 && a.1 == b.1 {
                lemma_text_le_antisymmetric(a.0, b.0);
            }
        }
        assert forall|
            a: (Seq<char>, i64, bool),
            b: (Seq<char>, i64, bool),
            c: (Seq<char>, i64, bool),
        | #[trigger] f(a, b) && #[trigger] f(b, c) implies f(a, c) by {
            if a.1 == b.1 && b.1 == c.1 {
                if a.0 != b.0 && b.0 != c.0 {
                    lemma_text_le_transitive(a.0, b.0, c.0);
                    if a.0 == c.0 {
                        lemma_text_le_antisymmetric(a.0, b.0);
                    }
                }
            }
        }
        assert forall|a: (Seq<char>, i64, bool), b: (Seq<char>, i64, bool)|
            #[trigger] f(a, b) || #[trigger] f(b, a) by {
            lemma_text_le_total(a.0, b.0);
        }
    }

    fn ranks_before(&self, other: &Self) -> (r: bool) {
        if self.created_ts != other.created_ts {
            self.created_ts > other.created_ts
        } else if self.cmd != other.cmd {
            string_le(&self.cmd, &other.cmd)
        } else {
            !self.noted || other.noted
        }
    }
}

/// An error-prone command: ordered by failures descending, then runs
/// descending, then command.
pub struct ErrorEntry {
    pub cmd: String,
    pub failures: i64,
    pub runs: i64,
}

impl View for ErrorEntry {
    type V = (Seq<char>, i64, i64);

    open spec fn view(&self) -> (Seq<char>, i64, i64) {
        (self.cmd@, self.failures, self.runs)
    }
}

impl Rank for ErrorEntry {
    open spec fn rank_le(a: (Seq<char>, i64, i64), b: (Seq<char>, i64, i64)) -> bool {
        a.1 > b.1 || (a.1 == b.1 && a.2 > b.2) || (a.1 == b.1 && a.2 == b.2 && text_le(a.0, b.0))
    }

    proof fn lemma_rank_total() {
        let f = |a: (Seq<char>, i64, i64), b: (Seq<char>, i64, i64)| Self::rank_le(a, b);
        assert forall|a: (Seq<char>, i64, i64)| #[trigger] f(a, a) by {
            lemma_text_le_reflexive(a.0);
        }
        assert forall|a: (Seq<char>, i64, i64), b: (Seq<char>, i64, i64)|
            #[trigger] f(a, b) && #[trigger] f(b, a) implies a == b by {
            lemma_text_le_antisymmetric(a.0, b.0);
        }
        assert forall|a: (Seq<char>, i64, i64), b: (Seq<char>, i64, i64), c: (Seq<char>, i64, i64)|
            #[trigger] f(a, b) && #[trigger] f(b, c) implies f(a, c) by {
            if a.1 == b.1 && b.1 == c.1 && a.2 == b.2 && b.2 == c.2 {
                lemma_text_le_transitive(a.0, b.0, c.0);
            }
        }
        assert forall|a: (Seq<char>, i64, i64), b: (Seq<char>, i64, i64)|
            #[trigger] f(a, b) || #[trigger] f(b, a) by {
            lemma_text_le_total(a.0, b.0);
        }
    }

    fn ranks_before(&self, other: &Self) -> (r: bool) {
        self.failures > other.failures || (self.failures == other.failures && self.runs
            > other.runs) || (self.failures == other.failures && self.runs == other.runs
            && string_le(&self.cmd, &other.cmd))
    }
}

/// A soft-deleted command: ordered by deletion time descending, then command,
/// then run count.
pub struct DeletedEntry {
    pub cmd: String,
    pub deleted_ts: i64,
    pub runs: i64,
}

impl View for DeletedEntry {
    type V = (Seq<char>, i64, i64);

    open spec fn view(&self) -> (Seq<char>, i64, i64) {
        (self.cmd@, self.deleted_ts, self.runs)
    }
}

impl Rank for DeletedEntry {
    open spec fn rank_le(a: (Seq<char>, i64, i64), b: (Seq<char>, i64, i64)) -> bool {
        a.1 > b.1 || (a.1 == b.1 && a.0 != b.0 && text_le(a.0, b.0)) || (a.1 == b.1 && a.0 == b.0
            && a.2 <= b.2)
    }

    proof fn lemma_rank_total() {
        let f = |a: (Seq<char>, i64, i64), b: (Seq<char>, i64, i64)| Self::rank_le(a, b);
        assert forall|a: (Seq<char>, i64, i64)| #[trigger] f(a, a) by {}
        assert forall|a: (Seq<char>, i64, i64), b: (Seq<char>, i64, i64)|
            #[trigger] f(a, b) && #[trigger] f(b, a) implies a == b by {
            if a.0 != b.0 && a.1 == b.1 {
                lemma_text_le_antisymmetric(a.0, b.0);
            }
        }
        assert forall|a: (Seq<char>, i64, i64), b: (Seq<char>, i64, i64), c: (Seq<char>, i64, i64)|
            #[trigger] f(a, b) && #[trigger] f(b, c) implies f(a, c) by {
            if a.1 == b.1 && b.1 == c.1 {
                if a.0 != b.0 && b.0 != c.0 {
                    lemma_text_le_transitive(a.0, b.0, c.0);
                    if a.0 == c.0 {
                        lemma_text_le_antisymmetric(a.0, b.0);
                    }
                }
            }
        }
        assert forall|a: (Seq<char>, i64, i64), b: (Seq<char>, i64, i64)|
            #[trigger] f(a, b) || #[trigger] f(b, a) by {
            lemma_text_le_total(a.0, b.0);
        }
    }

    fn ranks_before(&self, other: &Self) -> (r: bool) {
        if self.deleted_ts != other.deleted_ts {
            self.deleted_ts > other.deleted_ts
        } else if self.cmd != other.cmd {
            string_le(&self.cmd, &other.cmd)
        } else {
            self.runs <= other.runs
        }
    }
}

/// How often a command ended with an exit code (`None`: never finished).
/// Ordered by code ascending with `None` first, as SQL orders NULL.
pub struct ExitTally {
    pub code: Option<i64>,
    pub count: i64,
}

impl View for ExitTally {
    type V = (Option<i64>, i64);

    open spec fn view(&self) -> (Option<i64>, i64) {
        (self.code, self.count)
    }
}

pub open spec fn code_before(a: Option<i64>, b: Option<i64>) -> bool {
    match (a, b) {
        (None, Some(_)) => true,
        (Some(x), Some(y)) => x < y,
        _ => false,
    }
}

impl Rank for ExitTally {
    open spec fn rank_le(a: (Option<i64>, i64), b: (Option<i64>, i64)) -> bool {
        code_before(a.0, b.0) || (a.0 == b.0 && a.1 <= b.1)
    }

    proof fn lemma_rank_total() {
        let f = |a: (Option<i64>, i64), b: (Option<i64>, i64)| Self::rank_le(a, b);
        assert forall|a: (Option<i64>, i64)| #[trigger] f(a, a) by {}
        assert forall|a: (Option<i64>, i64), b: (Option<i64>, i64)|
            #[trigger] f(a, b) && #[trigger] f(b, a) implies a == b by {}
        assert forall|a: (Option<i64>, i64), b: (Option<i64>, i64), c: (Option<i64>, i64)|
            #[trigger] f(a, b) && #[trigger] f(b, c) implies f(a, c) by {}
        assert forall|a: (Option<i64>, i64), b: (Option<i64>, i64)|
            #[trigger] f(a, b) || #[trigger] f(b, a) by {}
    }

    fn ranks_before(&self, other: &Self) -> (r: bool) {
        match (self.code, other.code) {
            (None, Some(_)) => true,
            (Some(_), None) => false,
            (Some(x), Some(y)) => x < y || (x == y && self.count <= other.count),
            (None, None) => self.count <= other.count,
        }
    }
}

/// One session in which a command appeared.
pub struct SessionUsage {
    pub session: String,
    pub label: String,
    pub count: i64,
    /// Most-recent run in this session (drives ordering).
    pub last_ts: i64,
}

impl View for SessionUsage {
    type V = (Seq<char>, Seq<char>, i64, i64);

    open spec fn view(&self) -> (Seq<char>, Seq<char>, i64, i64) {
        (self.session@, self.label@, self.count, self.last_ts)
    }
}

/// Sessions are ordered by latest run descending; sessions whose latest runs
/// share a second are ordered by session id.
impl Rank for SessionUsage {
    open spec fn rank_le(
        a: (Seq<char>, Seq<char>, i64, i64),
        b: (Seq<char>, Seq<char>, i64, i64),
    ) -> bool {
        a.3 > b.3 || (a.3 == b.3 && a.0 != b.0 && text_le(a.0, b.0)) || (a.3 == b.3 && a.0 == b.0
            && a.1 != b.1 && text_le(a.1, b.1)) || (a.3 == b.3 && a.0 == b.0 && a.1 == b.1 && a.2
            <= b.2)
    }

    proof fn lemma_rank_total() {
        let f = |a: (Seq<char>, Seq<char>, i64, i64), b: (Seq<char>, Seq<char>, i64, i64)|
            Self::rank_le(a, b);
        assert forall|a: (Seq<char>, Seq<char>, i64, i64)| #[trigger] f(a, a) by {}
        assert forall|a: (Seq<char>, Seq<char>, i64, i64), b: (Seq<char>, Seq<char>, i64, i64)|
            #[trigger] f(a, b) && #[trigger] f(b, a) implies a == b by {
            if a.3 == b.3 && a.0 != b.0 {
                lemma_text_le_antisymmetric(a.0, b.0);
            }
            if a.3 == b.3 && a.0 == b.0 && a.1 != b.1 {
                lemma_text_le_antisymmetric(a.1, b.1);
            }
        }
        assert forall|
            a: (Seq<char>, Seq<char>, i64, i64),
            b: (Seq<char>, Seq<char>, i64, i64),
            c: (Seq<char>, Seq<char>, i64, i64),
        | #[trigger] f(a, b) && #[trigger] f(b, c) implies f(a, c) by {
            if a.3 == b.3 && b.3 == c.3 {
                if a.0 != b.0 && b.0 != c.0 {
                    lemma_text_le_transitive(a.0, b.0, c.0);
                    if a.0 == c.0 {
                        lemma_text_le_antisymmetric(a.0, b.0);
                    }
                }
                if a.0 == b.0 && b.0 == c.0 && a.1 != b.1 && b.1 != c.1 {
                    lemma_text_le_transitive(a.1, b.1, c.1);
                    if a.1 == c.1 {
                        lemma_text_le_antisymmetric(a.1, b.1);
                    }
                }
            }
        }
        assert forall|a: (Seq<char>, Seq<char>, i64, i64), b: (Seq<char>, Seq<char>, i64, i64)|
            #[trigger] f(a, b) || #[trigger] f(b, a) by {
            lemma_text_le_total(a.0, b.0);
            lemma_text_le_total(a.1, b.1);
        }
    }

    fn ranks_before(&self, other: &Self) -> (r: bool) {
        if self.last_ts != other.last_ts {
            self.last_ts > other.last_ts
        } else if self.session != other.session {
            string_le(&self.session, &other.session)
        } else if self.label != other.label {
            string_le(&self.label, &other.label)
        } else {
            self.count <= other.count
        }
    }
}

} // verus!
