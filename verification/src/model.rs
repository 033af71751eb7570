//! The history database: its six tables as plain values, the row-level changes
//! the operations issue, and what each change does to the tables.
//!
//! Tables (all text compared exactly):
//! - `commands`: every finished command, oldest first (strictly increasing ids);
//! - `pending`: at most one started-but-unfinished command per session;
//! - `favorites`: starred commands with the time they were starred;
//! - `notes`: a note per command;
//! - `deleted`: soft-deleted commands with the deletion time;
//! - `sessions`: per session, the time and directory of its first recorded command.

use vstd::prelude::*;

use crate::keyed::{
    inserted_if_absent, lemma_inserted_if_absent, lemma_removed, lemma_upserted, removed,
    unique_keys, upserted, Keyed,
};

verus! {

/// One row of the `commands` table.
pub struct CommandRow {
    pub id: i64,
    pub cmd: String,
    pub cwd: String,
    pub exit_code: Option<i64>,
    pub start_ts: i64,
    pub end_ts: Option<i64>,
    pub session: String,
}

pub struct CommandView {
    pub id: i64,
    pub cmd: Seq<char>,
    pub cwd: Seq<char>,
    pub exit_code: Option<i64>,
    pub start_ts: i64,
    pub end_ts: Option<i64>,
    pub session: Seq<char>,
}

impl View for CommandRow {
    type V = CommandView;

    open spec fn view(&self) -> CommandView {
        CommandView {
            id: self.id,
            cmd: self.cmd@,
            cwd: self.cwd@,
            exit_code: self.exit_code,
            start_ts: self.start_ts,
            end_ts: self.end_ts,
            session: self.session@,
        }
    }
}

/// The whole database.
pub struct HistoryView {
    pub commands: Seq<CommandView>,
    /// session -> (cmd, cwd, start_ts)
    pub pending: Seq<(Seq<char>, (Seq<char>, Seq<char>, i64))>,
    /// cmd -> created_ts
    pub favorites: Seq<(Seq<char>, i64)>,
    /// cmd -> note
    pub notes: Seq<(Seq<char>, Seq<char>)>,
    /// cmd -> deleted_ts
    pub deleted: Seq<(Seq<char>, i64)>,
    /// session -> (started_ts, init_cwd)
    pub sessions: Seq<(Seq<char>, (i64, Seq<char>))>,
}

/// Command ids strictly increase along the table, so table order is id order.
pub open spec fn ids_increasing(c: Seq<CommandView>) -> bool {
    forall|i: int, j: int| 0 <= i < j < c.len() ==> #[trigger] c[i].id < #[trigger] c[j].id
}

pub open spec fn history_wf(h: HistoryView) -> bool {
    &&& ids_increasing(h.commands)
    &&& h.commands.len() < i64::MAX
    &&& unique_keys(h.pending)
    &&& unique_keys(h.favorites)
    &&& unique_keys(h.notes)
    &&& unique_keys(h.deleted)
    &&& unique_keys(h.sessions)
}

/// A row-level change, one per SQL statement the operations issue.
pub enum Change {
    /// `INSERT INTO commands (...)`: the id is the next rowid.
    InsertCommand {
        cmd: String,
        cwd: String,
        exit_code: Option<i64>,
        start_ts: i64,
        end_ts: Option<i64>,
        session: String,
    },
    /// `INSERT OR IGNORE INTO sessions`.
    InsertSessionOrIgnore { session: String, started_ts: i64, init_cwd: String },
    /// `INSERT INTO pending ... ON CONFLICT(session) DO UPDATE`.
    UpsertPending { session: String, cmd: String, cwd: String, start_ts: i64 },
    /// `DELETE FROM pending WHERE session = ?`.
    DeletePending { session: String },
    /// `INSERT OR IGNORE INTO favorites`.
    InsertFavoriteOrIgnore { cmd: String, created_ts: i64 },
    /// `DELETE FROM favorites WHERE cmd = ?`.
    DeleteFavorite { cmd: String },
    /// `INSERT INTO notes ... ON CONFLICT(cmd) DO UPDATE`.
    UpsertNote { cmd: String, note: String },
    /// `DELETE FROM notes WHERE cmd = ?`.
    DeleteNote { cmd: String },
    /// `INSERT OR REPLACE INTO deleted`.
    ReplaceDeleted { cmd: String, deleted_ts: i64 },
    /// `DELETE FROM deleted WHERE cmd = ?`.
    DeleteDeleted { cmd: String },
}

pub enum ChangeView {
    InsertCommand {
        cmd: Seq<char>,
        cwd: Seq<char>,
        exit_code: Option<i64>,
        start_ts: i64,
        end_ts: Option<i64>,
        session: Seq<char>,
    },
    InsertSessionOrIgnore { session: Seq<char>, started_ts: i64, init_cwd: Seq<char> },
    UpsertPending { session: Seq<char>, cmd: Seq<char>, cwd: Seq<char>, start_ts: i64 },
    DeletePending { session: Seq<char> },
    InsertFavoriteOrIgnore { cmd: Seq<char>, created_ts: i64 },
    DeleteFavorite { cmd: Seq<char> },
    UpsertNote { cmd: Seq<char>, note: Seq<char> },
    DeleteNote { cmd: Seq<char> },
    ReplaceDeleted { cmd: Seq<char>, deleted_ts: i64 },
    DeleteDeleted { cmd: Seq<char> },
}

impl View for Change {
    type V = ChangeView;

    open spec fn view(&self) -> ChangeView {
        match self {
            Change::InsertCommand { cmd, cwd, exit_code, start_ts, end_ts, session } => {
                ChangeView::InsertCommand {
                    cmd: cmd@,
                    cwd: cwd@,
                    exit_code: *exit_code,
                    start_ts: *start_ts,
                    end_ts: *end_ts,
                    session: session@,
                }
            },
            Change::InsertSessionOrIgnore { session, started_ts, init_cwd } => {
                ChangeView::InsertSessionOrIgnore {
                    session: session@,
                    started_ts: *started_ts,
                    init_cwd: init_cwd@,
                }
            },
            Change::UpsertPending { session, cmd, cwd, start_ts } => ChangeView::UpsertPending {
                session: session@,
                cmd: cmd@,
                cwd: cwd@,
                start_ts: *start_ts,
            },
            Change::DeletePending { session } => ChangeView::DeletePending { session: session@ },
            Change::InsertFavoriteOrIgnore { cmd, created_ts } => {
                ChangeView::InsertFavoriteOrIgnore { cmd: cmd@, created_ts: *created_ts }
            },
            Change::DeleteFavorite { cmd } => ChangeView::DeleteFavorite { cmd: cmd@ },
            Change::UpsertNote { cmd, note } => ChangeView::UpsertNote { cmd: cmd@, note: note@ },
            Change::DeleteNote { cmd } => ChangeView::DeleteNote { cmd: cmd@ },
            Change::ReplaceDeleted { cmd, deleted_ts } => {
                ChangeView::ReplaceDeleted { cmd: cmd@, deleted_ts: *deleted_ts }
            },
            Change::DeleteDeleted { cmd } => ChangeView::DeleteDeleted { cmd: cmd@ },
        }
    }
}

/// The id SQLite gives the next inserted command: one past the largest.
pub open spec fn next_id(c: Seq<CommandView>) -> int {
    if c.len() == 0 {
        1
    } else {
        c.last().id + 1
    }
}

/// A command row can be appended: the next id and the row count stay in range.
pub open spec fn can_append(h: HistoryView) -> bool {
    next_id(h.commands) <= i64::MAX && h.commands.len() + 1 < i64::MAX
}

/// What one change does to the database. An insert into a full id range leaves
/// the database unchanged.
pub open spec fn apply_change(h: HistoryView, c: ChangeView) -> HistoryView {
    match c {
        ChangeView::InsertCommand { cmd, cwd, exit_code, start_ts, end_ts, session } => {
            if can_append(h) {
                HistoryView {
                    commands: h.commands.push(
                        CommandView {
                            id: next_id(h.commands) as i64,
                            cmd,
                            cwd,
                            exit_code,
                            start_ts,
                            end_ts,
                            session,
                        },
                    ),
                    ..h
                }
            } else {
                h
            }
        },
        ChangeView::InsertSessionOrIgnore { session, started_ts, init_cwd } => HistoryView {
            sessions: inserted_if_absent(h.sessions, session, (started_ts, init_cwd)),
            ..h
        },
        ChangeView::UpsertPending { session, cmd, cwd, start_ts } => HistoryView {
            pending: upserted(h.pending, session, (cmd, cwd, start_ts)),
            ..h
        },
        ChangeView::DeletePending { session } => HistoryView {
            pending: removed(h.pending, session),
            ..h
        },
        ChangeView::InsertFavoriteOrIgnore { cmd, created_ts } => HistoryView {
            favorites: inserted_if_absent(h.favorites, cmd, created_ts),
            ..h
        },
        ChangeView::DeleteFavorite { cmd } => HistoryView {
            favorites: removed(h.favorites, cmd),
            ..h
        },
        ChangeView::UpsertNote { cmd, note } => HistoryView {
            notes: upserted(h.notes, cmd, note),
            ..h
        },
        ChangeView::DeleteNote { cmd } => HistoryView { notes: removed(h.notes, cmd), ..h },
        ChangeView::ReplaceDeleted { cmd, deleted_ts } => HistoryView {
            deleted: upserted(h.deleted, cmd, deleted_ts),
            ..h
        },
        ChangeView::DeleteDeleted { cmd } => HistoryView { deleted: removed(h.deleted, cmd), ..h },
    }
}

/// The changes applied in order.
pub open spec fn apply_changes(h: HistoryView, cs: Seq<ChangeView>) -> HistoryView
    decreases cs.len(),
{
    if cs.len() == 0 {
        h
    } else {
        apply_changes(apply_change(h, cs[0]), cs.drop_first())
    }
}

pub open spec fn change_views(cs: Seq<Change>) -> Seq<ChangeView> {
    cs.map_values(|c: Change| c@)
}

pub proof fn lemma_apply_change_wf(h: HistoryView, c: ChangeView)
    requires
        history_wf(h),
    ensures
        history_wf(apply_change(h, c)),
{
    match c {
        ChangeView::InsertCommand { .. } => {},
        ChangeView::InsertSessionOrIgnore { session, started_ts, init_cwd } => {
            lemma_inserted_if_absent(h.sessions, session, (started_ts, init_cwd));
        },
        ChangeView::UpsertPending { session, cmd, cwd, start_ts } => {
            lemma_upserted(h.pending, session, (cmd, cwd, start_ts));
        },
        ChangeView::DeletePending { session } => {
            lemma_removed(h.pending, session);
        },
        ChangeView::InsertFavoriteOrIgnore { cmd, created_ts } => {
            lemma_inserted_if_absent(h.favorites, cmd, created_ts);
        },
        ChangeView::DeleteFavorite { cmd } => {
            lemma_removed(h.favorites, cmd);
        },
        ChangeView::UpsertNote { cmd, note } => {
            lemma_upserted(h.notes, cmd, note);
        },
        ChangeView::DeleteNote { cmd } => {
            lemma_removed(h.notes, cmd);
        },
        ChangeView::ReplaceDeleted { cmd, deleted_ts } => {
            lemma_upserted(h.deleted, cmd, deleted_ts);
        },
        ChangeView::DeleteDeleted { cmd } => {
            lemma_removed(h.deleted, cmd);
        },
    }
}

pub proof fn lemma_apply_changes_wf(h: HistoryView, cs: Seq<ChangeView>)
    requires
        history_wf(h),
    ensures
        history_wf(apply_changes(h, cs)),
    decreases cs.len(),
{
    if cs.len() > 0 {
        lemma_apply_change_wf(h, cs[0]);
        lemma_apply_changes_wf(apply_change(h, cs[0]), cs.drop_first());
    }
}

/// The history database held in memory.
pub struct History {
    commands: Vec<CommandRow>,
    pending: Keyed<(String, String, i64)>,
    favorites: Keyed<i64>,
    notes: Keyed<String>,
    deleted: Keyed<i64>,
    sessions: Keyed<(i64, String)>,
}

impl View for History {
    type V = HistoryView;

    closed spec fn view(&self) -> HistoryView {
        HistoryView {
            commands: self.commands@.map_values(|r: CommandRow| r@),
            pending: self.pending@,
            favorites: self.favorites@,
            notes: self.notes@,
            deleted: self.deleted@,
            sessions: self.sessions@,
        }
    }
}

impl History {
    #[verifier::type_invariant]
    pub open spec fn well_formed(&self) -> bool {
        history_wf(self@)
    }

    /// An empty database.
    pub fn new() -> (h: Self)
        ensures
            h@.commands.len() == 0,
            h@.pending.len() == 0,
            h@.favorites.len() == 0,
            h@.notes.len() == 0,
            h@.deleted.len() == 0,
            h@.sessions.len() == 0,
    {
        let h = History {
            commands: Vec::new(),
            pending: Keyed::new(),
            favorites: Keyed::new(),
            notes: Keyed::new(),
            deleted: Keyed::new(),
            sessions: Keyed::new(),
        };
        assert(h@.commands =~= Seq::<CommandView>::empty());
        h
    }

    /// The `commands` table, oldest first.
    pub fn commands(&self) -> (r: &Vec<CommandRow>)
        ensures
            r@.map_values(|x: CommandRow| x@) == self@.commands,
            history_wf(self@),
    {
        proof {
            use_type_invariant(self);
        }
        &self.commands
    }

    pub fn pending(&self) -> (r: &Keyed<(String, String, i64)>)
        ensures
            r@ == self@.pending,
    {
        &self.pending
    }

    pub fn favorites(&self) -> (r: &Keyed<i64>)
        ensures
            r@ == self@.favorites,
    {
        &self.favorites
    }

    pub fn notes(&self) -> (r: &Keyed<String>)
        ensures
            r@ == self@.notes,
    {
        &self.notes
    }

    pub fn deleted(&self) -> (r: &Keyed<i64>)
        ensures
            r@ == self@.deleted,
    {
        &self.deleted
    }

    pub fn sessions(&self) -> (r: &Keyed<(i64, String)>)
        ensures
            r@ == self@.sessions,
    {
        &self.sessions
    }

    /// Appends a stored command row (as read from the database, oldest first).
    /// Refused unless its id exceeds every stored id.
    pub fn load_command(&mut self, row: CommandRow) -> (loaded: bool)
        ensures
            loaded == ((old(self)@.commands.len() == 0 || old(self)@.commands.last().id < row.id)
                && old(self)@.commands.len() + 1 < i64::MAX),
            final(self)@ == (if loaded {
                HistoryView { commands: old(self)@.commands.push(row@), ..old(self)@ }
            } else {
                old(self)@
            }),
    {
        proof {
            use_type_invariant(&*self);
        }
        let n = self.commands.len();
        let ok = (n == 0 || self.commands[n - 1].id < row.id) && (n as u64) < 9223372036854775806u64;
        if ok {
            let ghost rv = row@;
            let mut cmds: Vec<CommandRow> = Vec::new();
            std::mem::swap(&mut cmds, &mut self.commands);
            cmds.push(row);
            assert(cmds@.map_values(|r: CommandRow| r@) =~= old(self)@.commands.push(rv));
            proof {
                let c = old(self)@.commands;
                if n > 0 {
                    assert(c.last().id == c[n - 1].id);
                    assert forall|i: int| 0 <= i < n implies #[trigger] c[i].id < rv.id by {
                        if i < n - 1 {
                            assert(c[i].id < c[n - 1].id);
                        }
                    }
                }
                assert(ids_increasing(c.push(rv)));
            }
            self.commands = cmds;
        }
        assert(self@ =~= (if ok {
            HistoryView { commands: old(self)@.commands.push(row@), ..old(self)@ }
        } else {
            old(self)@
        }));
        ok
    }

    /// Applies one change. Returns false exactly when the change is a command
    /// insert that does not fit the id range (the database is then unchanged).
    pub fn apply(&mut self, c: Change) -> (applied: bool)
        ensures
            final(self)@ == apply_change(old(self)@, c@),
            applied == (!(c@ is InsertCommand) || can_append(old(self)@)),
    {
        proof {
            use_type_invariant(&*self);
            lemma_apply_change_wf(self@, c@);
        }
        let ghost cv = c@;
        match c {
            Change::InsertCommand { cmd, cwd, exit_code, start_ts, end_ts, session } => {
                let n = self.commands.len();
                let next: i64 = if n == 0 {
                    1
                } else {
                    let last = self.commands[n - 1].id;
                    if last == i64::MAX {
                        return false;
                    }
                    last + 1
                };
                if (n as u64) >= 9223372036854775806u64 {
                    return false;
                }
                let row = CommandRow { id: next, cmd, cwd, exit_code, start_ts, end_ts, session };
                let ghost rv = row@;
                let mut cmds: Vec<CommandRow> = Vec::new();
                std::mem::swap(&mut cmds, &mut self.commands);
                cmds.push(row);
                assert(cmds@.map_values(|r: CommandRow| r@) =~= old(self)@.commands.push(rv));
                self.commands = cmds;
                assert(self@ =~= apply_change(old(self)@, cv));
                true
            },
            Change::InsertSessionOrIgnore { session, started_ts, init_cwd } => {
                let mut t = Keyed::new();
                std::mem::swap(&mut t, &mut self.sessions);
                t.insert_if_absent(session, (started_ts, init_cwd));
                self.sessions = t;
                assert(self@ =~= apply_change(old(self)@, cv));
                true
            },
            Change::UpsertPending { session, cmd, cwd, start_ts } => {
                let mut t = Keyed::new();
                std::mem::swap(&mut t, &mut self.pending);
                t.upsert(session, (cmd, cwd, start_ts));
                self.pending = t;
                assert(self@ =~= apply_change(old(self)@, cv));
                true
            },
            Change::DeletePending { session } => {
                let mut t = Keyed::new();
                std::mem::swap(&mut t, &mut self.pending);
                t.remove(&session);
                self.pending = t;
                assert(self@ =~= apply_change(old(self)@, cv));
                true
            },
            Change::InsertFavoriteOrIgnore { cmd, created_ts } => {
                let mut t = Keyed::new();
                std::mem::swap(&mut t, &mut self.favorites);
                t.insert_if_absent(cmd, created_ts);
                self.favorites = t;
                assert(self@ =~= apply_change(old(self)@, cv));
                true
            },
            Change::DeleteFavorite { cmd } => {
                let mut t = Keyed::new();
                std::mem::swap(&mut t, &mut self.favorites);
                t.remove(&cmd);
                self.favorites = t;
                assert(self@ =~= apply_change(old(self)@, cv));
                true
            },
            Change::UpsertNote { cmd, note } => {
                let mut t = Keyed::new();
                std::mem::swap(&mut t, &mut self.notes);
                t.upsert(cmd, note);
                self.notes = t;
                assert(self@ =~= apply_change(old(self)@, cv));
                true
            },
            Change::DeleteNote { cmd } => {
                let mut t = Keyed::new();
                std::mem::swap(&mut t, &mut self.notes);
                t.remove(&cmd);
                self.notes = t;
                assert(self@ =~= apply_change(old(self)@, cv));
                true
            },
            Change::ReplaceDeleted { cmd, deleted_ts } => {
                let mut t = Keyed::new();
                std::mem::swap(&mut t, &mut self.deleted);
                t.upsert(cmd, deleted_ts);
                self.deleted = t;
                assert(self@ =~= apply_change(old(self)@, cv));
                true
            },
            Change::DeleteDeleted { cmd } => {
                let mut t = Keyed::new();
                std::mem::swap(&mut t, &mut self.deleted);
                t.remove(&cmd);
                self.deleted = t;
                assert(self@ =~= apply_change(old(self)@, cv));
                true
            },
        }
    }

    /// Applies the changes in order.
    pub fn apply_all(&mut self, cs: Vec<Change>)
        ensures
            final(self)@ == apply_changes(old(self)@, change_views(cs@)),
    {
        let ghost all = change_views(cs@);
        let mut rest = cs;
        let ghost mut done: Seq<ChangeView> = Seq::empty();
        assert(all =~= done + change_views(rest@));
        while rest.len() > 0
            invariant
                all == done + change_views(rest@),
                apply_changes(old(self)@, all) == apply_changes(self@, change_views(rest@)),
            decreases rest.len(),
        {
            let ghost rv = change_views(rest@);
            let c = rest.remove(0);
            let ghost cv = c@;
            proof {
                assert(rv[0] == cv);
                assert(rv.drop_first() =~= change_views(rest@));
                done = done.push(cv);
                assert(all =~= done + change_views(rest@));
            }
            self.apply(c);
        }
        assert(change_views(rest@) =~= Seq::<ChangeView>::empty());
    }
}

} // verus!
