//! The session browser's state and how it answers keys: moving between the
//! project and session lists, searching, selecting, asking for and applying
//! deletions, opening a session's detail and rescanning.
//!
//! Work that touches the file system (loading a detail, moving files to the
//! trash, rescanning) is not done here: a key that needs it returns an
//! [`Effect`], the caller performs it and hands the outcome back through
//! `finish_load_detail`, `finish_delete` or `finish_refresh`.

use vstd::prelude::*;

use crate::path::{paths_equal, same_path};
use crate::scanner::{build_projects, count_project, default_session_root_label, project_groups, total_count, ScanResult};
use crate::session::{Project, Session, SessionDetail};
use crate::text::{
    chars_of, concat2, contains_chars, decimal, decimal_string, has_substring, lowercase, owned,
    string_of, to_lowercase,
};

verus! {

/// Which list has the keyboard focus.
#[derive(PartialEq, Eq, Structural)]
pub enum Focus {
    Projects,
    Sessions,
}

/// A pending deletion, waiting for confirmation.
pub struct DeleteRequest {
    pub session_indices: Vec<usize>,
    pub prompt: String,
}

/// The selected row of a list, if any.
pub struct ListState {
    pub selected: Option<usize>,
}

/// A key, as far as the browser tells keys apart.
#[derive(PartialEq, Eq, Structural)]
pub enum KeyCode {
    Char(char),
    Esc,
    Tab,
    Up,
    Down,
    Enter,
    Backspace,
    Other,
}

/// A key event: the key, whether it was a press (not a release or repeat),
/// and whether Control was held.
pub struct KeyEvent {
    pub code: KeyCode,
    pub press: bool,
    pub control: bool,
}

/// One file to move to the trash: the session's index and its file.
pub struct DeleteJob {
    pub index: usize,
    pub file_path: String,
}

/// Work a key asks the caller to do.
pub enum Effect {
    /// Nothing to do.
    Nothing,
    /// Load the detail of this session, then call `finish_load_detail`.
    LoadDetail(Session),
    /// Move these files to the trash, in order, then call `finish_delete`.
    Delete(Vec<DeleteJob>),
    /// Scan the session directory again, then call `finish_refresh`.
    Rescan,
}

/// The state of the session browser.
pub struct App {
    pub scan_root: String,
    pub scan_root_label: &'static str,
    pub root_exists: bool,
    pub sessions: Vec<Session>,
    pub projects: Vec<Project>,
    pub filtered_session_indices: Vec<usize>,
    pub focus: Focus,
    pub project_state: ListState,
    pub session_state: ListState,
    pub search_mode: bool,
    pub search_query: String,
    pub show_help: bool,
    pub detail: Option<SessionDetail>,
    pub confirm_delete: Option<DeleteRequest>,
    pub status: String,
    pub warnings: Vec<String>,
    pub should_quit: bool,
}

// ---------------------------------------------------------------------------
// What the lists show
// ---------------------------------------------------------------------------
/// The path of the project at row `sel`, when there is one.
pub open spec fn project_at(projects: Seq<Project>, sel: Option<usize>) -> Option<Seq<char>> {
    match sel {
        Some(i) => if i < projects.len() {
            Some(projects[i as int].path@)
        } else {
            None
        },
        None => None,
    }
}

/// The index of the session shown at row `sel` of the filtered rows.
pub open spec fn index_at(rows: Seq<usize>, sel: Option<usize>) -> Option<usize> {
    match sel {
        Some(r) => if r < rows.len() {
            Some(rows[r as int])
        } else {
            None
        },
        None => None,
    }
}

/// The file path of the session shown at row `sel`.
pub open spec fn path_at(sessions: Seq<Session>, rows: Seq<usize>, sel: Option<usize>) -> Option<Seq<char>> {
    match index_at(rows, sel) {
        Some(k) => if k < sessions.len() {
            Some(sessions[k as int].file_path@)
        } else {
            None
        },
        None => None,
    }
}

/// Whether a session is listed under the selected project and matches the
/// search: every session is listed under no project or `All Sessions`; a
/// search matches when it is empty or its lower-cased text occurs in the
/// session's lower-cased search text.
pub open spec fn session_matches(s: Session, project: Option<Seq<char>>, query: Seq<char>) -> bool {
    &&& match project {
        Some(p) => p == "All Sessions"@ || s.project_path@ == p,
        None => true,
    }
    &&& (query.len() == 0 || has_substring(lowercase(s.blob()), lowercase(query)))
}

/// The indices, in order, of the first `n` sessions that are listed.
pub open spec fn matching_indices(sessions: Seq<Session>, project: Option<Seq<char>>, query: Seq<char>, n: int) -> Seq<usize>
    decreases n,
{
    if n <= 0 {
        seq![]
    } else {
        let r = matching_indices(sessions, project, query, n - 1);
        if session_matches(sessions[n - 1], project, query) {
            r.push((n - 1) as usize)
        } else {
            r
        }
    }
}

/// The first row whose session has the file `target`, or -1.
pub open spec fn target_row(sessions: Seq<Session>, rows: Seq<usize>, target: Seq<char>) -> int
    decreases rows.len(),
{
    if rows.len() == 0 {
        -1
    } else if target_row(sessions, rows.drop_last(), target) >= 0 {
        target_row(sessions, rows.drop_last(), target)
    } else if rows.last() < sessions.len() && same_path(sessions[rows.last() as int].file_path@, target) {
        rows.len() - 1
    } else {
        -1
    }
}

/// The row selected after the rows are rebuilt: none when no row is left;
/// the row of the `target` file when it is listed; else the old row, or the
/// first, moved up to the last row when past it.
pub open spec fn reselected(sessions: Seq<Session>, rows: Seq<usize>, target: Option<Seq<char>>, old_sel: Option<usize>) -> Option<usize> {
    if rows.len() == 0 {
        None
    } else if target is Some && target_row(sessions, rows, target->0) >= 0 {
        Some(target_row(sessions, rows, target->0) as usize)
    } else {
        let want: int = match old_sel {
            Some(r) => r as int,
            None => 0,
        };
        Some(
            (if want <= rows.len() - 1 {
                want
            } else {
                rows.len() - 1
            }) as usize,
        )
    }
}

impl App {
    /// The path of the selected project group.
    pub open spec fn current_project_path(&self) -> Option<Seq<char>> {
        project_at(self.projects@, self.project_state.selected)
    }

    /// The index of the selected session.
    pub open spec fn current_index(&self) -> Option<usize> {
        index_at(self.filtered_session_indices@, self.session_state.selected)
    }

    /// The file path of the selected session.
    pub open spec fn current_path(&self) -> Option<Seq<char>> {
        path_at(self.sessions@, self.filtered_session_indices@, self.session_state.selected)
    }

    /// The rows that the selected project and the search list now.
    pub open spec fn listed_rows(&self) -> Seq<usize> {
        matching_indices(
            self.sessions@,
            self.current_project_path(),
            self.search_query@,
            self.sessions@.len() as int,
        )
    }

    /// Whether the state is consistent: the rows are exactly the sessions
    /// the selected project and the search list, in increasing order of
    /// their index; a row is selected exactly when there is one, the
    /// selected row exists, the project list is not empty and a project row
    /// is selected.
    pub open spec fn wf(&self) -> bool {
        &&& self.filtered_session_indices@ == self.listed_rows()
        &&& self.rows_valid()
        &&& self.projects@.len() >= 1
        &&& self.project_state.selected is Some
    }

    /// Whether the rows and the selected row are consistent: the rows show
    /// sessions in increasing order of their index, a row is selected
    /// exactly when there is one, and the selected row exists.
    pub open spec fn rows_valid(&self) -> bool {
        &&& forall|r: int|
            0 <= r < self.filtered_session_indices@.len() ==> #[trigger] self.filtered_session_indices@[r]
                < self.sessions@.len()
        &&& forall|i: int, j: int|
            0 <= i < j < self.filtered_session_indices@.len() ==> #[trigger] self.filtered_session_indices@[i]
                < #[trigger] self.filtered_session_indices@[j]
        &&& (self.session_state.selected is Some) == (self.filtered_session_indices@.len() > 0)
        &&& match self.session_state.selected {
            Some(r) => r < self.filtered_session_indices@.len(),
            None => true,
        }
    }
}

/// `new` is `old` with its rows rebuilt for the selected project and the
/// search, and the selection moved to `target` when it is listed.
pub open spec fn refiltered(old: App, new: App, target: Option<Seq<char>>) -> bool {
    let rows = old.listed_rows();
    &&& new.filtered_session_indices@ == rows
    &&& new.session_state.selected == reselected(
        old.sessions@,
        rows,
        target,
        old.session_state.selected,
    )
    &&& new == (App {
        filtered_session_indices: new.filtered_session_indices,
        session_state: new.session_state,
        ..old
    })
}

/// Whether `projects` is the project list of `sessions`.
pub open spec fn is_project_list(sessions: Seq<Session>, projects: Seq<Project>) -> bool {
    &&& projects.len() >= 1
    &&& projects[0].path@ == "All Sessions"@
    &&& projects[0].session_count == sessions.len()
    &&& project_groups(sessions, projects.drop_first())
    &&& total_count(projects.drop_first()) == sessions.len()
}

/// `new` is `old` with its project list rebuilt from its sessions, the first
/// project selected when none was, and its rows rebuilt keeping the session
/// that the old rows showed at the selected row.
pub open spec fn views_rebuilt(old: App, new: App) -> bool {
    let sel = match old.project_state.selected {
        Some(i) => Some(i),
        None => Some(0usize),
    };
    let rows = matching_indices(
        old.sessions@,
        project_at(new.projects@, sel),
        old.search_query@,
        old.sessions@.len() as int,
    );
    &&& is_project_list(old.sessions@, new.projects@)
    &&& new.project_state.selected == sel
    &&& new.filtered_session_indices@ == rows
    &&& new.session_state.selected == reselected(old.sessions@, rows, old.current_path(), old.session_state.selected)
    &&& new == (App {
        projects: new.projects,
        project_state: new.project_state,
        filtered_session_indices: new.filtered_session_indices,
        session_state: new.session_state,
        ..old
    })
}

proof fn lemma_matching_indices_valid(sessions: Seq<Session>, project: Option<Seq<char>>, query: Seq<char>, n: int)
    requires
        0 <= n <= sessions.len(),
    ensures
        forall|r: int|
            0 <= r < matching_indices(sessions, project, query, n).len() ==> #[trigger] matching_indices(
                sessions,
                project,
                query,
                n,
            )[r] < n,
        matching_indices(sessions, project, query, n).len() <= n,
    decreases n,
{
    if n > 0 {
        lemma_matching_indices_valid(sessions, project, query, n - 1);
    }
}

proof fn lemma_target_row(sessions: Seq<Session>, rows: Seq<usize>, target: Seq<char>, k: int)
    requires
        0 <= k <= rows.len(),
        forall|j: int|
            0 <= j < k ==> !(#[trigger] rows[j] < sessions.len() && same_path(
                sessions[rows[j] as int].file_path@,
                target,
            )),
    ensures
        target_row(sessions, rows.take(k), target) == -1,
        k < rows.len() && rows[k] < sessions.len() && same_path(sessions[rows[k] as int].file_path@, target)
            ==> target_row(sessions, rows, target) == k,
        k == rows.len() ==> target_row(sessions, rows, target) == -1,
    decreases rows.len(),
{
    if rows.len() > 0 {
        if k == rows.len() {
            lemma_target_row(sessions, rows.drop_last(), target, k - 1);
            assert(rows.drop_last().take(k - 1) =~= rows.take(k - 1));
            assert(rows.take(k) =~= rows);
            assert(rows.take(k).drop_last() =~= rows.drop_last());
        } else {
            lemma_target_row(sessions, rows.drop_last(), target, k);
            assert(rows.drop_last().take(k) =~= rows.take(k));
            if k < rows.len() - 1 {
                assert(rows.drop_last()[k] == rows[k]);
            }
        }
    } else {
        assert(rows.take(k) =~= rows);
    }
}

impl App {
    /// The rows for the selected project and search, with the selection
    /// moved to `target` when it is listed.
    #[verifier::loop_isolation(false)]
    #[verifier::rlimit(50)]
    fn rebuild_filtered_sessions_with_target(&mut self, target: Option<String>)
        ensures
            refiltered(*old(self), *final(self), target.deep_view()),
    {
        let project: Option<String> = match self.project_state.selected {
            Some(i) => if i < self.projects.len() {
                Some(self.projects[i].path.clone())
            } else {
                None
            },
            None => None,
        };
        let all_projects = match &project {
            Some(p) => same_text_string(p, "All Sessions"),
            None => true,
        };
        let lowered = to_lowercase(self.search_query.as_str());
        let query = chars_of(lowered.as_str());
        let ghost proj = self.current_project_path();
        let mut rows: Vec<usize> = Vec::new();
        let mut k: usize = 0;
        while k < self.sessions.len()
            invariant
                k <= self.sessions@.len(),
                self == old(self),
                proj == self.current_project_path(),
                query@ == lowercase(self.search_query@),
                (query@.len() == 0) == (self.search_query@.len() == 0),
                all_projects == match project {
                    Some(p) => p@ == "All Sessions"@,
                    None => true,
                },
                project.deep_view() == proj,
                rows@ == matching_indices(self.sessions@, proj, self.search_query@, k as int),
            decreases self.sessions@.len() - k,
        {
            let s = &self.sessions[k];
            let in_project = if all_projects {
                true
            } else {
                match &project {
                    Some(p) => s.project_path == *p,
                    None => true,
                }
            };
            let hit = if !in_project {
                false
            } else if query.len() == 0 {
                true
            } else {
                let blob = s.search_blob();
                let bc = chars_of(blob.as_str());
                contains_chars(&bc, &query)
            };
            if hit {
                rows.push(k);
            }
            k = k + 1;
        }
        proof {
            lemma_matching_indices_valid(self.sessions@, proj, self.search_query@, self.sessions@.len() as int);
        }
        let ghost rows_v = rows@;
        let old_sel = self.session_state.selected;
        self.filtered_session_indices = rows;
        if self.filtered_session_indices.len() == 0 {
            self.session_state = ListState { selected: None };
            return;
        }
        match target {
            Some(t) => {
                let mut r: usize = 0;
                while r < self.filtered_session_indices.len()
                    invariant
                        r <= self.filtered_session_indices@.len(),
                        self.filtered_session_indices@ == rows_v,
                        *self == (App { filtered_session_indices: self.filtered_session_indices, ..*old(self) }),
                        forall|x: int|
                            0 <= x < rows_v.len() ==> #[trigger] rows_v[x] < self.sessions@.len(),
                        forall|j: int|
                            0 <= j < r ==> !(#[trigger] rows_v[j] < self.sessions@.len() && same_path(
                                self.sessions@[rows_v[j] as int].file_path@,
                                t@,
                            )),
                    decreases self.filtered_session_indices@.len() - r,
                {
                    let idx = self.filtered_session_indices[r];
                    if paths_equal(self.sessions[idx].file_path.as_str(), t.as_str()) {
                        proof {
                            lemma_target_row(self.sessions@, rows_v, t@, r as int);
                        }
                        self.session_state = ListState { selected: Some(r) };
                        return;
                    }
                    r = r + 1;
                }
                proof {
                    lemma_target_row(self.sessions@, rows_v, t@, r as int);
                }
            },
            None => {},
        }
        let want = match old_sel {
            Some(r) => r,
            None => 0,
        };
        let last = self.filtered_session_indices.len() - 1;
        self.session_state = ListState { selected: Some(if want <= last { want } else { last }) };
    }
}

/// Whether a string holds the same characters as a text.
fn same_text_string(s: &String, t: &str) -> (r: bool)
    ensures
        r == (s@ == t@),
{
    crate::text::same_text(s.as_str(), t)
}

/// How many sessions are marked for deletion.
pub open spec fn count_selected(s: Seq<Session>) -> nat
    decreases s.len(),
{
    if s.len() == 0 {
        0
    } else {
        count_selected(s.drop_last()) + if s.last().selected {
            1nat
        } else {
            0nat
        }
    }
}

proof fn lemma_count_selected_bound(s: Seq<Session>)
    ensures
        count_selected(s) <= s.len(),
    decreases s.len(),
{
    if s.len() > 0 {
        lemma_count_selected_bound(s.drop_last());
    }
}

/// A rebuild of the rows leaves the state consistent.
proof fn lemma_refiltered_wf(old: App, new: App, target: Option<Seq<char>>)
    requires
        refiltered(old, new, target),
        old.projects@.len() >= 1,
        old.project_state.selected is Some,
    ensures
        new.wf(),
{
    lemma_matching_indices_valid(
        old.sessions@,
        old.current_project_path(),
        old.search_query@,
        old.sessions@.len() as int,
    );
    assert(old.sessions@.len() == old.sessions.len());
    lemma_listed_rows_are_the_matches(
        old.sessions@,
        old.current_project_path(),
        old.search_query@,
        old.sessions@.len() as int,
    );
    let rows = old.listed_rows();
    if rows.len() > 0 && target is Some && target_row(old.sessions@, rows, target->0) >= 0 {
        lemma_target_row_bound(old.sessions@, rows, target->0);
    }
}

proof fn lemma_target_row_bound(sessions: Seq<Session>, rows: Seq<usize>, target: Seq<char>)
    ensures
        target_row(sessions, rows, target) < rows.len(),
    decreases rows.len(),
{
    if rows.len() > 0 {
        lemma_target_row_bound(sessions, rows.drop_last(), target);
    }
}

impl App {
    /// The selected project group.
    pub fn current_project(&self) -> (r: Option<&Project>)
        ensures
            match r {
                Some(p) => self.project_state.selected matches Some(i) && i < self.projects@.len()
                    && *p == self.projects@[i as int],
                None => self.current_project_path() is None,
            },
    {
        match self.project_state.selected {
            Some(i) => if i < self.projects.len() {
                Some(&self.projects[i])
            } else {
                None
            },
            None => None,
        }
    }

    /// The index of the selected session.
    fn current_session_index(&self) -> (r: Option<usize>)
        ensures
            r == self.current_index(),
    {
        match self.session_state.selected {
            Some(row) => if row < self.filtered_session_indices.len() {
                Some(self.filtered_session_indices[row])
            } else {
                None
            },
            None => None,
        }
    }

    /// The selected session.
    pub fn current_session(&self) -> (r: Option<&Session>)
        ensures
            match r {
                Some(s) => self.current_index() matches Some(k) && k < self.sessions@.len() && *s
                    == self.sessions@[k as int],
                None => self.current_path() is None,
            },
    {
        match self.current_session_index() {
            Some(k) => if k < self.sessions.len() {
                Some(&self.sessions[k])
            } else {
                None
            },
            None => None,
        }
    }

    /// How many sessions are marked for deletion.
    pub fn selected_count(&self) -> (r: usize)
        ensures
            r == count_selected(self.sessions@),
    {
        let mut n: usize = 0;
        let mut i: usize = 0;
        while i < self.sessions.len()
            invariant
                i <= self.sessions@.len(),
                n == count_selected(self.sessions@.take(i as int)),
            decreases self.sessions@.len() - i,
        {
            assert(self.sessions@.take(i + 1).drop_last() =~= self.sessions@.take(i as int));
            proof {
                lemma_count_selected_bound(self.sessions@.take(i as int));
            }
            if self.sessions[i].selected {
                n = n + 1;
            }
            i = i + 1;
        }
        assert(self.sessions@.take(self.sessions@.len() as int) =~= self.sessions@);
        n
    }

    /// What the session list says when it shows no session.
    pub fn no_sessions_message(&self) -> (r: String)
        ensures
            r@ == if !self.root_exists {
                "No Codex sessions found at "@ + self.scan_root_label@
            } else if self.sessions@.len() == 0 {
                "No session files found."@
            } else if self.search_query@.len() > 0 {
                "No sessions match search: "@ + self.search_query@
            } else {
                "No sessions in this project group."@
            },
    {
        if !self.root_exists {
            concat2("No Codex sessions found at ", self.scan_root_label)
        } else if self.sessions.len() == 0 {
            owned("No session files found.")
        } else if !self.search_query.as_str().is_empty() {
            concat2("No sessions match search: ", self.search_query.as_str())
        } else {
            owned("No sessions in this project group.")
        }
    }

    /// The rows for the selected project and search, keeping the selected
    /// session when it is still listed.
    fn rebuild_filtered_sessions(&mut self)
        ensures
            refiltered(*old(self), *final(self), old(self).current_path()),
    {
        let target = match self.current_session() {
            Some(s) => Some(s.file_path.clone()),
            None => None,
        };
        self.rebuild_filtered_sessions_with_target(target);
    }

    /// The project list rebuilt from the sessions, then the rows.
    fn rebuild_views(&mut self)
        ensures
            views_rebuilt(*old(self), *final(self)),
            final(self).wf(),
    {
        self.projects = build_projects(&self.sessions);
        if self.project_state.selected.is_none() {
            self.project_state = ListState { selected: Some(0) };
        }
        let ghost mid = *self;
        self.rebuild_filtered_sessions();
        proof {
            lemma_refiltered_wf(mid, *self, mid.current_path());
        }
    }

    /// A browser over the result of a scan of `scan_root`: every session
    /// listed, the first listed, the project list built, and a status saying
    /// how many sessions were loaded or that the directory was not found.
    pub fn new(scan_root: String, scan: ScanResult) -> (app: App)
        ensures
            app.wf(),
            app.scan_root == scan_root,
            app.scan_root_label@ == "~/.codex/sessions"@,
            app.root_exists == scan.root_exists,
            app.sessions == scan.sessions,
            app.warnings == scan.warnings,
            is_project_list(app.sessions@, app.projects@),
            app.project_state.selected == Some(0usize),
            app.filtered_session_indices@ == matching_indices(
                app.sessions@,
                Some("All Sessions"@),
                seq![],
                app.sessions@.len() as int,
            ),
            app.session_state.selected == if app.sessions@.len() == 0 {
                None
            } else {
                Some(0usize)
            },
            app.focus == Focus::Sessions,
            !app.search_mode,
            app.search_query@ == Seq::<char>::empty(),
            !app.show_help,
            app.detail is None,
            app.confirm_delete is None,
            !app.should_quit,
            app.status@ == if app.root_exists {
                "Loaded "@ + decimal(app.sessions@.len()) + " sessions"@
            } else {
                "No Codex sessions found at "@ + "~/.codex/sessions"@
            },
    {
        let mut app = App {
            scan_root,
            scan_root_label: default_session_root_label(),
            root_exists: scan.root_exists,
            sessions: scan.sessions,
            projects: Vec::new(),
            filtered_session_indices: Vec::new(),
            focus: Focus::Sessions,
            project_state: ListState { selected: None },
            session_state: ListState { selected: None },
            search_mode: false,
            search_query: String::new(),
            show_help: false,
            detail: None,
            confirm_delete: None,
            status: String::new(),
            warnings: scan.warnings,
            should_quit: false,
        };
        app.project_state = ListState { selected: Some(0) };
        app.rebuild_views();
        proof {
            lemma_all_listed(app.sessions@, app.search_query@, app.sessions@.len() as int);
            lemma_matching_indices_valid(app.sessions@, Some("All Sessions"@), app.search_query@, app.sessions@.len() as int);
        }
        assert(project_at(app.projects@, Some(0usize)) == Some("All Sessions"@));
        app.status = if app.root_exists {
            let count = decimal_string(app.sessions.len() as u64);
            let head = concat2("Loaded ", count.as_str());
            concat2(head.as_str(), " sessions")
        } else {
            concat2("No Codex sessions found at ", app.scan_root_label)
        };
        app
    }
}

/// Every session is listed under `All Sessions` with an empty search.
proof fn lemma_all_listed(sessions: Seq<Session>, query: Seq<char>, n: int)
    requires
        0 <= n <= sessions.len(),
        query.len() == 0,
    ensures
        matching_indices(sessions, Some("All Sessions"@), query, n).len() == n,
    decreases n,
{
    if n > 0 {
        lemma_all_listed(sessions, query, n - 1);
    }
}

// ---------------------------------------------------------------------------
// Moving around
// ---------------------------------------------------------------------------
/// The other list.
pub open spec fn other_focus(f: Focus) -> Focus {
    match f {
        Focus::Projects => Focus::Sessions,
        Focus::Sessions => Focus::Projects,
    }
}

/// The row above `sel` in a list of `len` rows (the first row stays).
pub open spec fn row_up(sel: Option<usize>, len: nat) -> Option<usize> {
    if len == 0 {
        None
    } else {
        let cur: int = match sel {
            Some(r) => r as int,
            None => 0,
        };
        Some((if cur > 0 {
            cur - 1
        } else {
            0
        }) as usize)
    }
}

/// The row below `sel` in a list of `len` rows (the last row stays; with no
/// row selected, the first).
pub open spec fn row_down(sel: Option<usize>, len: nat) -> Option<usize> {
    if len == 0 {
        None
    } else {
        match sel {
            Some(r) => if r + 1 < len {
                Some((r + 1) as usize)
            } else {
                Some(r)
            },
            None => Some(0usize),
        }
    }
}

/// `new` is `old` with the project row set to `sel`; when that moved to
/// another project, the rows are rebuilt keeping the selected session.
pub open spec fn project_row_set(old: App, new: App, sel: Option<usize>) -> bool {
    let mid = App { project_state: ListState { selected: sel }, ..old };
    if old.projects@.len() > 0 && sel != old.project_state.selected {
        refiltered(mid, new, old.current_path())
    } else {
        new == mid
    }
}

/// `new` is `old` with the session row set to `sel`.
pub open spec fn session_row_set(old: App, new: App, sel: Option<usize>) -> bool {
    new == (App { session_state: ListState { selected: sel }, ..old })
}

/// Up: the row above in the focused list.
pub open spec fn moved_up(old: App, new: App) -> bool {
    match old.focus {
        Focus::Projects => project_row_set(old, new, row_up(old.project_state.selected, old.projects@.len())),
        Focus::Sessions => session_row_set(
            old,
            new,
            row_up(old.session_state.selected, old.filtered_session_indices@.len()),
        ),
    }
}

/// Down: the row below in the focused list.
pub open spec fn moved_down(old: App, new: App) -> bool {
    match old.focus {
        Focus::Projects => project_row_set(
            old,
            new,
            row_down(old.project_state.selected, old.projects@.len()),
        ),
        Focus::Sessions => session_row_set(
            old,
            new,
            row_down(old.session_state.selected, old.filtered_session_indices@.len()),
        ),
    }
}

/// `g`: the first row of the focused list, when it has rows; choosing a
/// project rebuilds the rows.
pub open spec fn jumped_top(old: App, new: App) -> bool {
    match old.focus {
        Focus::Projects => if old.projects@.len() > 0 {
            refiltered(
                App { project_state: ListState { selected: Some(0usize) }, ..old },
                new,
                old.current_path(),
            )
        } else {
            new == old
        },
        Focus::Sessions => if old.filtered_session_indices@.len() > 0 {
            session_row_set(old, new, Some(0usize))
        } else {
            new == old
        },
    }
}

/// `G`: the last row of the focused list, when it has rows; choosing a
/// project rebuilds the rows.
pub open spec fn jumped_bottom(old: App, new: App) -> bool {
    match old.focus {
        Focus::Projects => if old.projects@.len() > 0 {
            refiltered(
                App { project_state: ListState { selected: Some((old.projects@.len() - 1) as usize) }, ..old },
                new,
                old.current_path(),
            )
        } else {
            new == old
        },
        Focus::Sessions => if old.filtered_session_indices@.len() > 0 {
            session_row_set(old, new, Some((old.filtered_session_indices@.len() - 1) as usize))
        } else {
            new == old
        },
    }
}

fn move_state_up(state: &mut ListState, len: usize) -> (changed: bool)
    ensures
        final(state).selected == row_up(old(state).selected, len as nat),
        changed == (len > 0 && final(state).selected != old(state).selected),
{
    if len == 0 {
        state.selected = None;
        return false;
    }
    let cur = match state.selected {
        Some(r) => r,
        None => 0,
    };
    let next = if cur > 0 {
        cur - 1
    } else {
        0
    };
    let changed = state.selected != Some(next);
    state.selected = Some(next);
    changed
}

fn move_state_down(state: &mut ListState, len: usize) -> (changed: bool)
    ensures
        final(state).selected == row_down(old(state).selected, len as nat),
        changed == (len > 0 && final(state).selected != old(state).selected),
{
    if len == 0 {
        state.selected = None;
        return false;
    }
    let next = match state.selected {
        Some(r) => if r < len - 1 {
            r + 1
        } else {
            r
        },
        None => 0,
    };
    let changed = state.selected != Some(next);
    state.selected = Some(next);
    changed
}

impl App {
    fn toggle_focus(&mut self)
        ensures
            *final(self) == (App { focus: other_focus(old(self).focus), ..*old(self) }),
    {
        self.focus = match self.focus {
            Focus::Projects => Focus::Sessions,
            Focus::Sessions => Focus::Projects,
        };
    }

    fn move_up(&mut self)
        ensures
            moved_up(*old(self), *final(self)),
    {
        match self.focus {
            Focus::Projects => {
                let len = self.projects.len();
                let changed = move_state_up(&mut self.project_state, len);
                if changed {
                    self.rebuild_filtered_sessions();
                }
            },
            Focus::Sessions => {
                let len = self.filtered_session_indices.len();
                move_state_up(&mut self.session_state, len);
            },
        }
    }

    fn move_down(&mut self)
        ensures
            moved_down(*old(self), *final(self)),
    {
        match self.focus {
            Focus::Projects => {
                let len = self.projects.len();
                let changed = move_state_down(&mut self.project_state, len);
                if changed {
                    self.rebuild_filtered_sessions();
                }
            },
            Focus::Sessions => {
                let len = self.filtered_session_indices.len();
                move_state_down(&mut self.session_state, len);
            },
        }
    }

    fn jump_to_top(&mut self)
        ensures
            jumped_top(*old(self), *final(self)),
    {
        match self.focus {
            Focus::Projects => {
                if self.projects.len() > 0 {
                    self.project_state = ListState { selected: Some(0) };
                    self.rebuild_filtered_sessions();
                }
            },
            Focus::Sessions => {
                if self.filtered_session_indices.len() > 0 {
                    self.session_state = ListState { selected: Some(0) };
                }
            },
        }
    }

    fn jump_to_bottom(&mut self)
        ensures
            jumped_bottom(*old(self), *final(self)),
    {
        match self.focus {
            Focus::Projects => {
                if self.projects.len() > 0 {
                    self.project_state = ListState { selected: Some(self.projects.len() - 1) };
                    self.rebuild_filtered_sessions();
                }
            },
            Focus::Sessions => {
                if self.filtered_session_indices.len() > 0 {
                    self.session_state = ListState {
                        selected: Some(self.filtered_session_indices.len() - 1),
                    };
                }
            },
        }
    }
}

// ---------------------------------------------------------------------------
// Marking and asking for deletion
// ---------------------------------------------------------------------------
/// Space: the selected session's mark flipped, with a status naming it.
pub open spec fn toggled_selection(old: App, new: App) -> bool {
    match old.current_index() {
        Some(k) => if k < old.sessions@.len() {
            let s = old.sessions@[k as int];
            &&& new.sessions@ == old.sessions@.update(k as int, Session { selected: !s.selected, ..s })
            &&& new.status@ == (if !s.selected {
                "Selected "@
            } else {
                "Unselected "@
            }) + s.id@
            &&& new == (App { sessions: new.sessions, status: new.status, ..old })
        } else {
            new == old
        },
        None => new == old,
    }
}

proof fn lemma_matching_indices_same(
    a: Seq<Session>,
    b: Seq<Session>,
    project: Option<Seq<char>>,
    query: Seq<char>,
    n: int,
)
    requires
        0 <= n <= a.len(),
        a.len() == b.len(),
        forall|k: int| 0 <= k < n ==> session_matches(a[k], project, query) == session_matches(b[k], project, query),
    ensures
        matching_indices(a, project, query, n) == matching_indices(b, project, query, n),
    decreases n,
{
    if n > 0 {
        lemma_matching_indices_same(a, b, project, query, n - 1);
        assert(session_matches(a[n - 1], project, query) == session_matches(b[n - 1], project, query));
    }
}

/// Marking a session keeps the state consistent: the rows do not depend on
/// the marks.
proof fn lemma_toggled_wf(old: App, new: App)
    requires
        old.wf(),
        toggled_selection(old, new),
    ensures
        new.wf(),
{
    if old.current_index() is Some && old.current_index()->0 < old.sessions@.len() {
        let k = old.current_index()->0;
        let s = old.sessions@[k as int];
        assert forall|j: int| 0 <= j < old.sessions@.len() implies session_matches(
            old.sessions@[j],
            old.current_project_path(),
            old.search_query@,
        ) == session_matches(new.sessions@[j], old.current_project_path(), old.search_query@) by {
            if j == k {
                assert(new.sessions@[j].blob() == s.blob());
            }
        }
        lemma_matching_indices_same(
            old.sessions@,
            new.sessions@,
            old.current_project_path(),
            old.search_query@,
            old.sessions@.len() as int,
        );
    }
}

/// `d`: a confirmation asked for deleting the selected session.
pub open spec fn queued_current(old: App, new: App) -> bool {
    match old.current_index() {
        Some(k) => if k < old.sessions@.len() {
            &&& new.confirm_delete matches Some(req) && req.session_indices@ == seq![k]
                && req.prompt@ == "Delete this session? y/N ["@ + old.sessions@[k as int].id@ + "]"@
            &&& new == (App { confirm_delete: new.confirm_delete, ..old })
        } else {
            new == old
        },
        None => new == old,
    }
}

/// The indices, in order, of the marked sessions among the first `n`.
pub open spec fn marked_indices(s: Seq<Session>, n: int) -> Seq<usize>
    decreases n,
{
    if n <= 0 {
        seq![]
    } else {
        let r = marked_indices(s, n - 1);
        if s[n - 1].selected {
            r.push((n - 1) as usize)
        } else {
            r
        }
    }
}

/// `D`: a confirmation asked for deleting the marked sessions; a status
/// when none is marked.
pub open spec fn queued_marked(old: App, new: App) -> bool {
    let idx = marked_indices(old.sessions@, old.sessions@.len() as int);
    if idx.len() == 0 {
        &&& new.status@ == "No selected sessions"@
        &&& new == (App { status: new.status, ..old })
    } else {
        &&& new.confirm_delete matches Some(req) && req.session_indices@ == idx && req.prompt@
            == "Delete selected "@ + decimal(idx.len()) + " sessions? y/N"@
        &&& new == (App { confirm_delete: new.confirm_delete, ..old })
    }
}

proof fn lemma_marked_indices_len(s: Seq<Session>, n: int)
    requires
        0 <= n <= s.len(),
    ensures
        marked_indices(s, n).len() <= n,
        forall|i: int| 0 <= i < marked_indices(s, n).len() ==> #[trigger] marked_indices(s, n)[i] < n,
    decreases n,
{
    if n > 0 {
        lemma_marked_indices_len(s, n - 1);
    }
}

impl App {
    fn toggle_current_selection(&mut self)
        ensures
            toggled_selection(*old(self), *final(self)),
    {
        let k = match self.current_session_index() {
            Some(k) => k,
            None => {
                return;
            },
        };
        if k >= self.sessions.len() {
            return;
        }
        let mut s = self.sessions[k].copied();
        s.selected = !s.selected;
        let status = if s.selected {
            concat2("Selected ", s.id.as_str())
        } else {
            concat2("Unselected ", s.id.as_str())
        };
        self.sessions.set(k, s);
        self.status = status;
    }

    fn queue_current_delete(&mut self)
        ensures
            queued_current(*old(self), *final(self)),
    {
        let k = match self.current_session_index() {
            Some(k) => k,
            None => {
                return;
            },
        };
        if k >= self.sessions.len() {
            return;
        }
        let head = concat2("Delete this session? y/N [", self.sessions[k].id.as_str());
        let prompt = concat2(head.as_str(), "]");
        let mut indices: Vec<usize> = Vec::new();
        indices.push(k);
        assert(indices@ =~= seq![k]);
        self.confirm_delete = Some(DeleteRequest { session_indices: indices, prompt });
    }

    fn queue_selected_delete(&mut self)
        ensures
            queued_marked(*old(self), *final(self)),
    {
        let mut indices: Vec<usize> = Vec::new();
        let mut i: usize = 0;
        while i < self.sessions.len()
            invariant
                i <= self.sessions@.len(),
                indices@ == marked_indices(self.sessions@, i as int),
            decreases self.sessions@.len() - i,
        {
            if self.sessions[i].selected {
                indices.push(i);
            }
            i = i + 1;
        }
        if indices.len() == 0 {
            self.status = owned("No selected sessions");
            return;
        }
        let count = decimal_string(indices.len() as u64);
        let head = concat2("Delete selected ", count.as_str());
        let prompt = concat2(head.as_str(), " sessions? y/N");
        self.confirm_delete = Some(DeleteRequest { session_indices: indices, prompt });
    }
}

// ---------------------------------------------------------------------------
// Deleting
// ---------------------------------------------------------------------------
/// Whether `jobs` is what deleting the requested sessions comes to: each
/// requested index that names a session once, in increasing order, with its
/// file.
pub open spec fn is_delete_plan(requested: Seq<usize>, sessions: Seq<Session>, jobs: Seq<DeleteJob>) -> bool {
    &&& forall|i: int, j: int| 0 <= i < j < jobs.len() ==> #[trigger] jobs[i].index < #[trigger] jobs[j].index
    &&& forall|i: int|
        0 <= i < jobs.len() ==> #[trigger] jobs[i].index < sessions.len() && jobs[i].file_path@
            == sessions[jobs[i].index as int].file_path@ && requested.contains(jobs[i].index)
    &&& forall|k: usize|
        requested.contains(k) && k < sessions.len() ==> exists|i: int|
            0 <= i < jobs.len() && #[trigger] jobs[i].index == k
}

/// A job's session index is among the removed ones exactly when its file
/// went to the trash.
pub proof fn lemma_removed_members(jobs: Seq<DeleteJob>, outcomes: Seq<Option<String>>)
    requires
        jobs.len() == outcomes.len(),
    ensures
        forall|k: usize|
            #[trigger] removed_indices(jobs, outcomes).contains(k) <==> exists|i: int|
                0 <= i < jobs.len() && #[trigger] jobs[i].index == k && outcomes[i] is None,
    decreases jobs.len(),
{
    if jobs.len() > 0 {
        let dj = jobs.drop_last();
        let dout = outcomes.drop_last();
        lemma_removed_members(dj, dout);
        let r = removed_indices(dj, dout);
        let now = removed_indices(jobs, outcomes);
        assert forall|k: usize| #[trigger] now.contains(k) <==> exists|i: int|
            0 <= i < jobs.len() && #[trigger] jobs[i].index == k && outcomes[i] is None by {
            if now.contains(k) {
                let a = choose|a: int| 0 <= a < now.len() && now[a] == k;
                if a < r.len() {
                    assert(r[a] == k);
                    assert(r.contains(k));
                    let i = choose|i: int| 0 <= i < dj.len() && #[trigger] dj[i].index == k && dout[i] is None;
                    assert(jobs[i] == dj[i]);
                    assert(outcomes[i] == dout[i]);
                } else {
                    let i = jobs.len() - 1;
                    assert(jobs[i].index == k);
                }
            }
            if exists|i: int| 0 <= i < jobs.len() && #[trigger] jobs[i].index == k && outcomes[i] is None {
                let i = choose|i: int| 0 <= i < jobs.len() && #[trigger] jobs[i].index == k && outcomes[i] is None;
                if i < jobs.len() - 1 {
                    assert(dj[i] == jobs[i]);
                    assert(dout[i] == outcomes[i]);
                    assert(r.contains(k));
                    let a = choose|a: int| 0 <= a < r.len() && r[a] == k;
                    if outcomes.last() is None {
                        assert(now[a] == k);
                    } else {
                        assert(now == r);
                    }
                } else {
                    assert(now[now.len() - 1] == k);
                }
            }
        }
    }
}

/// The indices of the jobs whose file went to the trash, in order.
pub open spec fn removed_indices(jobs: Seq<DeleteJob>, outcomes: Seq<Option<String>>) -> Seq<usize>
    decreases jobs.len(),
{
    if jobs.len() == 0 || outcomes.len() == 0 {
        seq![]
    } else {
        let r = removed_indices(jobs.drop_last(), outcomes.drop_last());
        if outcomes.last() is None {
            r.push(jobs.last().index)
        } else {
            r
        }
    }
}

/// The failure messages of the jobs whose file did not move, in order:
/// the file, a colon, and the error.
pub open spec fn failure_texts(jobs: Seq<DeleteJob>, outcomes: Seq<Option<String>>) -> Seq<Seq<char>>
    decreases jobs.len(),
{
    if jobs.len() == 0 || outcomes.len() == 0 {
        seq![]
    } else {
        let r = failure_texts(jobs.drop_last(), outcomes.drop_last());
        match outcomes.last() {
            Some(m) => r.push(jobs.last().file_path@ + ": "@ + m@),
            None => r,
        }
    }
}

/// The sessions among the first `n` whose index is not in `gone`.
pub open spec fn kept(s: Seq<Session>, gone: Seq<usize>, n: int) -> Seq<Session>
    decreases n,
{
    if n <= 0 {
        seq![]
    } else {
        let r = kept(s, gone, n - 1);
        if gone.contains((n - 1) as usize) {
            r
        } else {
            r.push(s[n - 1])
        }
    }
}

/// How many of the indices below `n` are in `gone`.
pub open spec fn hits(gone: Seq<usize>, n: int) -> nat
    decreases n,
{
    if n <= 0 {
        0
    } else {
        hits(gone, n - 1) + if gone.contains((n - 1) as usize) {
            1nat
        } else {
            0nat
        }
    }
}

proof fn lemma_kept_len(s: Seq<Session>, gone: Seq<usize>, n: int)
    requires
        0 <= n <= s.len(),
    ensures
        kept(s, gone, n).len() + hits(gone, n) == n,
    decreases n,
{
    if n > 0 {
        lemma_kept_len(s, gone, n - 1);
    }
}

proof fn lemma_hits_push(g: Seq<usize>, m: usize, n: int)
    requires
        !g.contains(m),
        0 <= n <= usize::MAX + 1,
    ensures
        hits(g.push(m), n) == hits(g, n) + if m < n {
            1nat
        } else {
            0nat
        },
    decreases n,
{
    if n > 0 {
        lemma_hits_push(g, m, n - 1);
        let k = (n - 1) as usize;
        assert(k as int == n - 1);
        assert(g.push(m).contains(k) == (g.contains(k) || k == m)) by {
            if g.push(m).contains(k) {
                let i = choose|i: int| 0 <= i < g.push(m).len() && g.push(m)[i] == k;
                if i < g.len() {
                    assert(g[i] == k);
                }
            }
            if g.contains(k) {
                let i = choose|i: int| 0 <= i < g.len() && g[i] == k;
                assert(g.push(m)[i] == k);
            }
            if k == m {
                assert(g.push(m)[g.len() as int] == m);
            }
        }
    }
}

proof fn lemma_hits_all(g: Seq<usize>, n: int)
    requires
        0 <= n <= usize::MAX + 1,
        forall|i: int, j: int| 0 <= i < j < g.len() ==> #[trigger] g[i] < #[trigger] g[j],
        forall|i: int| 0 <= i < g.len() ==> #[trigger] g[i] < n,
    ensures
        hits(g, n) == g.len(),
    decreases g.len(),
{
    if g.len() == 0 {
        lemma_hits_none(g, n);
    } else {
        let d = g.drop_last();
        let m = g.last();
        assert forall|i: int, j: int| 0 <= i < j < d.len() implies #[trigger] d[i] < #[trigger] d[j] by {
            assert(d[i] == g[i] && d[j] == g[j]);
        }
        assert forall|i: int| 0 <= i < d.len() implies #[trigger] d[i] < n by {
            assert(d[i] == g[i]);
        }
        lemma_hits_all(d, n);
        assert(!d.contains(m)) by {
            if d.contains(m) {
                let i = choose|i: int| 0 <= i < d.len() && d[i] == m;
                assert(g[i] < g[g.len() - 1]);
            }
        }
        assert(d.push(m) =~= g);
        lemma_hits_push(d, m, n);
    }
}

proof fn lemma_hits_none(g: Seq<usize>, n: int)
    requires
        g.len() == 0,
    ensures
        hits(g, n) == 0,
    decreases n,
{
    if n > 0 {
        lemma_hits_none(g, n - 1);
    }
}

proof fn lemma_kept_members(s: Seq<Session>, gone: Seq<usize>, n: int)
    requires
        0 <= n <= s.len(),
        n <= usize::MAX + 1,
    ensures
        forall|k: int| 0 <= k < n && !gone.contains(k as usize) ==> kept(s, gone, n).contains(#[trigger] s[k]),
        forall|x: Session|
            kept(s, gone, n).contains(x) ==> exists|k: int|
                0 <= k < n && !gone.contains(k as usize) && #[trigger] s[k] == x,
    decreases n,
{
    if n > 0 {
        lemma_kept_members(s, gone, n - 1);
        let r = kept(s, gone, n - 1);
        let now = kept(s, gone, n);
        if !gone.contains((n - 1) as usize) {
            assert(now == r.push(s[n - 1]));
            assert(now[r.len() as int] == s[n - 1]);
            assert forall|k: int| 0 <= k < n && !gone.contains(k as usize) implies now.contains(#[trigger] s[k]) by {
                if k < n - 1 {
                    let i = choose|i: int| 0 <= i < r.len() && r[i] == s[k];
                    assert(now[i] == s[k]);
                }
            }
            assert forall|x: Session| now.contains(x) implies exists|k: int|
                0 <= k < n && !gone.contains(k as usize) && #[trigger] s[k] == x by {
                let i = choose|i: int| 0 <= i < now.len() && now[i] == x;
                if i < r.len() {
                    assert(r[i] == x);
                    assert(r.contains(x));
                } else {
                    assert(s[n - 1] == x);
                }
            }
        }
    }
}

/// The status after a deletion.
pub open spec fn delete_status(removed: nat, failures: Seq<Seq<char>>) -> Seq<char> {
    if removed > 0 && failures.len() == 0 {
        "Moved "@ + decimal(removed) + " session(s) to trash"@
    } else if removed > 0 {
        "Moved "@ + decimal(removed) + " session(s); "@ + decimal(failures.len()) + " failure(s)"@
    } else if failures.len() > 0 {
        failures[0]
    } else {
        "No sessions deleted"@
    }
}

/// Whether some session has the file `path`.
pub open spec fn has_file(sessions: Seq<Session>, path: Seq<char>) -> bool {
    exists|i: int| 0 <= i < sessions.len() && same_path(#[trigger] sessions[i].file_path@, path)
}

/// The views of `new` rebuilt from its sessions: the project list, the
/// project row (the first when none was selected), and the rows, keeping the
/// session that the rows before showed at the selected row.
pub open spec fn rebuilt_views(new: App, project_sel: Option<usize>, rows_before: Seq<usize>, sel_before: Option<usize>) -> bool {
    let sel = match project_sel {
        Some(i) => Some(i),
        None => Some(0usize),
    };
    let rows = matching_indices(
        new.sessions@,
        project_at(new.projects@, sel),
        new.search_query@,
        new.sessions@.len() as int,
    );
    &&& is_project_list(new.sessions@, new.projects@)
    &&& new.project_state.selected == sel
    &&& new.filtered_session_indices@ == rows
    &&& new.session_state.selected == reselected(
        new.sessions@,
        rows,
        path_at(new.sessions@, rows_before, sel_before),
        sel_before,
    )
}

/// The delete plan for the requested indices.
fn delete_plan(requested: &Vec<usize>, sessions: &Vec<Session>) -> (r: Vec<DeleteJob>)
    ensures
        is_delete_plan(requested@, sessions@, r@),
{
    let mut plan: Vec<usize> = Vec::new();
    let mut i: usize = 0;
    while i < requested.len()
        invariant
            i <= requested@.len(),
            forall|a: int, b: int| 0 <= a < b < plan@.len() ==> #[trigger] plan@[a] < #[trigger] plan@[b],
            forall|a: int|
                0 <= a < plan@.len() ==> #[trigger] plan@[a] < sessions@.len() && requested@.contains(
                    plan@[a],
                ),
            forall|k: usize|
                requested@.take(i as int).contains(k) && k < sessions@.len() ==> plan@.contains(k),
        decreases requested@.len() - i,
    {
        let v = requested[i];
        let ghost before = plan@;
        assert(requested@.take(i + 1) =~= requested@.take(i as int).push(v));
        if v < sessions.len() {
            let mut p: usize = 0;
            while p < plan.len() && plan[p] < v
                invariant
                    p <= plan@.len(),
                    plan@ == before,
                    forall|a: int| 0 <= a < p ==> #[trigger] plan@[a] < v,
                decreases plan@.len() - p,
            {
                p = p + 1;
            }
            if p == plan.len() || plan[p] != v {
                plan.insert(p, v);
                proof {
                    assert forall|a: int, b: int| 0 <= a < b < plan@.len() implies #[trigger] plan@[a]
                        < #[trigger] plan@[b] by {
                        if b < p {
                            assert(plan@[a] == before[a] && plan@[b] == before[b]);
                        } else if b == p {
                            assert(plan@[a] == before[a]);
                        } else if a < p {
                            assert(plan@[a] == before[a] && plan@[b] == before[b - 1]);
                        } else if a == p {
                            assert(plan@[b] == before[b - 1]);
                            if b - 1 > p {
                                assert(before[p as int] < before[b - 1]);
                            }
                        } else {
                            assert(plan@[a] == before[a - 1] && plan@[b] == before[b - 1]);
                        }
                    }
                    assert(plan@[p as int] == v);
                    assert forall|a: int| 0 <= a < plan@.len() implies #[trigger] plan@[a]
                        < sessions@.len() && requested@.contains(plan@[a]) by {
                        if a < p {
                            assert(plan@[a] == before[a]);
                        } else if a == p {
                            assert(requested@[i as int] == v);
                        } else {
                            assert(plan@[a] == before[a - 1]);
                        }
                    }
                    assert forall|k: usize|
                        requested@.take(i + 1).contains(k) && k < sessions@.len() implies plan@.contains(
                        k,
                    ) by {
                        if k == v {
                            assert(plan@[p as int] == v);
                        } else {
                            assert(requested@.take(i as int).contains(k));
                            assert(before.contains(k));
                            let a = choose|a: int| 0 <= a < before.len() && before[a] == k;
                            if a < p {
                                assert(plan@[a] == k);
                            } else {
                                assert(plan@[a + 1] == k);
                            }
                        }
                    }
                }
            } else {
                assert(plan@[p as int] == v);
            }
        }
        i = i + 1;
    }
    assert(requested@.take(requested@.len() as int) =~= requested@);
    let mut jobs: Vec<DeleteJob> = Vec::new();
    let mut j: usize = 0;
    while j < plan.len()
        invariant
            j <= plan@.len(),
            jobs@.len() == j,
            forall|a: int| 0 <= a < plan@.len() ==> #[trigger] plan@[a] < sessions@.len(),
            forall|a: int|
                0 <= a < j ==> #[trigger] jobs@[a].index == plan@[a] && jobs@[a].file_path@
                    == sessions@[plan@[a] as int].file_path@,
        decreases plan@.len() - j,
    {
        let k = plan[j];
        jobs.push(DeleteJob { index: k, file_path: sessions[k].file_path.clone() });
        j = j + 1;
    }
    assert forall|k: usize| requested@.contains(k) && k < sessions@.len() implies exists|i: int|
        0 <= i < jobs@.len() && #[trigger] jobs@[i].index == k by {
        assert(requested@.take(requested@.len() as int).contains(k));
        assert(plan@.contains(k));
        let a = choose|a: int| 0 <= a < plan@.len() && plan@[a] == k;
        assert(jobs@[a].index == k);
    }
    jobs
}

proof fn lemma_removed_sorted(jobs: Seq<DeleteJob>, outcomes: Seq<Option<String>>, n: nat)
    requires
        jobs.len() == outcomes.len(),
        forall|i: int, j: int| 0 <= i < j < jobs.len() ==> #[trigger] jobs[i].index < #[trigger] jobs[j].index,
        forall|i: int| 0 <= i < jobs.len() ==> #[trigger] jobs[i].index < n,
    ensures
        forall|i: int, j: int|
            0 <= i < j < removed_indices(jobs, outcomes).len() ==> #[trigger] removed_indices(
                jobs,
                outcomes,
            )[i] < #[trigger] removed_indices(jobs, outcomes)[j],
        forall|i: int|
            0 <= i < removed_indices(jobs, outcomes).len() ==> #[trigger] removed_indices(jobs, outcomes)[i]
                < n,
        removed_indices(jobs, outcomes).len() <= jobs.len(),
        jobs.len() > 0 && removed_indices(jobs, outcomes).len() > 0 ==> removed_indices(
            jobs,
            outcomes,
        ).last() <= jobs.last().index,
    decreases jobs.len(),
{
    if jobs.len() > 0 {
        lemma_removed_sorted(jobs.drop_last(), outcomes.drop_last(), n);
        let r = removed_indices(jobs.drop_last(), outcomes.drop_last());
        if r.len() > 0 && jobs.len() > 1 {
            assert(jobs.drop_last().last() == jobs[jobs.len() - 2]);
        }
    }
}

impl App {
    /// Applies the outcome of moving files to the trash: `outcomes[k]` is
    /// `None` when the file of `jobs[k]` was moved, else the error's message.
    /// The moved sessions leave the list, the detail closes when its session
    /// left, the views are rebuilt, the status tells what happened and the
    /// failures join the warnings.
    pub fn finish_delete(&mut self, jobs: &Vec<DeleteJob>, outcomes: &Vec<Option<String>>)
        requires
            jobs@.len() == outcomes@.len(),
            forall|i: int, j: int|
                0 <= i < j < jobs@.len() ==> #[trigger] jobs@[i].index < #[trigger] jobs@[j].index,
            forall|i: int| 0 <= i < jobs@.len() ==> #[trigger] jobs@[i].index < old(self).sessions@.len(),
        ensures
            ({
                let removed = removed_indices(jobs@, outcomes@);
                let failures = failure_texts(jobs@, outcomes@);
                &&& final(self).sessions@ == kept(old(self).sessions@, removed, old(self).sessions@.len() as int)
                &&& final(self).detail == match old(self).detail {
                    Some(d) => if has_file(final(self).sessions@, d.session.file_path@) {
                        old(self).detail
                    } else {
                        None
                    },
                    None => None,
                }
                &&& rebuilt_views(
                    *final(self),
                    old(self).project_state.selected,
                    old(self).filtered_session_indices@,
                    old(self).session_state.selected,
                )
                &&& final(self).status@ == delete_status(removed.len(), failures)
                &&& crate::scanner::texts(final(self).warnings@) == crate::scanner::texts(old(self).warnings@) + failures
                &&& *final(self) == (App {
                    sessions: final(self).sessions,
                    detail: final(self).detail,
                    projects: final(self).projects,
                    project_state: final(self).project_state,
                    filtered_session_indices: final(self).filtered_session_indices,
                    session_state: final(self).session_state,
                    status: final(self).status,
                    warnings: final(self).warnings,
                    ..*old(self)
                })
            }),
            final(self).wf(),
            forall|k: usize|
                #[trigger] removed_indices(jobs@, outcomes@).contains(k) <==> exists|i: int|
                    0 <= i < jobs@.len() && #[trigger] jobs@[i].index == k && outcomes@[i] is None,
            final(self).sessions@.len() == old(self).sessions@.len() - removed_indices(jobs@, outcomes@).len(),
            forall|k: int|
                0 <= k < old(self).sessions@.len() && !removed_indices(jobs@, outcomes@).contains(k as usize)
                    ==> final(self).sessions@.contains(#[trigger] old(self).sessions@[k]),
            forall|x: Session|
                final(self).sessions@.contains(x) ==> exists|k: int|
                    0 <= k < old(self).sessions@.len() && !removed_indices(jobs@, outcomes@).contains(k as usize)
                        && #[trigger] old(self).sessions@[k] == x,
    {
        let ghost jv = jobs@;
        let ghost start_sessions = self.sessions@;
        proof {
            lemma_removed_members(jobs@, outcomes@);
        }
        let ghost ov = outcomes@;
        let mut removed: Vec<usize> = Vec::new();
        let mut failures: Vec<String> = Vec::new();
        let mut i: usize = 0;
        while i < jobs.len()
            invariant
                jobs@.len() == outcomes@.len(),
                i <= jobs@.len(),
                removed@ == removed_indices(jobs@.take(i as int), outcomes@.take(i as int)),
                crate::scanner::texts(failures@) == failure_texts(jobs@.take(i as int), outcomes@.take(i as int)),
            decreases jobs@.len() - i,
        {
            assert(jobs@.take(i + 1).drop_last() =~= jobs@.take(i as int));
            assert(outcomes@.take(i + 1).drop_last() =~= outcomes@.take(i as int));
            let ghost before = crate::scanner::texts(failures@);
            match &outcomes[i] {
                None => {
                    removed.push(jobs[i].index);
                },
                Some(m) => {
                    let head = concat2(jobs[i].file_path.as_str(), ": ");
                    failures.push(concat2(head.as_str(), m.as_str()));
                    assert(crate::scanner::texts(failures@) =~= before.push(
                        jobs@[i as int].file_path@ + ": "@ + m@,
                    ));
                },
            }
            i = i + 1;
        }
        assert(jobs@.take(jobs@.len() as int) =~= jobs@);
        assert(outcomes@.take(outcomes@.len() as int) =~= outcomes@);
        proof {
            lemma_removed_sorted(jobs@, outcomes@, self.sessions@.len());
        }
        let ghost gone = removed@;
        let mut remaining: Vec<Session> = Vec::new();
        let mut k: usize = 0;
        while k < self.sessions.len()
            invariant
                k <= self.sessions@.len(),
                removed@ == gone,
                remaining@ == kept(self.sessions@, gone, k as int),
            decreases self.sessions@.len() - k,
        {
            let mut found = false;
            let mut j: usize = 0;
            while j < removed.len()
                invariant
                    j <= removed@.len(),
                    removed@ == gone,
                    found == exists|a: int| 0 <= a < j && #[trigger] removed@[a] == k,
                decreases removed@.len() - j,
            {
                if removed[j] == k {
                    found = true;
                }
                j = j + 1;
            }
            if !found {
                remaining.push(self.sessions[k].copied());
            }
            k = k + 1;
        }
        proof {
            let n = self.sessions@.len() as int;
            assert(self.sessions@.len() == self.sessions.len());
            lemma_kept_len(self.sessions@, gone, n);
            lemma_hits_all(gone, n);
            lemma_kept_members(self.sessions@, gone, n);
        }
        let ghost old_project_sel = self.project_state.selected;
        let ghost old_rows = self.filtered_session_indices@;
        let ghost old_sel = self.session_state.selected;
        self.sessions = remaining;
        let close_detail = match &self.detail {
            Some(d) => !self.holds_file(d.session.file_path.as_str()),
            None => false,
        };
        if close_detail {
            self.detail = None;
        }
        self.rebuild_views();
        let removed_count = removed.len();
        let failure_count = failures.len();
        self.status = if removed_count > 0 && failure_count == 0 {
            let n = decimal_string(removed_count as u64);
            let a = concat2("Moved ", n.as_str());
            concat2(a.as_str(), " session(s) to trash")
        } else if removed_count > 0 {
            let n = decimal_string(removed_count as u64);
            let m = decimal_string(failure_count as u64);
            let a = concat2("Moved ", n.as_str());
            let b = concat2(a.as_str(), " session(s); ");
            let c = concat2(b.as_str(), m.as_str());
            concat2(c.as_str(), " failure(s)")
        } else if failure_count > 0 {
            failures[0].clone()
        } else {
            owned("No sessions deleted")
        };
        let ghost old_warnings = crate::scanner::texts(self.warnings@);
        let ghost fv = crate::scanner::texts(failures@);
        self.warnings.append(&mut failures);
        assert(crate::scanner::texts(self.warnings@) =~= old_warnings + fv);
    }

    /// Whether some session has the file `path`.
    fn holds_file(&self, path: &str) -> (r: bool)
        ensures
            r == has_file(self.sessions@, path@),
    {
        let mut i: usize = 0;
        while i < self.sessions.len()
            invariant
                i <= self.sessions@.len(),
                forall|j: int| 0 <= j < i ==> !same_path(#[trigger] self.sessions@[j].file_path@, path@),
            decreases self.sessions@.len() - i,
        {
            if paths_equal(self.sessions[i].file_path.as_str(), path) {
                return true;
            }
            i = i + 1;
        }
        false
    }
}

// ---------------------------------------------------------------------------
// Rescanning and loading details
// ---------------------------------------------------------------------------
/// The first project whose path is `want`, or -1.
pub open spec fn project_row(projects: Seq<Project>, want: Seq<char>) -> int
    decreases projects.len(),
{
    if projects.len() == 0 {
        -1
    } else if project_row(projects.drop_last(), want) >= 0 {
        project_row(projects.drop_last(), want)
    } else if projects.last().path@ == want {
        projects.len() - 1
    } else {
        -1
    }
}

/// `new` is `old` after a rescan that gave `scan`: the scanned sessions and
/// warnings, the project list rebuilt with the same project selected when it
/// is still there (else the first), the rows rebuilt keeping the selected
/// session, the popups closed and a status telling how many sessions there
/// are or that the directory is missing.
pub open spec fn refreshed(old: App, scan: ScanResult, new: App) -> bool {
    let want = match old.current_project_path() {
        Some(p) => p,
        None => "All Sessions"@,
    };
    let pr = project_row(new.projects@, want);
    let sel = Some(
        if pr >= 0 {
            pr as usize
        } else {
            0usize
        },
    );
    let rows = matching_indices(
        new.sessions@,
        project_at(new.projects@, sel),
        old.search_query@,
        new.sessions@.len() as int,
    );
    &&& new.root_exists == scan.root_exists
    &&& new.sessions == scan.sessions
    &&& new.warnings == scan.warnings
    &&& is_project_list(new.sessions@, new.projects@)
    &&& new.project_state.selected == sel
    &&& new.filtered_session_indices@ == rows
    &&& new.session_state.selected == reselected(
        new.sessions@,
        rows,
        old.current_path(),
        old.session_state.selected,
    )
    &&& new.detail is None
    &&& new.confirm_delete is None
    &&& new.status@ == if scan.root_exists {
        "Refreshed "@ + decimal(new.sessions@.len()) + " sessions"@
    } else {
        "No Codex sessions found at "@ + old.scan_root_label@
    }
    &&& new == (App {
        root_exists: new.root_exists,
        sessions: new.sessions,
        warnings: new.warnings,
        projects: new.projects,
        project_state: new.project_state,
        filtered_session_indices: new.filtered_session_indices,
        session_state: new.session_state,
        detail: new.detail,
        confirm_delete: new.confirm_delete,
        status: new.status,
        ..old
    })
}

impl App {
    /// Applies the result of a rescan.
    pub fn finish_refresh(&mut self, scan: ScanResult)
        ensures
            refreshed(*old(self), scan, *final(self)),
            final(self).wf(),
    {
        let selected_project: Option<String> = match self.current_project() {
            Some(p) => Some(p.path.clone()),
            None => None,
        };
        let target: Option<String> = match self.current_session() {
            Some(s) => Some(s.file_path.clone()),
            None => None,
        };
        let ghost old_path = self.current_path();
        let ghost want = match self.current_project_path() {
            Some(p) => p,
            None => "All Sessions"@,
        };
        let want_text = match selected_project {
            Some(p) => p,
            None => owned("All Sessions"),
        };
        assert(want_text@ == want);
        self.root_exists = scan.root_exists;
        self.sessions = scan.sessions;
        self.warnings = scan.warnings;
        self.projects = build_projects(&self.sessions);
        let mut i: usize = 0;
        let mut found: Option<usize> = None;
        while i < self.projects.len()
            invariant_except_break
                i <= self.projects@.len(),
                want_text@ == want,
                found is None,
                project_row(self.projects@.take(i as int), want) == -1,
            ensures
                found matches Some(f) ==> project_row(self.projects@, want) == f,
                found is None ==> i == self.projects@.len() && project_row(
                    self.projects@.take(i as int),
                    want,
                ) == -1,
            decreases self.projects@.len() - i,
        {
            let ghost t = self.projects@.take(i + 1);
            assert(t.drop_last() =~= self.projects@.take(i as int));
            assert(t.last() == self.projects@[i as int]);
            if self.projects[i].path == want_text {
                assert(t.last().path@ == want);
                assert(project_row(t, want) == i);
                proof {
                    lemma_project_row_prefix(self.projects@, want, i as int + 1, i as int);
                }
                found = Some(i);
                break;
            }
            i = i + 1;
        }
        proof {
            if found is None {
                assert(self.projects@.take(self.projects@.len() as int) =~= self.projects@);
            }
        }
        let index = match found {
            Some(f) => f,
            None => 0,
        };
        self.project_state = ListState { selected: Some(index) };
        let ghost mid = *self;
        self.rebuild_filtered_sessions_with_target(target);
        proof {
            lemma_refiltered_wf(mid, *self, old_path);
        }
        self.detail = None;
        self.confirm_delete = None;
        self.status = if self.root_exists {
            let n = decimal_string(self.sessions.len() as u64);
            let a = concat2("Refreshed ", n.as_str());
            concat2(a.as_str(), " sessions")
        } else {
            concat2("No Codex sessions found at ", self.scan_root_label)
        };
    }

    /// Applies the result of loading the selected session's detail: the
    /// detail opens, or the status tells why it could not be loaded.
    pub fn finish_load_detail(&mut self, result: Result<SessionDetail, String>)
        ensures
            match result {
                Ok(d) => *final(self) == (App { detail: Some(d), ..*old(self) }),
                Err(e) => final(self).status@ == "Detail load failed: "@ + e@ && *final(self) == (App {
                    status: final(self).status,
                    ..*old(self)
                }),
            },
            old(self).wf() ==> final(self).wf(),
    {
        match result {
            Ok(d) => {
                self.detail = Some(d);
            },
            Err(e) => {
                self.status = concat2("Detail load failed: ", e.as_str());
            },
        }
    }
}

proof fn lemma_project_row_prefix(projects: Seq<Project>, want: Seq<char>, k: int, r: int)
    requires
        0 <= k <= projects.len(),
        r >= 0,
        project_row(projects.take(k), want) == r,
    ensures
        project_row(projects, want) == r,
    decreases projects.len() - k,
{
    if k == projects.len() {
        assert(projects.take(k) =~= projects);
    } else {
        let t = projects.take(k + 1);
        assert(t.drop_last() =~= projects.take(k));
        lemma_project_row_prefix(projects, want, k + 1, r);
    }
}

// ---------------------------------------------------------------------------
// Keys
// ---------------------------------------------------------------------------
/// A key in search mode: Esc clears the search and leaves search mode,
/// Enter leaves search mode, Backspace drops the last character, any other
/// character without Control is typed; the rows follow the search.
pub open spec fn searched(old: App, key: KeyEvent, new: App) -> bool {
    match key.code {
        KeyCode::Esc => {
            &&& new.search_query@.len() == 0
            &&& new.status@ == "Search cleared"@
            &&& refiltered(
                App { search_query: new.search_query, search_mode: false, ..old },
                App { status: old.status, ..new },
                old.current_path(),
            )
        },
        KeyCode::Enter => new == (App { search_mode: false, ..old }),
        KeyCode::Backspace => {
            &&& new.search_query@ == if old.search_query@.len() > 0 {
                old.search_query@.drop_last()
            } else {
                old.search_query@
            }
            &&& refiltered(App { search_query: new.search_query, ..old }, new, old.current_path())
        },
        KeyCode::Char(c) => if !key.control {
            &&& new.search_query@ == old.search_query@.push(c)
            &&& refiltered(App { search_query: new.search_query, ..old }, new, old.current_path())
        } else {
            new == old
        },
        _ => new == old,
    }
}

/// A key while the detail is open: Esc closes it, `d` asks to delete the
/// selected session, `q` quits.
pub open spec fn detail_keyed(old: App, key: KeyEvent, new: App) -> bool {
    if key.code == KeyCode::Esc {
        new == (App { detail: None, ..old })
    } else if key.code == KeyCode::Char('d') {
        queued_current(old, new)
    } else if key.code == KeyCode::Char('q') {
        new == (App { should_quit: true, ..old })
    } else {
        new == old
    }
}

/// A key while help is shown: `q` quits, Esc or `?` hides help.
pub open spec fn help_keyed(old: App, key: KeyEvent, new: App) -> bool {
    if key.code == KeyCode::Char('q') {
        new == (App { should_quit: true, ..old })
    } else if key.code == KeyCode::Esc || key.code == KeyCode::Char('?') {
        new == (App { show_help: false, ..old })
    } else {
        new == old
    }
}

/// A key while a deletion waits for confirmation: `y` closes the question
/// and asks the caller to move the requested sessions' files to the trash;
/// Esc, `n` or Enter cancel; other keys do nothing.
pub open spec fn confirm_keyed(old: App, key: KeyEvent, new: App, effect: Effect) -> bool {
    let req = old.confirm_delete->0;
    if key.code == KeyCode::Char('y') {
        &&& new == (App { confirm_delete: None, ..old })
        &&& effect matches Effect::Delete(jobs) && is_delete_plan(req.session_indices@, old.sessions@, jobs@)
    } else if key.code == KeyCode::Esc || key.code == KeyCode::Char('n') || key.code == KeyCode::Enter {
        &&& new.status@ == "Delete cancelled"@
        &&& new == (App { confirm_delete: None, status: new.status, ..old })
        &&& effect is Nothing
    } else {
        new == old && effect is Nothing
    }
}

/// Enter in the lists: ask the caller to load the selected session's detail.
pub open spec fn detail_requested(old: App, effect: Effect) -> bool {
    match old.current_index() {
        Some(k) => if k < old.sessions@.len() {
            effect == Effect::LoadDetail(old.sessions@[k as int])
        } else {
            effect is Nothing
        },
        None => effect is Nothing,
    }
}

/// A key in the lists.
pub open spec fn browsed(old: App, key: KeyEvent, new: App, effect: Effect) -> bool {
    if key.code == KeyCode::Enter {
        new == old && detail_requested(old, effect)
    } else if key.code == KeyCode::Char('r') {
        new == old && effect is Rescan
    } else {
        &&& effect is Nothing
        &&& if key.code == KeyCode::Char('q') {
            new == (App { should_quit: true, ..old })
        } else if key.code == KeyCode::Char('?') {
            new == (App { show_help: !old.show_help, ..old })
        } else if key.code == KeyCode::Tab {
            new == (App { focus: other_focus(old.focus), ..old })
        } else if key.code == KeyCode::Up {
            moved_up(old, new)
        } else if key.code == KeyCode::Down {
            moved_down(old, new)
        } else if key.code == KeyCode::Char('/') {
            new == (App { search_mode: true, ..old })
        } else if key.code == KeyCode::Char(' ') {
            toggled_selection(old, new)
        } else if key.code == KeyCode::Char('d') {
            queued_current(old, new)
        } else if key.code == KeyCode::Char('D') {
            queued_marked(old, new)
        } else if key.code == KeyCode::Char('g') {
            jumped_top(old, new)
        } else if key.code == KeyCode::Char('G') {
            jumped_bottom(old, new)
        } else {
            new == old
        }
    }
}

/// How the browser answers a key: only presses count; a pending deletion
/// takes every key, then help, then the open detail, then search mode, then
/// the lists.
pub open spec fn key_step(old: App, key: KeyEvent, new: App, effect: Effect) -> bool {
    if !key.press {
        new == old && effect is Nothing
    } else if old.confirm_delete is Some {
        confirm_keyed(old, key, new, effect)
    } else if old.show_help {
        help_keyed(old, key, new) && effect is Nothing
    } else if old.detail is Some {
        detail_keyed(old, key, new) && effect is Nothing
    } else if old.search_mode {
        searched(old, key, new) && effect is Nothing
    } else {
        browsed(old, key, new, effect)
    }
}

/// Whether `key` is the character `c`.
fn is_char(key: &KeyEvent, c: char) -> (r: bool)
    ensures
        r == (key.code == KeyCode::Char(c)),
{
    match key.code {
        KeyCode::Char(x) => x == c,
        _ => false,
    }
}

proof fn lemma_row_step_wf(old: App, new: App)
    requires
        old.wf(),
        moved_up(old, new) || moved_down(old, new) || jumped_top(old, new) || jumped_bottom(old, new),
    ensures
        new.wf(),
{
    if old.focus == Focus::Projects {
        let sel_up = row_up(old.project_state.selected, old.projects@.len());
        let sel_down = row_down(old.project_state.selected, old.projects@.len());
        if moved_up(old, new) && old.projects@.len() > 0 && sel_up != old.project_state.selected {
            lemma_refiltered_wf(App { project_state: ListState { selected: sel_up }, ..old }, new, old.current_path());
        }
        if moved_down(old, new) && old.projects@.len() > 0 && sel_down != old.project_state.selected {
            lemma_refiltered_wf(App { project_state: ListState { selected: sel_down }, ..old }, new, old.current_path());
        }
        if jumped_top(old, new) {
            lemma_refiltered_wf(App { project_state: ListState { selected: Some(0usize) }, ..old }, new, old.current_path());
        }
        if jumped_bottom(old, new) {
            lemma_refiltered_wf(
                App { project_state: ListState { selected: Some((old.projects@.len() - 1) as usize) }, ..old },
                new,
                old.current_path(),
            );
        }
    }
}

impl App {
    fn handle_search_key(&mut self, key: KeyEvent)
        ensures
            searched(*old(self), key, *final(self)),
            old(self).wf() ==> final(self).wf(),
    {
        let ghost start = *self;
        match key.code {
            KeyCode::Esc => {
                self.search_query = String::new();
                self.search_mode = false;
                let ghost mid = *self;
                self.rebuild_filtered_sessions();
                proof {
                    if start.wf() {
                        lemma_refiltered_wf(mid, *self, mid.current_path());
                    }
                }
                self.status = owned("Search cleared");
            },
            KeyCode::Enter => {
                self.search_mode = false;
            },
            KeyCode::Backspace => {
                let mut q = chars_of(self.search_query.as_str());
                if q.len() > 0 {
                    q.pop();
                }
                assert(start.search_query@.len() > 0 ==> q@ =~= start.search_query@.drop_last());
                self.search_query = string_of(&q);
                let ghost mid = *self;
                self.rebuild_filtered_sessions();
                proof {
                    if start.wf() {
                        lemma_refiltered_wf(mid, *self, mid.current_path());
                    }
                }
            },
            KeyCode::Char(c) => {
                if !key.control {
                    let mut q = chars_of(self.search_query.as_str());
                    q.push(c);
                    self.search_query = string_of(&q);
                    let ghost mid = *self;
                    self.rebuild_filtered_sessions();
                    proof {
                        if start.wf() {
                            lemma_refiltered_wf(mid, *self, mid.current_path());
                        }
                    }
                }
            },
            _ => {},
        }
    }

    fn handle_detail_key(&mut self, key: KeyEvent)
        ensures
            detail_keyed(*old(self), key, *final(self)),
            old(self).wf() ==> final(self).wf(),
    {
        if key.code == KeyCode::Esc {
            self.detail = None;
        } else if is_char(&key, 'd') {
            self.queue_current_delete();
        } else if is_char(&key, 'q') {
            self.should_quit = true;
        }
    }

    fn handle_confirm_key(&mut self, key: KeyEvent) -> (effect: Effect)
        requires
            old(self).confirm_delete is Some,
        ensures
            confirm_keyed(*old(self), key, *final(self), effect),
            old(self).wf() ==> final(self).wf(),
    {
        if is_char(&key, 'y') {
            let jobs = match &self.confirm_delete {
                Some(req) => delete_plan(&req.session_indices, &self.sessions),
                None => Vec::new(),
            };
            self.confirm_delete = None;
            Effect::Delete(jobs)
        } else if is_char(&key, 'n') || key.code == KeyCode::Esc || key.code == KeyCode::Enter {
            self.confirm_delete = None;
            self.status = owned("Delete cancelled");
            Effect::Nothing
        } else {
            Effect::Nothing
        }
    }

    /// Answers a key. Work on files is left to the caller through the
    /// returned effect.
    pub fn handle_key(&mut self, key: KeyEvent) -> (effect: Effect)
        ensures
            key_step(*old(self), key, *final(self), effect),
            old(self).wf() ==> final(self).wf(),
    {
        if !key.press {
            return Effect::Nothing;
        }
        if self.confirm_delete.is_some() {
            return self.handle_confirm_key(key);
        }
        if self.show_help {
            if is_char(&key, 'q') {
                self.should_quit = true;
            } else if key.code == KeyCode::Esc || is_char(&key, '?') {
                self.show_help = false;
            }
            return Effect::Nothing;
        }
        if self.detail.is_some() {
            self.handle_detail_key(key);
            return Effect::Nothing;
        }
        if self.search_mode {
            self.handle_search_key(key);
            return Effect::Nothing;
        }
        let ghost start = *self;
        if key.code == KeyCode::Enter {
            return match self.current_session() {
                Some(s) => Effect::LoadDetail(s.copied()),
                None => Effect::Nothing,
            };
        }
        if is_char(&key, 'r') {
            return Effect::Rescan;
        }
        if is_char(&key, 'q') {
            self.should_quit = true;
        } else if is_char(&key, '?') {
            self.show_help = !self.show_help;
        } else if key.code == KeyCode::Tab {
            self.toggle_focus();
        } else if key.code == KeyCode::Up {
            self.move_up();
            proof {
                if start.wf() {
                    lemma_row_step_wf(start, *self);
                }
            }
        } else if key.code == KeyCode::Down {
            self.move_down();
            proof {
                if start.wf() {
                    lemma_row_step_wf(start, *self);
                }
            }
        } else if is_char(&key, '/') {
            self.search_mode = true;
        } else if is_char(&key, ' ') {
            self.toggle_current_selection();
            proof {
                if start.wf() {
                    lemma_toggled_wf(start, *self);
                }
            }
        } else if is_char(&key, 'd') {
            self.queue_current_delete();
        } else if is_char(&key, 'D') {
            self.queue_selected_delete();
        } else if is_char(&key, 'g') {
            self.jump_to_top();
            proof {
                if start.wf() {
                    lemma_row_step_wf(start, *self);
                }
            }
        } else if is_char(&key, 'G') {
            self.jump_to_bottom();
            proof {
                if start.wf() {
                    lemma_row_step_wf(start, *self);
                }
            }
        }
        Effect::Nothing
    }
}


// ---------------------------------------------------------------------------
// Laws of the browser
// ---------------------------------------------------------------------------
/// The rows listed for a project and a search are exactly the sessions that
/// belong to the project and match the search, each once, in the order of
/// the session list.
pub proof fn lemma_listed_rows_are_the_matches(
    sessions: Seq<Session>,
    project: Option<Seq<char>>,
    query: Seq<char>,
    n: int,
)
    requires
        0 <= n <= sessions.len(),
        sessions.len() <= usize::MAX,
    ensures
        forall|i: int, j: int|
            0 <= i < j < matching_indices(sessions, project, query, n).len() ==> #[trigger] matching_indices(
                sessions,
                project,
                query,
                n,
            )[i] < #[trigger] matching_indices(sessions, project, query, n)[j],
        forall|k: int|
            0 <= k < n ==> (matching_indices(sessions, project, query, n).contains(k as usize)
                <==> #[trigger] session_matches(sessions[k], project, query)),
        forall|i: int|
            0 <= i < matching_indices(sessions, project, query, n).len() ==> #[trigger] matching_indices(
                sessions,
                project,
                query,
                n,
            )[i] < n,
    decreases n,
{
    if n > 0 {
        lemma_listed_rows_are_the_matches(sessions, project, query, n - 1);
        let prev = matching_indices(sessions, project, query, n - 1);
        let rows = matching_indices(sessions, project, query, n);
        let last = (n - 1) as usize;
        if session_matches(sessions[n - 1], project, query) {
            assert(rows == prev.push(last));
        } else {
            assert(rows == prev);
        }
        assert forall|k: int| 0 <= k < n implies (rows.contains(k as usize) <==> #[trigger] session_matches(
            sessions[k],
            project,
            query,
        )) by {
            if rows.contains(k as usize) {
                let i = choose|i: int| 0 <= i < rows.len() && rows[i] == k as usize;
                if i < prev.len() {
                    assert(prev[i] == rows[i]);
                    assert(prev[i] < n - 1);
                    assert(prev.contains(k as usize));
                } else {
                    assert(k == n - 1);
                }
            }
            if session_matches(sessions[k], project, query) {
                if k < n - 1 {
                    assert(prev.contains(k as usize));
                    let i = choose|i: int| 0 <= i < prev.len() && prev[i] == k as usize;
                    assert(rows[i] == k as usize);
                } else {
                    assert(rows[rows.len() - 1] == last);
                }
            }
        }
        assert forall|i: int, j: int| 0 <= i < j < rows.len() implies #[trigger] rows[i] < #[trigger] rows[j] by {
            if j < prev.len() {
                assert(prev[i] < prev[j]);
            } else {
                assert(prev[i] < n - 1);
            }
        }
    }
}

/// In a consistent state a session is selected exactly when some row is
/// listed, and the selected row shows an existing session.
pub proof fn lemma_selection_follows_rows(a: App)
    requires
        a.wf(),
    ensures
        (a.current_index() is Some) == (a.filtered_session_indices@.len() > 0),
        a.current_index() matches Some(k) ==> k < a.sessions@.len(),
        (a.current_path() is Some) == (a.filtered_session_indices@.len() > 0),
{
}

/// What the lists show: in a consistent browser a session is listed exactly
/// when it belongs to the selected group (every session under no group or
/// `All Sessions`, else the sessions whose project path is the group's path)
/// and the search is empty or its lower-cased text occurs in the session's
/// lower-cased title, project path, id and file path.
pub proof fn lemma_rows_are_the_search_hits(a: App, k: int)
    requires
        a.wf(),
        0 <= k < a.sessions@.len(),
    ensures
        a.filtered_session_indices@.contains(k as usize) <==> {
            &&& match a.current_project_path() {
                Some(p) => p == "All Sessions"@ || a.sessions@[k].project_path@ == p,
                None => true,
            }
            &&& (a.search_query@.len() == 0 || has_substring(
                lowercase(a.sessions@[k].blob()),
                lowercase(a.search_query@),
            ))
        },
{
    assert(a.sessions@.len() == a.sessions.len());
    lemma_listed_rows_are_the_matches(
        a.sessions@,
        a.current_project_path(),
        a.search_query@,
        a.sessions@.len() as int,
    );
    let rows = matching_indices(a.sessions@, a.current_project_path(), a.search_query@, a.sessions@.len() as int);
    assert(rows == a.filtered_session_indices@);
    assert(rows.contains(k as usize) <==> session_matches(a.sessions@[k], a.current_project_path(), a.search_query@));
}

/// A group other than `All Sessions`, with no search, lists exactly the
/// sessions whose project path is the group's path, each once.
pub proof fn lemma_group_lists_its_sessions(a: App, k: int)
    requires
        a.wf(),
        0 <= k < a.sessions@.len(),
        a.search_query@.len() == 0,
        a.current_project_path() matches Some(p) && p != "All Sessions"@,
    ensures
        a.filtered_session_indices@.contains(k as usize) <==> Some(a.sessions@[k].project_path@)
            == a.current_project_path(),
{
    lemma_rows_are_the_search_hits(a, k);
}

/// The search ignores case: two sessions with the same project path whose
/// search texts lower-case alike match the same searches, and two searches
/// that lower-case alike (both empty or both not) match the same sessions.
pub proof fn lemma_search_ignores_case(
    a: Session,
    b: Session,
    project: Option<Seq<char>>,
    q1: Seq<char>,
    q2: Seq<char>,
)
    requires
        a.project_path@ == b.project_path@,
        lowercase(a.blob()) == lowercase(b.blob()),
        lowercase(q1) == lowercase(q2),
        (q1.len() == 0) == (q2.len() == 0),
    ensures
        session_matches(a, project, q1) == session_matches(b, project, q2),
{
}

/// The search covers the title, the project path, the id and the file path:
/// the text searched holds each of them, and nothing else but the three
/// line breaks between them.
pub proof fn lemma_search_text_covers_fields(s: Session)
    ensures
        has_substring(s.blob(), s.title@),
        has_substring(s.blob(), s.project_path@),
        has_substring(s.blob(), s.id@),
        has_substring(s.blob(), s.file_path@),
        s.blob().len() == s.title@.len() + s.project_path@.len() + s.id@.len() + s.file_path@.len() + 3,
{
    let b = s.blob();
    let t = s.title@.len() as int;
    let p = s.project_path@.len() as int;
    let i = s.id@.len() as int;
    let f = s.file_path@.len() as int;
    assert(b.subrange(0, 0 + s.title@.len() as int) =~= s.title@);
    assert(b.subrange(t + 1, (t + 1) + s.project_path@.len() as int) =~= s.project_path@);
    assert(b.subrange(t + p + 2, (t + p + 2) + s.id@.len() as int) =~= s.id@);
    assert(b.subrange(t + p + i + 3, (t + p + i + 3) + s.file_path@.len() as int) =~= s.file_path@);
}

/// Whether the browser takes `key` as a list key: a press, with no question,
/// help, detail or search open.
pub open spec fn browsing(a: App, key: KeyEvent) -> bool {
    key.press && a.confirm_delete is None && !a.show_help && a.detail is None && !a.search_mode
}

/// Moving in the session list: Up selects the row above (the first row
/// stays), Down the row below (the last row stays), `g` the first row and
/// `G` the last; the rows themselves do not change.
pub proof fn lemma_session_row_moves(old: App, key: KeyEvent, new: App, effect: Effect, r: usize)
    requires
        key_step(old, key, new, effect),
        browsing(old, key),
        old.focus == Focus::Sessions,
        old.session_state.selected == Some(r),
        r < old.filtered_session_indices@.len(),
    ensures
        key.code == KeyCode::Up ==> new.session_state.selected == Some(
            (if r > 0 {
                r - 1
            } else {
                0
            }) as usize,
        ),
        key.code == KeyCode::Down ==> new.session_state.selected == Some(
            (if r + 1 < old.filtered_session_indices@.len() {
                r + 1
            } else {
                r as int
            }) as usize,
        ),
        key.code == KeyCode::Char('g') ==> new.session_state.selected == Some(0usize),
        key.code == KeyCode::Char('G') ==> new.session_state.selected == Some(
            (old.filtered_session_indices@.len() - 1) as usize,
        ),
        key.code == KeyCode::Up || key.code == KeyCode::Down || key.code == KeyCode::Char('g')
            || key.code == KeyCode::Char('G') ==> new.filtered_session_indices == old.filtered_session_indices
            && new.sessions == old.sessions,
{
}

/// Moving in the project list: Up selects the project above (the first
/// stays), Down the project below (the last stays), `g` the first project
/// and `G` the last.
pub proof fn lemma_project_row_moves(old: App, key: KeyEvent, new: App, effect: Effect, r: usize)
    requires
        key_step(old, key, new, effect),
        browsing(old, key),
        old.focus == Focus::Projects,
        old.project_state.selected == Some(r),
        r < old.projects@.len(),
    ensures
        key.code == KeyCode::Up ==> new.project_state.selected == Some(
            (if r > 0 {
                r - 1
            } else {
                0
            }) as usize,
        ),
        key.code == KeyCode::Down ==> new.project_state.selected == Some(
            (if r + 1 < old.projects@.len() {
                r + 1
            } else {
                r as int
            }) as usize,
        ),
        key.code == KeyCode::Char('g') ==> new.project_state.selected == Some(0usize),
        key.code == KeyCode::Char('G') ==> new.project_state.selected == Some((old.projects@.len() - 1) as usize),
{
}

/// Tab moves the focus to the other list, `?` shows or hides help, `/`
/// starts a search and `q` quits; nothing else changes.
pub proof fn lemma_plain_keys(old: App, key: KeyEvent, new: App, effect: Effect)
    requires
        key_step(old, key, new, effect),
        browsing(old, key),
    ensures
        key.code == KeyCode::Tab ==> new.focus != old.focus && new == (App { focus: new.focus, ..old }),
        key.code == KeyCode::Char('?') ==> new.show_help == !old.show_help && new == (App {
            show_help: new.show_help,
            ..old
        }),
        key.code == KeyCode::Char('/') ==> new.search_mode && new == (App { search_mode: true, ..old }),
        key.code == KeyCode::Char('q') ==> new.should_quit && new == (App { should_quit: true, ..old }),
{
}

/// Whether a session is marked for deletion.
pub open spec fn is_marked() -> spec_fn(Session) -> bool {
    |x: Session| x.selected
}

/// A batch deletion asks for exactly the marked sessions, each once, in the
/// order of the list; their number is the count the status line shows.
pub proof fn lemma_marked_are_the_selected(s: Seq<Session>, n: int)
    requires
        0 <= n <= s.len(),
        s.len() <= usize::MAX,
    ensures
        forall|i: int, j: int|
            0 <= i < j < marked_indices(s, n).len() ==> #[trigger] marked_indices(s, n)[i]
                < #[trigger] marked_indices(s, n)[j],
        forall|i: int| 0 <= i < marked_indices(s, n).len() ==> #[trigger] marked_indices(s, n)[i] < n,
        forall|k: int| 0 <= k < n ==> (marked_indices(s, n).contains(k as usize) <==> #[trigger] s[k].selected),
        marked_indices(s, n).len() == s.take(n).filter(is_marked()).len(),
        n == s.len() ==> count_selected(s) == marked_indices(s, n).len(),
    decreases n,
{
    reveal(Seq::filter);
    if n > 0 {
        lemma_marked_are_the_selected(s, n - 1);
        let prev = marked_indices(s, n - 1);
        let rows = marked_indices(s, n);
        let last = (n - 1) as usize;
        assert(s.take(n).drop_last() =~= s.take(n - 1));
        if s[n - 1].selected {
            assert(rows == prev.push(last));
        } else {
            assert(rows == prev);
        }
        assert forall|k: int| 0 <= k < n implies (rows.contains(k as usize) <==> #[trigger] s[k].selected) by {
            if rows.contains(k as usize) {
                let i = choose|i: int| 0 <= i < rows.len() && rows[i] == k as usize;
                if i < prev.len() {
                    assert(prev[i] == rows[i]);
                    assert(prev.contains(k as usize));
                }
            }
            if s[k].selected {
                if k < n - 1 {
                    assert(prev.contains(k as usize));
                    let i = choose|i: int| 0 <= i < prev.len() && prev[i] == k as usize;
                    assert(rows[i] == k as usize);
                } else {
                    assert(rows[rows.len() - 1] == last);
                }
            }
        }
        assert forall|i: int, j: int| 0 <= i < j < rows.len() implies #[trigger] rows[i] < #[trigger] rows[j] by {
            if j < prev.len() {
                assert(prev[i] < prev[j]);
            } else {
                assert(prev[i] < n - 1);
            }
        }
        if n == s.len() {
            lemma_count_selected_take(s, n);
        }
    }
}

proof fn lemma_count_selected_take(s: Seq<Session>, n: int)
    requires
        0 <= n <= s.len(),
    ensures
        count_selected(s.take(n)) == marked_indices(s, n).len(),
    decreases n,
{
    if n > 0 {
        lemma_count_selected_take(s, n - 1);
        assert(s.take(n).drop_last() =~= s.take(n - 1));
    }
}

/// Whether row `r` of `rows` shows a session whose file is `target`.
pub open spec fn row_shows(sessions: Seq<Session>, rows: Seq<usize>, r: int, target: Seq<char>) -> bool {
    0 <= r < rows.len() && rows[r] < sessions.len() && same_path(sessions[rows[r] as int].file_path@, target)
}

proof fn lemma_target_row_is_first(sessions: Seq<Session>, rows: Seq<usize>, target: Seq<char>)
    ensures
        target_row(sessions, rows, target) >= 0 <==> exists|r: int| #[trigger] row_shows(sessions, rows, r, target),
        target_row(sessions, rows, target) >= 0 ==> row_shows(
            sessions,
            rows,
            target_row(sessions, rows, target),
            target,
        ) && forall|r: int|
            0 <= r < target_row(sessions, rows, target) ==> !#[trigger] row_shows(sessions, rows, r, target),
    decreases rows.len(),
{
    if rows.len() > 0 {
        let d = rows.drop_last();
        lemma_target_row_is_first(sessions, d, target);
        assert forall|r: int| 0 <= r < d.len() implies row_shows(sessions, d, r, target) == #[trigger] row_shows(
            sessions,
            rows,
            r,
            target,
        ) by {
            assert(d[r] == rows[r]);
        }
        if exists|r: int| #[trigger] row_shows(sessions, rows, r, target) {
            let r = choose|r: int| #[trigger] row_shows(sessions, rows, r, target);
            if r < d.len() {
                assert(row_shows(sessions, d, r, target));
            }
        }
        let tr = target_row(sessions, d, target);
        if tr >= 0 {
            assert(row_shows(sessions, d, tr, target));
            assert(row_shows(sessions, rows, tr, target));
        } else if rows.last() < sessions.len() && same_path(sessions[rows.last() as int].file_path@, target) {
            assert(row_shows(sessions, rows, rows.len() - 1, target));
        }
    }
}

/// Rebuilding the rows keeps the selected session: when some row shows a
/// session with the file that was selected, the first such row is selected.
pub proof fn lemma_rebuild_keeps_the_session(old: App, new: App, target: Seq<char>)
    requires
        refiltered(old, new, Some(target)),
        exists|r: int| #[trigger] row_shows(new.sessions@, new.filtered_session_indices@, r, target),
    ensures
        new.session_state.selected matches Some(r) && row_shows(
            new.sessions@,
            new.filtered_session_indices@,
            r as int,
            target,
        ) && forall|q: int|
            0 <= q < r ==> !#[trigger] row_shows(new.sessions@, new.filtered_session_indices@, q, target),
        new.current_path() matches Some(p) && same_path(p, target),
{
    lemma_target_row_is_first(new.sessions@, new.filtered_session_indices@, target);
    assert(new.sessions == old.sessions);
    assert(new.filtered_session_indices@ == old.listed_rows());
    let tr = target_row(old.sessions@, old.listed_rows(), target);
    assert(tr >= 0);
    assert(new.filtered_session_indices@.len() == new.filtered_session_indices.len());
    assert(tr < new.filtered_session_indices@.len());
    assert((tr as usize) as int == tr);
    assert(new.session_state.selected == Some(tr as usize));
    assert(row_shows(new.sessions@, new.filtered_session_indices@, tr, target));
}

/// Marking a session twice in a row leaves the sessions as they were.
pub proof fn lemma_marking_twice_restores(a: App, b: App, c: App)
    requires
        toggled_selection(a, b),
        toggled_selection(b, c),
    ensures
        c.sessions@ == a.sessions@,
{
    match a.current_index() {
        Some(k) => {
            if k < a.sessions@.len() {
                let s = a.sessions@[k as int];
                assert(b.current_index() == a.current_index());
                assert(b.sessions@[k as int] == Session { selected: !s.selected, ..s });
                assert(c.sessions@ =~= a.sessions@);
            }
        },
        None => {},
    }
}

/// In search mode, typing a character and then Backspace gives back the
/// search the browser had and lists the rows that search lists.
pub proof fn lemma_type_then_backspace(a: App, c: char, b: App, e1: Effect, bs: KeyEvent, d: App, e2: Effect)
    requires
        a.search_mode,
        a.confirm_delete is None,
        !a.show_help,
        a.detail is None,
        key_step(a, KeyEvent { code: KeyCode::Char(c), press: true, control: false }, b, e1),
        bs.code == KeyCode::Backspace,
        bs.press,
        key_step(b, bs, d, e2),
    ensures
        d.search_query@ == a.search_query@,
        d.filtered_session_indices@ == a.listed_rows(),
        d.sessions@ == a.sessions@,
        d.search_mode,
{
    assert(b.search_query@.drop_last() =~= a.search_query@);
}

/// Files are moved to the trash only after the question is answered: a key
/// asks for a deletion only when one was waiting for confirmation and the key
/// is a press of `y`; the deletion then covers exactly the requested sessions
/// that exist, and the question is closed.
pub proof fn lemma_delete_needs_confirmation(old: App, key: KeyEvent, new: App, effect: Effect)
    requires
        key_step(old, key, new, effect),
        effect is Delete,
    ensures
        key.press,
        old.confirm_delete is Some,
        key.code == KeyCode::Char('y'),
        new.confirm_delete is None,
        is_delete_plan(old.confirm_delete->0.session_indices@, old.sessions@, effect->Delete_0@),
{
}


proof fn lemma_refiltered_rows_valid(old: App, new: App, target: Option<Seq<char>>)
    requires
        refiltered(old, new, target),
    ensures
        new.rows_valid(),
{
    assert(old.sessions@.len() == old.sessions.len());
    lemma_listed_rows_are_the_matches(
        old.sessions@,
        old.current_project_path(),
        old.search_query@,
        old.sessions@.len() as int,
    );
    let rows = old.listed_rows();
    if rows.len() > 0 && target is Some && target_row(old.sessions@, rows, target->0) >= 0 {
        lemma_target_row_bound(old.sessions@, rows, target->0);
    }
}

proof fn lemma_moves_keep_rows_valid(old: App, new: App)
    requires
        old.rows_valid(),
        moved_up(old, new) || moved_down(old, new) || jumped_top(old, new) || jumped_bottom(old, new),
    ensures
        new.rows_valid(),
{
    if old.focus == Focus::Projects {
        let sel_up = row_up(old.project_state.selected, old.projects@.len());
        let sel_down = row_down(old.project_state.selected, old.projects@.len());
        if moved_up(old, new) && old.projects@.len() > 0 && sel_up != old.project_state.selected {
            lemma_refiltered_rows_valid(App { project_state: ListState { selected: sel_up }, ..old }, new, old.current_path());
        }
        if moved_down(old, new) && old.projects@.len() > 0 && sel_down != old.project_state.selected {
            lemma_refiltered_rows_valid(
                App { project_state: ListState { selected: sel_down }, ..old },
                new,
                old.current_path(),
            );
        }
        if jumped_top(old, new) && old.projects@.len() > 0 {
            lemma_refiltered_rows_valid(
                App { project_state: ListState { selected: Some(0usize) }, ..old },
                new,
                old.current_path(),
            );
        }
        if jumped_bottom(old, new) && old.projects@.len() > 0 {
            lemma_refiltered_rows_valid(
                App { project_state: ListState { selected: Some((old.projects@.len() - 1) as usize) }, ..old },
                new,
                old.current_path(),
            );
        }
    }
}

/// Whatever key comes, consistent rows stay consistent: the rows show
/// sessions in increasing order, a row is selected exactly when there is
/// one, and it exists. (The outcomes of file work come back through
/// `finish_delete` and `finish_refresh`, which leave the whole state
/// consistent, and `finish_load_detail`, which leaves the rows as they are.)
pub proof fn lemma_keys_keep_rows_valid(old: App, key: KeyEvent, new: App, effect: Effect)
    requires
        old.rows_valid(),
        key_step(old, key, new, effect),
    ensures
        new.rows_valid(),
        (new.current_index() is Some) == (new.filtered_session_indices@.len() > 0),
        new.current_index() matches Some(k) ==> k < new.sessions@.len(),
{
    if key.press && old.confirm_delete is None && !old.show_help && old.detail is None {
        if old.search_mode {
            match key.code {
                KeyCode::Esc => {
                    lemma_refiltered_rows_valid(
                        App { search_query: new.search_query, search_mode: false, ..old },
                        App { status: old.status, ..new },
                        old.current_path(),
                    );
                },
                KeyCode::Backspace => {
                    lemma_refiltered_rows_valid(App { search_query: new.search_query, ..old }, new, old.current_path());
                },
                KeyCode::Char(c) => {
                    if !key.control {
                        lemma_refiltered_rows_valid(App { search_query: new.search_query, ..old }, new, old.current_path());
                    }
                },
                _ => {},
            }
        } else if key.code == KeyCode::Up || key.code == KeyCode::Down || key.code == KeyCode::Char('g')
            || key.code == KeyCode::Char('G') {
            lemma_moves_keep_rows_valid(old, new);
        }
    }
}

} // verus!
