//! The records the browser shows: sessions, project groups and the detail of
//! one session.

use vstd::prelude::*;

use crate::text::{concat2, lowercase, to_lowercase};

verus! {

/// One session log file, as its head describes it. Times are Unix seconds;
/// the file's path is held as text, as it is shown (a path that is not
/// valid UTF-8 is shown with replacement characters).
pub struct Session {
    pub id: String,
    pub title: String,
    pub project_path: String,
    pub file_path: String,
    pub created_at: Option<i64>,
    pub updated_at: Option<i64>,
    pub size: u64,
    pub selected: bool,
}

impl Session {
    /// The time a session is ordered by: its update time, else its creation
    /// time, else zero.
    pub open spec fn sort_key(&self) -> i64 {
        match self.updated_at {
            Some(t) => t,
            None => match self.created_at {
                Some(t) => t,
                None => 0,
            },
        }
    }

    /// The time a session is ordered by: its update time when it has one,
    /// else its creation time, else zero.
    pub fn updated_sort_key(&self) -> (r: i64)
        ensures
            r == self.sort_key(),
            self.updated_at matches Some(t) ==> r == t,
            self.updated_at is None ==> (self.created_at matches Some(t) ==> r == t),
            self.updated_at is None && self.created_at is None ==> r == 0,
    {
        match self.updated_at {
            Some(t) => t,
            None => match self.created_at {
                Some(t) => t,
                None => 0,
            },
        }
    }

    /// The text a search looks in, before lower-casing: title, project path,
    /// id and file path, one per line.
    pub open spec fn blob(&self) -> Seq<char> {
        self.title@ + seq!['\n'] + self.project_path@ + seq!['\n'] + self.id@ + seq!['\n']
            + self.file_path@
    }

    /// The lower-cased text a search looks in.
    pub fn search_blob(&self) -> (r: String)
        ensures
            r@ == lowercase(self.blob()),
    {
        let a = concat2(self.title.as_str(), "\n");
        let b = concat2(a.as_str(), self.project_path.as_str());
        let c = concat2(b.as_str(), "\n");
        let d = concat2(c.as_str(), self.id.as_str());
        let e = concat2(d.as_str(), "\n");
        let f = concat2(e.as_str(), self.file_path.as_str());
        proof {
            reveal_strlit("\n");
        }
        assert(f@ =~= self.blob());
        to_lowercase(f.as_str())
    }

    /// A field-for-field copy.
    pub fn copied(&self) -> (r: Session)
        ensures
            r == *self,
    {
        Session {
            id: self.id.clone(),
            title: self.title.clone(),
            project_path: self.project_path.clone(),
            file_path: self.file_path.clone(),
            created_at: self.created_at,
            updated_at: self.updated_at,
            size: self.size,
            selected: self.selected,
        }
    }
}

/// A project group: sessions that share a project path.
pub struct Project {
    pub path: String,
    pub session_count: usize,
}

/// A message of a session, as the detail view shows it.
pub struct MessageSnippet {
    pub role: String,
    pub timestamp: Option<i64>,
    pub text: String,
}

/// The content of a message snippet.
pub struct SnippetView {
    pub role: Seq<char>,
    pub timestamp: Option<i64>,
    pub text: Seq<char>,
}

impl View for MessageSnippet {
    type V = SnippetView;

    open spec fn view(&self) -> SnippetView {
        SnippetView { role: self.role@, timestamp: self.timestamp, text: self.text@ }
    }
}

/// The views of a sequence of snippets.
pub open spec fn snippet_views(s: Seq<MessageSnippet>) -> Seq<SnippetView> {
    s.map_values(|m: MessageSnippet| m@)
}

/// A session with its most recent messages.
pub struct SessionDetail {
    pub session: Session,
    pub recent_messages: Vec<MessageSnippet>,
}

/// A session is ordered by its update time whenever it has one; without
/// one, by its creation time; without either, as time zero.
pub proof fn lemma_sort_key_is_update_time(s: Session)
    ensures
        s.updated_at matches Some(t) ==> s.sort_key() == t,
        s.updated_at is None ==> (s.created_at matches Some(t) ==> s.sort_key() == t),
        s.updated_at is None && s.created_at is None ==> s.sort_key() == 0,
{
}

} // verus!
