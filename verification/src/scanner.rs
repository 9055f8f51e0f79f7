//! Scanning a session directory: which files are session logs, the order the
//! sessions are listed in, the warnings collected on the way, and the project
//! groups.

use vstd::prelude::*;

use crate::path::{
    chars_order, compare_chars, compare_paths, extension, file_name_of, lemma_chars_order_trans,
    lemma_chars_order_zero, lemma_path_order_antisym, lemma_path_order_trans, path_order,
    split_name,
};
use crate::session::{lemma_sort_key_is_update_time, Project, Session};
use crate::text::{chars_of, concat2, owned, same_text};

verus! {

/// Where sessions are looked for, as shown to the user.
pub fn default_session_root_label() -> (r: &'static str)
    ensures
        r@ == "~/.codex/sessions"@,
{
    "~/.codex/sessions"
}

/// Whether a directory entry is a session log: a regular file whose
/// extension is `jsonl`.
pub fn is_session_file(path: &str, is_file: bool) -> (r: bool)
    ensures
        r == (is_file && extension(path@) == Some("jsonl"@)),
{
    if !is_file {
        return false;
    }
    match file_name_of(path) {
        Some(name) => {
            let (_, ext) = split_name(&name);
            match ext {
                Some(e) => {
                    let want = chars_of("jsonl");
                    let mut same = e.len() == want.len();
                    let mut i: usize = 0;
                    while same && i < e.len()
                        invariant
                            want@ == "jsonl"@,
                            i <= e.len(),
                            same ==> e.len() == want.len() && e@.take(i as int) == want@.take(
                                i as int,
                            ),
                            !same ==> e@ != want@,
                        decreases e.len() - i,
                    {
                        if e[i] != want[i] {
                            same = false;
                            assert(e@[i as int] != want@[i as int]);
                        } else {
                            assert(e@.take(i + 1) =~= e@.take(i as int).push(e@[i as int]));
                            assert(want@.take(i + 1) =~= want@.take(i as int).push(want@[i as int]));
                        }
                        i = i + 1;
                    }
                    if same {
                        assert(e@ =~= e@.take(e.len() as int));
                        assert(want@ =~= want@.take(want.len() as int));
                    }
                    same
                },
                None => false,
            }
        },
        None => false,
    }
}

// ---------------------------------------------------------------------------
// Order
// ---------------------------------------------------------------------------
/// Whether session `a` is listed strictly before session `b`: newer first,
/// then by file path.
pub open spec fn precedes(a: Session, b: Session) -> bool {
    a.sort_key() > b.sort_key() || (a.sort_key() == b.sort_key() && path_order(
        a.file_path@,
        b.file_path@,
    ) < 0)
}

/// `x` placed into the ordered `s` after every session it does not strictly
/// precede.
pub open spec fn insert_ordered(s: Seq<Session>, x: Session) -> Seq<Session>
    decreases s.len(),
{
    if s.len() == 0 {
        seq![x]
    } else if precedes(x, s[0]) {
        seq![x] + s
    } else {
        seq![s[0]] + insert_ordered(s.drop_first(), x)
    }
}

/// The sessions of `s` in listing order; sessions that tie keep their order
/// (a stable sort).
pub open spec fn ordered_by_recency(s: Seq<Session>) -> Seq<Session>
    decreases s.len(),
{
    if s.len() == 0 {
        seq![]
    } else {
        insert_ordered(ordered_by_recency(s.drop_last()), s.last())
    }
}

/// Whether `s` is in listing order: no session strictly precedes one listed
/// before it.
pub open spec fn is_ordered(s: Seq<Session>) -> bool {
    forall|i: int, j: int| 0 <= i < j < s.len() ==> !precedes(#[trigger] s[j], #[trigger] s[i])
}

proof fn lemma_precedes_trans(a: Session, b: Session, c: Session)
    requires
        precedes(a, b),
        precedes(b, c),
    ensures
        precedes(a, c),
{
    if a.sort_key() == b.sort_key() && b.sort_key() == c.sort_key() {
        lemma_path_order_trans(a.file_path@, b.file_path@, c.file_path@);
    }
}

proof fn lemma_precedes_asym(a: Session, b: Session)
    ensures
        !(precedes(a, b) && precedes(b, a)),
{
    lemma_path_order_antisym(a.file_path@, b.file_path@);
}

proof fn lemma_insert_ordered_at(s: Seq<Session>, x: Session, p: int)
    requires
        0 <= p <= s.len(),
        forall|k: int| 0 <= k < p ==> !precedes(x, #[trigger] s[k]),
        p == s.len() || precedes(x, s[p]),
    ensures
        insert_ordered(s, x) == s.insert(p, x),
    decreases s.len(),
{
    if s.len() == 0 {
        assert(s.insert(p, x) =~= seq![x]);
    } else if p == 0 {
        assert(s.insert(0, x) =~= seq![x] + s);
    } else {
        let t = s.drop_first();
        assert forall|k: int| 0 <= k < p - 1 implies !precedes(x, #[trigger] t[k]) by {
            assert(t[k] == s[k + 1]);
        }
        if p < s.len() {
            assert(t[p - 1] == s[p]);
        }
        lemma_insert_ordered_at(t, x, p - 1);
        assert(seq![s[0]] + t.insert(p - 1, x) =~= s.insert(p, x));
    }
}

/// Inserting into an ordered sequence keeps it ordered and adds exactly the
/// new session.
proof fn lemma_insert_ordered_keeps_order(s: Seq<Session>, x: Session)
    requires
        is_ordered(s),
    ensures
        is_ordered(insert_ordered(s, x)),
        insert_ordered(s, x).to_multiset() == s.to_multiset().insert(x),
{
    let p = choose_insert_position(s, x);
    lemma_insert_ordered_at(s, x, p);
    let r = s.insert(p, x);
    assert forall|i: int, j: int| 0 <= i < j < r.len() implies !precedes(
        #[trigger] r[j],
        #[trigger] r[i],
    ) by {
        if i < p && j < p {
            assert(r[i] == s[i] && r[j] == s[j]);
        } else if i < p && j == p {
            assert(r[i] == s[i]);
        } else if i < p && j > p {
            assert(r[i] == s[i] && r[j] == s[j - 1]);
        } else if i == p {
            assert(r[j] == s[j - 1]);
            lemma_precedes_asym(x, s[p]);
            if j - 1 > p {
                if precedes(s[j - 1], x) {
                    lemma_precedes_trans(s[j - 1], x, s[p]);
                }
            }
        } else {
            assert(r[i] == s[i - 1] && r[j] == s[j - 1]);
        }
    }
    vstd::seq_lib::to_multiset_insert(s, p, x);
}

spec fn first_preceded(s: Seq<Session>, x: Session, k: int) -> int
    decreases s.len() - k,
{
    if k >= s.len() || k < 0 {
        s.len() as int
    } else if precedes(x, s[k]) {
        k
    } else {
        first_preceded(s, x, k + 1)
    }
}

proof fn lemma_first_preceded(s: Seq<Session>, x: Session, k: int)
    requires
        0 <= k <= s.len(),
        forall|m: int| 0 <= m < k ==> !precedes(x, #[trigger] s[m]),
    ensures
        k <= first_preceded(s, x, k) <= s.len(),
        forall|m: int| 0 <= m < first_preceded(s, x, k) ==> !precedes(x, #[trigger] s[m]),
        first_preceded(s, x, k) == s.len() || precedes(x, s[first_preceded(s, x, k)]),
    decreases s.len() - k,
{
    if k < s.len() && !precedes(x, s[k]) {
        lemma_first_preceded(s, x, k + 1);
    }
}

proof fn choose_insert_position(s: Seq<Session>, x: Session) -> (p: int)
    ensures
        0 <= p <= s.len(),
        forall|k: int| 0 <= k < p ==> !precedes(x, #[trigger] s[k]),
        p == s.len() || precedes(x, s[p]),
{
    lemma_first_preceded(s, x, 0);
    first_preceded(s, x, 0)
}

/// Listing order is an order: the listed sessions are ordered, newest
/// first, and are exactly the given sessions.
pub proof fn lemma_ordered_by_recency(s: Seq<Session>)
    ensures
        is_ordered(ordered_by_recency(s)),
        ordered_by_recency(s).to_multiset() == s.to_multiset(),
        forall|i: int, j: int|
            0 <= i < j < s.len() ==> #[trigger] ordered_by_recency(s)[i].sort_key()
                >= #[trigger] ordered_by_recency(s)[j].sort_key(),
    decreases s.len(),
{
    broadcast use vstd::seq_lib::group_to_multiset_ensures;

    if s.len() > 0 {
        lemma_ordered_by_recency(s.drop_last());
        lemma_insert_ordered_keeps_order(ordered_by_recency(s.drop_last()), s.last());
        assert(s =~= s.drop_last().push(s.last()));
        vstd::seq_lib::to_multiset_build(s.drop_last(), s.last());
    } else {
        assert(s.to_multiset() =~= vstd::multiset::Multiset::empty());
    }
    let r = ordered_by_recency(s);
    assert(r.len() == s.len()) by {
        r.to_multiset_ensures();
        s.to_multiset_ensures();
    }
}

/// Whether `a` is listed strictly before `b`.
pub fn listed_before(a: &Session, b: &Session) -> (r: bool)
    ensures
        r == precedes(*a, *b),
{
    let ka = a.updated_sort_key();
    let kb = b.updated_sort_key();
    if ka != kb {
        ka > kb
    } else {
        compare_paths(a.file_path.as_str(), b.file_path.as_str()) < 0
    }
}

/// The sessions in listing order: newest first, ties by file path.
pub fn sort_by_recency(items: &Vec<Session>) -> (r: Vec<Session>)
    ensures
        r@ == ordered_by_recency(items@),
{
    let mut out: Vec<Session> = Vec::new();
    let mut i: usize = 0;
    assert(items@.take(0) =~= Seq::<Session>::empty());
    while i < items.len()
        invariant
            i <= items.len(),
            out@ == ordered_by_recency(items@.take(i as int)),
        decreases items.len() - i,
    {
        let x = items[i].copied();
        let mut p: usize = 0;
        while p < out.len() && !listed_before(&x, &out[p])
            invariant
                p <= out.len(),
                forall|k: int| 0 <= k < p ==> !precedes(x, #[trigger] out@[k]),
            decreases out.len() - p,
        {
            p = p + 1;
        }
        proof {
            lemma_insert_ordered_at(out@, x, p as int);
            assert(items@.take(i + 1).drop_last() =~= items@.take(i as int));
        }
        out.insert(p, x);
        i = i + 1;
    }
    assert(items@.take(items.len() as int) =~= items@);
    out
}

// ---------------------------------------------------------------------------
// Scan results
// ---------------------------------------------------------------------------
/// Sessions are listed by update time, newest first: of two listed sessions
/// that both have an update time, the one listed first was updated no
/// earlier; a session listed after an updated one and having no update time
/// of its own was created no later than that update.
pub proof fn lemma_listing_by_update_time(s: Seq<Session>)
    ensures
        forall|i: int, j: int|
            0 <= i < j < s.len() ==> (#[trigger] ordered_by_recency(s)[i].updated_at matches Some(a)
                ==> (#[trigger] ordered_by_recency(s)[j].updated_at matches Some(b) ==> a >= b)),
        forall|i: int, j: int|
            0 <= i < j < s.len() ==> (#[trigger] ordered_by_recency(s)[i].updated_at matches Some(a)
                ==> (#[trigger] ordered_by_recency(s)[j].updated_at is None ==> (
            ordered_by_recency(s)[j].created_at matches Some(b) ==> a >= b))),
{
    lemma_ordered_by_recency(s);
    assert forall|i: int, j: int| 0 <= i < j < s.len() implies (#[trigger] ordered_by_recency(s)[i].updated_at matches Some(a)
        ==> (#[trigger] ordered_by_recency(s)[j].updated_at matches Some(b) ==> a >= b)) by {
        lemma_sort_key_is_update_time(ordered_by_recency(s)[i]);
        lemma_sort_key_is_update_time(ordered_by_recency(s)[j]);
    }
    assert forall|i: int, j: int| 0 <= i < j < s.len() implies (#[trigger] ordered_by_recency(s)[i].updated_at matches Some(a)
        ==> (#[trigger] ordered_by_recency(s)[j].updated_at is None ==> (
            ordered_by_recency(s)[j].created_at matches Some(b) ==> a >= b))) by {
        lemma_sort_key_is_update_time(ordered_by_recency(s)[i]);
        lemma_sort_key_is_update_time(ordered_by_recency(s)[j]);
    }
}

/// Sessions updated at the same time are listed by file path: the one
/// listed first does not come after the other in path order.
pub proof fn lemma_ties_by_path(s: Seq<Session>)
    ensures
        forall|i: int, j: int|
            0 <= i < j < s.len() ==> (#[trigger] ordered_by_recency(s)[i].updated_at is Some
                && ordered_by_recency(s)[i].updated_at == #[trigger] ordered_by_recency(s)[j].updated_at
                ==> path_order(ordered_by_recency(s)[j].file_path@, ordered_by_recency(s)[i].file_path@) >= 0),
{
    lemma_ordered_by_recency(s);
    assert forall|i: int, j: int| 0 <= i < j < s.len() implies (#[trigger] ordered_by_recency(s)[i].updated_at is Some
        && ordered_by_recency(s)[i].updated_at == #[trigger] ordered_by_recency(s)[j].updated_at
        ==> path_order(ordered_by_recency(s)[j].file_path@, ordered_by_recency(s)[i].file_path@) >= 0) by {
        let o = ordered_by_recency(s);
        lemma_sort_key_is_update_time(o[i]);
        lemma_sort_key_is_update_time(o[j]);
        vstd::seq_lib::to_multiset_len(o);
        vstd::seq_lib::to_multiset_len(s);
        assert(!precedes(o[j], o[i]));
    }
}

/// What walking the session directory met, in walk order.
pub enum ScanEvent {
    /// The walk could not read an entry; the walk error's message.
    WalkFailed(String),
    /// A session log that was read.
    Parsed(Session),
    /// A session log that could not be read: its path and the error's
    /// message.
    ParseFailed(String, String),
}

/// The outcome of scanning the session directory.
pub struct ScanResult {
    pub sessions: Vec<Session>,
    pub warnings: Vec<String>,
    pub root_exists: bool,
}

/// The sessions read during a walk, in walk order.
pub open spec fn parsed_sessions(events: Seq<ScanEvent>) -> Seq<Session>
    decreases events.len(),
{
    if events.len() == 0 {
        seq![]
    } else {
        let r = parsed_sessions(events.drop_last());
        match events.last() {
            ScanEvent::Parsed(s) => r.push(s),
            _ => r,
        }
    }
}

/// The warnings of a walk, in walk order: `Walk error: <message>` for an
/// unreadable entry, `<path>: <message>` for an unreadable log.
pub open spec fn scan_warnings(events: Seq<ScanEvent>) -> Seq<Seq<char>>
    decreases events.len(),
{
    if events.len() == 0 {
        seq![]
    } else {
        let r = scan_warnings(events.drop_last());
        match events.last() {
            ScanEvent::WalkFailed(m) => r.push("Walk error: "@ + m@),
            ScanEvent::ParseFailed(p, m) => r.push(p@ + ": "@ + m@),
            _ => r,
        }
    }
}

/// The texts of a sequence of strings.
pub open spec fn texts(s: Seq<String>) -> Seq<Seq<char>> {
    s.map_values(|x: String| x@)
}

/// The result of a scan: nothing when the directory does not exist; else the
/// sessions read, in listing order, and the warnings in walk order.
pub fn scan_sessions(root_exists: bool, events: &Vec<ScanEvent>) -> (r: ScanResult)
    ensures
        r.root_exists == root_exists,
        !root_exists ==> r.sessions@.len() == 0 && r.warnings@.len() == 0,
        root_exists ==> r.sessions@ == ordered_by_recency(parsed_sessions(events@)),
        root_exists ==> texts(r.warnings@) == scan_warnings(events@),
        forall|i: int, j: int|
            0 <= i < j < r.sessions@.len() ==> (#[trigger] r.sessions@[i].updated_at matches Some(a) ==> (
            #[trigger] r.sessions@[j].updated_at matches Some(b) ==> a >= b)),
{
    if !root_exists {
        return ScanResult { sessions: Vec::new(), warnings: Vec::new(), root_exists: false };
    }
    let mut found: Vec<Session> = Vec::new();
    let mut warnings: Vec<String> = Vec::new();
    let mut i: usize = 0;
    assert(events@.take(0) =~= Seq::<ScanEvent>::empty());
    while i < events.len()
        invariant
            i <= events.len(),
            found@ == parsed_sessions(events@.take(i as int)),
            texts(warnings@) == scan_warnings(events@.take(i as int)),
        decreases events.len() - i,
    {
        assert(events@.take(i + 1).drop_last() =~= events@.take(i as int));
        let ghost before = texts(warnings@);
        match &events[i] {
            ScanEvent::WalkFailed(m) => {
                warnings.push(concat2("Walk error: ", m.as_str()));
                assert(texts(warnings@) =~= before.push("Walk error: "@ + m@));
            },
            ScanEvent::Parsed(s) => {
                found.push(s.copied());
            },
            ScanEvent::ParseFailed(p, m) => {
                let head = concat2(p.as_str(), ": ");
                warnings.push(concat2(head.as_str(), m.as_str()));
                assert(texts(warnings@) =~= before.push(p@ + ": "@ + m@));
            },
        }
        i = i + 1;
    }
    assert(events@.take(events.len() as int) =~= events@);
    let sessions = sort_by_recency(&found);
    proof {
        lemma_listing_by_update_time(found@);
        lemma_ordered_by_recency(found@);
    }
    ScanResult { sessions, warnings, root_exists: true }
}

// ---------------------------------------------------------------------------
// Project groups
// ---------------------------------------------------------------------------
/// How many of the sessions belong to project `p`.
pub open spec fn count_project(s: Seq<Session>, p: Seq<char>) -> nat
    decreases s.len(),
{
    if s.len() == 0 {
        0
    } else {
        count_project(s.drop_last(), p) + if s.last().project_path@ == p {
            1nat
        } else {
            0nat
        }
    }
}

/// The summed session counts of the groups.
pub open spec fn total_count(groups: Seq<Project>) -> int
    decreases groups.len(),
{
    if groups.len() == 0 {
        0
    } else {
        total_count(groups.drop_last()) + groups.last().session_count
    }
}

/// Whether `groups` are the project groups of `sessions`: one per distinct
/// project path, in increasing path order, each with the number of sessions
/// in it.
pub open spec fn project_groups(sessions: Seq<Session>, groups: Seq<Project>) -> bool {
    &&& forall|i: int, j: int|
        0 <= i < j < groups.len() ==> chars_order(#[trigger] groups[i].path@, #[trigger] groups[j].path@)
            < 0
    &&& forall|i: int|
        0 <= i < groups.len() ==> #[trigger] groups[i].session_count == count_project(
            sessions,
            groups[i].path@,
        ) && groups[i].session_count > 0
    &&& forall|k: int|
        0 <= k < sessions.len() ==> exists|i: int|
            0 <= i < groups.len() && #[trigger] groups[i].path@ == #[trigger] sessions[k].project_path@
}

proof fn lemma_count_bound(s: Seq<Session>, p: Seq<char>)
    ensures
        count_project(s, p) <= s.len(),
        count_project(s, p) > 0 ==> exists|m: int| 0 <= m < s.len() && #[trigger] s[m].project_path@ == p,
    decreases s.len(),
{
    if s.len() > 0 {
        lemma_count_bound(s.drop_last(), p);
        if count_project(s.drop_last(), p) > 0 {
            let m = choose|m: int| 0 <= m < s.drop_last().len() && #[trigger] s.drop_last()[m].project_path@ == p;
            assert(s[m] == s.drop_last()[m]);
        }
    }
}

proof fn lemma_total_update(g: Seq<Project>, i: int, v: Project)
    requires
        0 <= i < g.len(),
    ensures
        total_count(g.update(i, v)) == total_count(g) - g[i].session_count + v.session_count,
    decreases g.len(),
{
    if i < g.len() - 1 {
        assert(g.update(i, v).drop_last() =~= g.drop_last().update(i, v));
        lemma_total_update(g.drop_last(), i, v);
    } else {
        assert(g.update(i, v).drop_last() =~= g.drop_last());
    }
}

proof fn lemma_total_insert(g: Seq<Project>, i: int, v: Project)
    requires
        0 <= i <= g.len(),
    ensures
        total_count(g.insert(i, v)) == total_count(g) + v.session_count,
    decreases g.len(),
{
    if i < g.len() {
        assert(g.insert(i, v).drop_last() =~= g.drop_last().insert(i, v));
        lemma_total_insert(g.drop_last(), i, v);
    } else {
        assert(g.insert(i, v).drop_last() =~= g);
    }
}

/// Whether a session belongs to project `p`.
pub open spec fn in_project(p: Seq<char>) -> spec_fn(Session) -> bool {
    |x: Session| x.project_path@ == p
}

/// `count_project` counts exactly the sessions whose project path is `p`.
proof fn lemma_count_is_filter(s: Seq<Session>, p: Seq<char>)
    ensures
        count_project(s, p) == s.filter(in_project(p)).len(),
    decreases s.len(),
{
    reveal(Seq::filter);
    if s.len() > 0 {
        lemma_count_is_filter(s.drop_last(), p);
    }
}

/// A project group counts exactly the sessions whose project path is the
/// group's path.
pub proof fn lemma_groups_count_their_sessions(sessions: Seq<Session>, groups: Seq<Project>)
    requires
        project_groups(sessions, groups),
    ensures
        forall|i: int|
            0 <= i < groups.len() ==> #[trigger] groups[i].session_count == sessions.filter(
                in_project(groups[i].path@),
            ).len(),
{
    assert forall|i: int| 0 <= i < groups.len() implies #[trigger] groups[i].session_count == sessions.filter(
        in_project(groups[i].path@),
    ).len() by {
        lemma_count_is_filter(sessions, groups[i].path@);
    }
}

/// The project list: first a group holding every session, labelled
/// `All Sessions`, then one group per distinct project path in increasing
/// path order, each with its session count.
pub fn build_projects(sessions: &Vec<Session>) -> (r: Vec<Project>)
    ensures
        r@.len() >= 1,
        r@[0].path@ == "All Sessions"@,
        r@[0].session_count == sessions@.len(),
        project_groups(sessions@, r@.drop_first()),
        total_count(r@.drop_first()) == sessions@.len(),
{
    let mut groups: Vec<Project> = Vec::new();
    let mut k: usize = 0;
    assert(sessions@.take(0) =~= Seq::<Session>::empty());
    while k < sessions.len()
        invariant
            k <= sessions.len(),
            project_groups(sessions@.take(k as int), groups@),
            total_count(groups@) == k,
        decreases sessions.len() - k,
    {
        let ghost pre = sessions@.take(k as int);
        let ghost post = sessions@.take(k + 1);
        let ghost old_groups = groups@;
        assert(post.drop_last() =~= pre);
        let p = &sessions[k].project_path;
        let ghost pv = p@;
        assert(post.last() == sessions@[k as int]);
        let pc = chars_of(p.as_str());
        let mut i: usize = 0;
        let mut order: i8 = -1;
        while i < groups.len()
            invariant_except_break
                i <= groups.len(),
                pc@ == pv,
                groups@ == old_groups,
                forall|j: int| 0 <= j < i ==> chars_order(#[trigger] groups@[j].path@, pv) < 0,
            ensures
                i <= groups.len(),
                groups@ == old_groups,
                forall|j: int| 0 <= j < i ==> chars_order(#[trigger] groups@[j].path@, pv) < 0,
                i < groups.len() ==> order == chars_order(groups@[i as int].path@, pv) && order >= 0,
            decreases groups.len() - i,
        {
            let gc = chars_of(groups[i].path.as_str());
            order = compare_chars(&gc, &pc);
            if order >= 0 {
                break;
            }
            i = i + 1;
        }
        assert forall|q: Seq<char>| #[trigger] count_project(post, q) == count_project(pre, q) + if q
            == pv {
            1nat
        } else {
            0nat
        } by {}
        if i < groups.len() && order == 0 {
            proof {
                lemma_chars_order_zero(groups@[i as int].path@, pv);
                lemma_count_bound(pre, pv);
                assert(groups@[i as int].path@ == pv);
                assert(groups@[i as int].session_count == count_project(pre, pv));
            }
            let c = groups[i].session_count + 1;
            let name = groups[i].path.clone();
            let ghost v = Project { path: name, session_count: c };
            groups.set(i, Project { path: name, session_count: c });
            proof {
                lemma_total_update(old_groups, i as int, v);
                assert forall|m: int| 0 <= m < post.len() implies exists|j: int|
                    0 <= j < groups@.len() && #[trigger] groups@[j].path@
                        == #[trigger] post[m].project_path@ by {
                    if m < pre.len() {
                        assert(post[m] == pre[m]);
                        let j = choose|j: int|
                            0 <= j < old_groups.len() && #[trigger] old_groups[j].path@
                                == #[trigger] pre[m].project_path@;
                        assert(groups@[j].path@ == old_groups[j].path@);
                    } else {
                        assert(groups@[i as int].path@ == post[m].project_path@);
                    }
                }
            }
        } else {
            proof {
                if i < groups.len() {
                    lemma_chars_order_zero(groups@[i as int].path@, pv);
                }
                if count_project(pre, pv) > 0 {
                    lemma_count_bound(pre, pv);
                    let m = choose|m: int| 0 <= m < pre.len() && #[trigger] pre[m].project_path@ == pv;
                    let j = choose|j: int|
                        0 <= j < old_groups.len() && #[trigger] old_groups[j].path@
                            == #[trigger] pre[m].project_path@;
                    lemma_chars_order_zero(old_groups[j].path@, pv);
                    if j < i {
                    } else if j > i {
                        lemma_chars_order_zero(old_groups[i as int].path@, old_groups[j].path@);
                        lemma_chars_order_trans(pv, old_groups[i as int].path@, old_groups[j].path@);
                    }
                }
            }
            let name = p.clone();
            let ghost v = Project { path: name, session_count: 1 };
            groups.insert(i, Project { path: name, session_count: 1 });
            proof {
                lemma_total_insert(old_groups, i as int, v);
                assert forall|a: int, b: int| 0 <= a < b < groups@.len() implies chars_order(
                    #[trigger] groups@[a].path@,
                    #[trigger] groups@[b].path@,
                ) < 0 by {
                    if b < i {
                        assert(groups@[a] == old_groups[a] && groups@[b] == old_groups[b]);
                    } else if b == i {
                        assert(groups@[a] == old_groups[a]);
                    } else if a < i {
                        assert(groups@[a] == old_groups[a] && groups@[b] == old_groups[b - 1]);
                        lemma_chars_order_zero(old_groups[i as int].path@, pv);
                        if b - 1 > i {
                            lemma_chars_order_trans(pv, old_groups[i as int].path@, old_groups[b - 1].path@);
                        }
                        lemma_chars_order_trans(old_groups[a].path@, pv, old_groups[b - 1].path@);
                    } else if a == i {
                        assert(groups@[b] == old_groups[b - 1]);
                        lemma_chars_order_zero(old_groups[i as int].path@, pv);
                        if b - 1 > i {
                            lemma_chars_order_trans(pv, old_groups[i as int].path@, old_groups[b - 1].path@);
                        }
                    } else {
                        assert(groups@[a] == old_groups[a - 1] && groups@[b] == old_groups[b - 1]);
                    }
                }
                assert forall|m: int| 0 <= m < post.len() implies exists|j: int|
                    0 <= j < groups@.len() && #[trigger] groups@[j].path@
                        == #[trigger] post[m].project_path@ by {
                    if m < pre.len() {
                        assert(post[m] == pre[m]);
                        let j = choose|j: int|
                            0 <= j < old_groups.len() && #[trigger] old_groups[j].path@
                                == #[trigger] pre[m].project_path@;
                        if j < i {
                            assert(groups@[j] == old_groups[j]);
                        } else {
                            assert(groups@[j + 1] == old_groups[j]);
                        }
                    } else {
                        assert(groups@[i as int].path@ == post[m].project_path@);
                    }
                }
            }
        }
        k = k + 1;
    }
    assert(sessions@.take(sessions.len() as int) =~= sessions@);
    let ghost body = groups@;
    groups.insert(0, Project { path: owned("All Sessions"), session_count: sessions.len() });
    assert(groups@.drop_first() =~= body);
    groups
}

} // verus!
