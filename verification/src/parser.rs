//! Reading session logs: which fields of a JSON line give a session's id,
//! title, project path and times, which lines hold user or assistant messages,
//! and how a session preview and its recent messages are assembled from the
//! lines of its log.

use vstd::prelude::*;

use crate::json::{get_nested_str, json_at, json_text, key_texts, parse_json, str_at, Json};
use crate::path::given_stem;
use crate::session::{snippet_views, MessageSnippet, Session, SessionDetail, SnippetView};
pub use crate::text::truncate_display_width;
use crate::text::{
    chars_of, clean_text, cleaned, concat2, contains_chars, decimal, digit_char, has_substring,
    lemma_decimal_len, lowercase, owned, same_text, string_of, to_lowercase, trim, trimmed, truncated,
};

verus! {

// ---------------------------------------------------------------------------
// Noise
// ---------------------------------------------------------------------------
/// Markers of injected context rather than conversation, in lower case.
pub open spec fn noise_markers() -> Seq<Seq<char>> {
    seq![
        "<environment_context>"@,
        "# agents.md instructions"@,
        "<permissions instructions>"@,
        "<app-context>"@,
        "<collaboration_mode>"@,
        "filesystem sandboxing defines"@,
        "developer_instructions"@,
    ]
}

/// Whether a text is injected context: its lower-cased form holds one of the
/// markers.
pub open spec fn is_noise(text: Seq<char>) -> bool {
    exists|i: int|
        0 <= i < noise_markers().len() && has_substring(lowercase(text), #[trigger] noise_markers()[i])
}

/// Whether a text is injected context rather than conversation.
pub fn is_noise_text(text: &str) -> (r: bool)
    ensures
        r == is_noise(text@),
{
    let lowered = to_lowercase(text);
    let lower = chars_of(lowered.as_str());
    let m0 = contains_chars(&lower, &chars_of("<environment_context>"));
    let m1 = contains_chars(&lower, &chars_of("# agents.md instructions"));
    let m2 = contains_chars(&lower, &chars_of("<permissions instructions>"));
    let m3 = contains_chars(&lower, &chars_of("<app-context>"));
    let m4 = contains_chars(&lower, &chars_of("<collaboration_mode>"));
    let m5 = contains_chars(&lower, &chars_of("filesystem sandboxing defines"));
    let m6 = contains_chars(&lower, &chars_of("developer_instructions"));
    let r = m0 || m1 || m2 || m3 || m4 || m5 || m6;
    proof {
        let ms = noise_markers();
        assert(ms[0] == "<environment_context>"@);
        assert(ms[1] == "# agents.md instructions"@);
        assert(ms[2] == "<permissions instructions>"@);
        assert(ms[3] == "<app-context>"@);
        assert(ms[4] == "<collaboration_mode>"@);
        assert(ms[5] == "filesystem sandboxing defines"@);
        assert(ms[6] == "developer_instructions"@);
        if r {
            if m0 {
                assert(has_substring(lowercase(text@), ms[0]));
            } else if m1 {
                assert(has_substring(lowercase(text@), ms[1]));
            } else if m2 {
                assert(has_substring(lowercase(text@), ms[2]));
            } else if m3 {
                assert(has_substring(lowercase(text@), ms[3]));
            } else if m4 {
                assert(has_substring(lowercase(text@), ms[4]));
            } else if m5 {
                assert(has_substring(lowercase(text@), ms[5]));
            } else {
                assert(has_substring(lowercase(text@), ms[6]));
            }
        }
    }
    r
}

// ---------------------------------------------------------------------------
// Field extraction
// ---------------------------------------------------------------------------
/// The first of two options that holds a value.
pub open spec fn or_else<T>(a: Option<T>, b: Option<T>) -> Option<T> {
    match a {
        Some(x) => Some(x),
        None => b,
    }
}

/// A cleaned text that is not injected context.
pub open spec fn meaningful(s: Seq<char>) -> Option<Seq<char>> {
    match cleaned(s) {
        Some(t) => if is_noise(t) {
            None
        } else {
            Some(t)
        },
        None => None,
    }
}

/// The title found at one path of a line.
pub open spec fn title_at(v: Json, path: Seq<Seq<char>>) -> Option<Seq<char>> {
    match str_at(v, path) {
        Some(s) => meaningful(s),
        None => None,
    }
}

/// The title a line gives: `payload.title`, `title`, then
/// `payload.session_title`, cleaned, skipping injected context.
pub open spec fn title_of(v: Json) -> Option<Seq<char>> {
    or_else(
        title_at(v, seq!["payload"@, "title"@]),
        or_else(title_at(v, seq!["title"@]), title_at(v, seq!["payload"@, "session_title"@])),
    )
}

/// The session id found at one path of a line.
pub open spec fn id_at(v: Json, path: Seq<Seq<char>>) -> Option<Seq<char>> {
    match str_at(v, path) {
        Some(s) => if trimmed(s).len() > 0 {
            Some(trimmed(s))
        } else {
            None
        },
        None => None,
    }
}

/// The session id a line gives: `payload.id`, `id`, then
/// `payload.session_id`, trimmed, skipping blank ones.
pub open spec fn id_of(v: Json) -> Option<Seq<char>> {
    or_else(
        id_at(v, seq!["payload"@, "id"@]),
        or_else(id_at(v, seq!["id"@]), id_at(v, seq!["payload"@, "session_id"@])),
    )
}

/// The project path found at one path of a line.
pub open spec fn project_at(v: Json, path: Seq<Seq<char>>) -> Option<Seq<char>> {
    match str_at(v, path) {
        Some(s) => cleaned(s),
        None => None,
    }
}

/// The project path a line gives: `payload.cwd`, `cwd`,
/// `payload.current_working_directory`, then `payload.project_path`, cleaned.
pub open spec fn project_of(v: Json) -> Option<Seq<char>> {
    or_else(
        project_at(v, seq!["payload"@, "cwd"@]),
        or_else(
            project_at(v, seq!["cwd"@]),
            or_else(
                project_at(v, seq!["payload"@, "current_working_directory"@]),
                project_at(v, seq!["payload"@, "project_path"@]),
            ),
        ),
    )
}

// ---------------------------------------------------------------------------
// Times
// ---------------------------------------------------------------------------
/// The Unix time of an RFC 3339 date-time text, as
/// `chrono::DateTime::parse_from_rfc3339` reads it; `None` when it does not
/// parse.
pub uninterp spec fn rfc3339_seconds(text: Seq<char>) -> Option<i64>;

/// Calls `chrono::DateTime::parse_from_rfc3339` and takes the parsed instant's
/// Unix seconds; the result is named by `rfc3339_seconds` and depends on the
/// text alone.
#[verifier::external_body]
fn rfc3339_timestamp(text: &str) -> (r: Option<i64>)
    ensures
        r == rfc3339_seconds(text@),
{
    chrono::DateTime::parse_from_rfc3339(text).ok().map(|dt| dt.timestamp())
}

/// The first Unix second chrono can represent (-262143-01-01T00:00:00Z).
pub open spec fn earliest_second() -> int {
    -8334601315200
}

/// The last Unix second chrono can represent (262142-12-31T23:59:59Z).
pub open spec fn latest_second() -> int {
    8210266876799
}

/// Calls `chrono::DateTime::<Utc>::from_timestamp(secs, 0)` and takes the
/// instant's Unix seconds back: `Some(secs)` exactly when `secs` lies in
/// chrono's date range (from year -262143 to year 262142).
#[verifier::external_body]
fn utc_timestamp(secs: i64) -> (r: Option<i64>)
    ensures
        r == (if earliest_second() <= secs <= latest_second() {
            Some(secs)
        } else {
            None
        }),
{
    chrono::DateTime::<chrono::Utc>::from_timestamp(secs, 0).map(|dt| dt.timestamp())
}

/// Whether a character is an ASCII digit.
pub open spec fn is_digit(c: char) -> bool {
    '0' <= c <= '9'
}

/// The value of a run of ASCII digits.
pub open spec fn digits_value(s: Seq<char>) -> int
    decreases s.len(),
{
    if s.len() == 0 {
        0
    } else {
        digits_value(s.drop_last()) * 10 + ((s.last() as u32) - 48)
    }
}

/// Whether `s` is a non-empty run of ASCII digits.
pub open spec fn all_digits(s: Seq<char>) -> bool {
    s.len() > 0 && forall|i: int| 0 <= i < s.len() ==> is_digit(#[trigger] s[i])
}

/// The integer a decimal text denotes: digits with an optional leading `+`
/// or `-`.
pub open spec fn integer_value(s: Seq<char>) -> Option<int> {
    if s.len() > 0 && (s[0] == '+' || s[0] == '-') {
        if all_digits(s.drop_first()) {
            Some(
                if s[0] == '-' {
                    -digits_value(s.drop_first())
                } else {
                    digits_value(s.drop_first())
                },
            )
        } else {
            None
        }
    } else if all_digits(s) {
        Some(digits_value(s))
    } else {
        None
    }
}

/// What `str::parse::<i64>` gives: the denoted integer when it fits.
pub open spec fn i64_value(s: Seq<char>) -> Option<i64> {
    match integer_value(s) {
        Some(n) => if i64::MIN <= n <= i64::MAX {
            Some(n as i64)
        } else {
            None
        },
        None => None,
    }
}

proof fn lemma_digits_value_nonneg(s: Seq<char>)
    requires
        forall|i: int| 0 <= i < s.len() ==> is_digit(#[trigger] s[i]),
    ensures
        digits_value(s) >= 0,
    decreases s.len(),
{
    if s.len() > 0 {
        lemma_digits_value_nonneg(s.drop_last());
    }
}

proof fn lemma_digits_value_grows(s: Seq<char>, k: int)
    requires
        0 <= k <= s.len(),
        forall|i: int| 0 <= i < s.len() ==> is_digit(#[trigger] s[i]),
    ensures
        digits_value(s.take(k)) <= digits_value(s),
    decreases s.len() - k,
{
    if k < s.len() {
        lemma_digits_value_grows(s, k + 1);
        assert(s.take(k + 1).drop_last() =~= s.take(k));
        lemma_digits_value_nonneg(s.take(k));
    } else {
        assert(s.take(k) =~= s);
    }
}

/// Parses a decimal integer as `str::parse::<i64>` does.
pub fn parse_i64(text: &str) -> (r: Option<i64>)
    ensures
        r == i64_value(text@),
{
    let cs = chars_of(text);
    if cs.len() == 0 {
        return None;
    }
    let negative = cs[0] == '-';
    let start: usize = if cs[0] == '+' || cs[0] == '-' {
        1
    } else {
        0
    };
    if start == cs.len() {
        return None;
    }
    let ghost ds = cs@.skip(start as int);
    assert(start == 1 ==> ds =~= cs@.drop_first());
    assert(start == 0 ==> ds =~= cs@);
    let limit: u64 = 0x8000_0000_0000_0000;
    let mut acc: u64 = 0;
    let mut i: usize = start;
    while i < cs.len()
        invariant
            cs@ == text@,
            cs.len() > 0,
            limit == 0x8000_0000_0000_0000u64,
            negative == (cs@[0] == '-'),
            (start == 1) == (cs@[0] == '+' || cs@[0] == '-'),
            start < cs.len(),
            start <= i <= cs.len(),
            start == 0 || start == 1,
            ds == cs@.skip(start as int),
            acc <= limit,
            acc == digits_value(ds.take(i - start)),
            forall|j: int| 0 <= j < i - start ==> is_digit(#[trigger] ds[j]),
        decreases cs.len() - i,
    {
        let c = cs[i];
        assert(ds[i - start] == c);
        if !('0' <= c && c <= '9') {
            assert(!all_digits(ds));
            return None;
        }
        let d = (c as u32 - 48) as u64;
        assert(ds.take(i + 1 - start).drop_last() =~= ds.take(i - start));
        if acc > (limit - d) / 10 {
            proof {
                assert(forall|j: int| 0 <= j < i + 1 - start ==> is_digit(#[trigger] ds.take(i + 1 - start)[j]));
                lemma_digits_value_nonneg(ds.take(i - start));
                if all_digits(ds) {
                    lemma_digits_value_grows(ds, i + 1 - start);
                }
                assert(acc * 10 + d > limit) by (nonlinear_arith)
                    requires
                        acc > (limit - d) / 10,
                        d <= 9,
                        limit == 0x8000_0000_0000_0000u64,
                ;
                assert(ds.take(i + 1 - start).last() == c);
                assert(digits_value(ds.take(i + 1 - start)) == acc * 10 + d);
                if start == 1 {
                    assert(ds =~= cs@.drop_first());
                } else {
                    assert(ds =~= cs@);
                }
                if all_digits(ds) {
                    assert(digits_value(ds) > limit);
                    assert(integer_value(cs@) is Some);
                    assert(i64_value(cs@) is None);
                }
            }
            return None;
        }
        acc = acc * 10 + d;
        i = i + 1;
    }
    assert(ds.take(cs.len() - start) =~= ds);
    assert(all_digits(ds));
    if negative {
        if acc == limit {
            Some(i64::MIN)
        } else {
            Some(-(acc as i64))
        }
    } else if acc > 0x7fff_ffff_ffff_ffff {
        None
    } else {
        Some(acc as i64)
    }
}

/// The Unix time a timestamp text denotes: an RFC 3339 date-time, else a
/// whole number of seconds within chrono's range.
pub open spec fn datetime_of(s: Seq<char>) -> Option<i64> {
    match rfc3339_seconds(s) {
        Some(t) => Some(t),
        None => match i64_value(s) {
            Some(n) => if earliest_second() <= n <= latest_second() {
                Some(n)
            } else {
                None
            },
            None => None,
        },
    }
}

/// Reads a timestamp: an RFC 3339 date-time, else whole Unix seconds.
pub fn parse_datetime(value: &str) -> (r: Option<i64>)
    ensures
        r == datetime_of(value@),
{
    match rfc3339_timestamp(value) {
        Some(t) => Some(t),
        None => match parse_i64(value) {
            Some(n) => utc_timestamp(n),
            None => None,
        },
    }
}

/// The time found at one path of a line.
pub open spec fn time_at(v: Json, path: Seq<Seq<char>>) -> Option<i64> {
    match str_at(v, path) {
        Some(s) => datetime_of(s),
        None => None,
    }
}

/// The creation time a line gives: `payload.timestamp`, `timestamp`,
/// `created_at`, then `payload.created_at`.
pub open spec fn created_of(v: Json) -> Option<i64> {
    or_else(
        time_at(v, seq!["payload"@, "timestamp"@]),
        or_else(
            time_at(v, seq!["timestamp"@]),
            or_else(time_at(v, seq!["created_at"@]), time_at(v, seq!["payload"@, "created_at"@])),
        ),
    )
}

/// The time stamp a line gives: `timestamp`, `payload.timestamp`,
/// `updated_at`, then `payload.updated_at`.
pub open spec fn stamp_of(v: Json) -> Option<i64> {
    or_else(
        time_at(v, seq!["timestamp"@]),
        or_else(
            time_at(v, seq!["payload"@, "timestamp"@]),
            or_else(time_at(v, seq!["updated_at"@]), time_at(v, seq!["payload"@, "updated_at"@])),
        ),
    )
}

// ---------------------------------------------------------------------------
// Messages
// ---------------------------------------------------------------------------
/// The text of a content item: its `text`, cleaned, unless injected context.
pub open spec fn item_text(item: Json) -> Option<Seq<char>> {
    match str_at(item, seq!["text"@]) {
        Some(s) => meaningful(s),
        None => None,
    }
}

/// The first item of `items` that has a text.
pub open spec fn first_item_text(items: Seq<Json>) -> Option<Seq<char>>
    decreases items.len(),
{
    if items.len() == 0 {
        None
    } else {
        or_else(first_item_text(items.drop_last()), item_text(items.last()))
    }
}

/// The text of a message's content: the first item with a text, when the
/// content is an array.
pub open spec fn content_text(content: Json) -> Option<Seq<char>> {
    match content {
        Json::Array(items) => first_item_text(items@),
        _ => None,
    }
}

/// The role and text of a `response_item` line holding a `message`.
pub open spec fn response_message(v: Json) -> Option<(Seq<char>, Seq<char>)> {
    if str_at(v, seq!["type"@]) == Some("response_item"@) && str_at(v, seq!["payload"@, "type"@])
        == Some("message"@) {
        match str_at(v, seq!["payload"@, "role"@]) {
            Some(role) => match json_at(v, seq!["payload"@, "content"@]) {
                Some(content) => match content_text(content) {
                    Some(t) => if is_noise(t) {
                        None
                    } else {
                        Some((role, t))
                    },
                    None => None,
                },
                None => None,
            },
            None => None,
        }
    } else {
        None
    }
}

/// The role and text of a message line: an `event_msg` of type
/// `user_message` is the user's message; else a `response_item` of type
/// `message` gives its role and the first text of its content.
pub open spec fn role_and_text_of(v: Json) -> Option<(Seq<char>, Seq<char>)> {
    if str_at(v, seq!["type"@]) == Some("event_msg"@) && str_at(v, seq!["payload"@, "type"@])
        == Some("user_message"@) {
        match str_at(v, seq!["payload"@, "message"@]) {
            Some(m) => match cleaned(m) {
                Some(t) => if is_noise(t) {
                    response_message(v)
                } else {
                    Some(("user"@, t))
                },
                None => None,
            },
            None => None,
        }
    } else {
        response_message(v)
    }
}

/// The message text a line gives for `role`, cut to 80 columns.
pub open spec fn snippet_for(v: Json, role: Seq<char>) -> Option<Seq<char>> {
    match role_and_text_of(v) {
        Some((r, t)) => if r == role {
            Some(truncated(t, 80))
        } else {
            None
        },
        None => None,
    }
}

/// The recent-message entry a line gives.
pub open spec fn recent_of(v: Json) -> Option<SnippetView> {
    match role_and_text_of(v) {
        Some((r, t)) => if t.len() == 0 {
            None
        } else {
            Some(SnippetView { role: r, timestamp: stamp_of(v), text: truncated(t, 160) })
        },
        None => None,
    }
}

// ---------------------------------------------------------------------------
// Executable extraction
// ---------------------------------------------------------------------------
fn title_candidate(value: &Json, path: &[&str]) -> (r: Option<String>)
    ensures
        r.deep_view() == title_at(*value, key_texts(path@)),
{
    match get_nested_str(value, path) {
        Some(s) => match clean_text(s.as_str()) {
            Some(t) => if is_noise_text(t.as_str()) {
                None
            } else {
                Some(t)
            },
            None => None,
        },
        None => None,
    }
}

/// The title a line gives.
pub fn extract_title(value: &Json) -> (r: Option<String>)
    ensures
        r.deep_view() == title_of(*value),
{
    let p1: [&str; 2] = ["payload", "title"];
    let p2: [&str; 1] = ["title"];
    let p3: [&str; 2] = ["payload", "session_title"];
    assert(key_texts(p1@) =~= seq!["payload"@, "title"@]);
    assert(key_texts(p2@) =~= seq!["title"@]);
    assert(key_texts(p3@) =~= seq!["payload"@, "session_title"@]);
    let a = title_candidate(value, &p1);
    if a.is_some() {
        return a;
    }
    let b = title_candidate(value, &p2);
    if b.is_some() {
        return b;
    }
    title_candidate(value, &p3)
}

fn id_candidate(value: &Json, path: &[&str]) -> (r: Option<String>)
    ensures
        r.deep_view() == id_at(*value, key_texts(path@)),
{
    match get_nested_str(value, path) {
        Some(s) => {
            let t = trim(s.as_str());
            if t.as_str().is_empty() {
                None
            } else {
                Some(t)
            }
        },
        None => None,
    }
}

/// The session id a line gives.
pub fn extract_session_id(value: &Json) -> (r: Option<String>)
    ensures
        r.deep_view() == id_of(*value),
{
    let p1: [&str; 2] = ["payload", "id"];
    let p2: [&str; 1] = ["id"];
    let p3: [&str; 2] = ["payload", "session_id"];
    assert(key_texts(p1@) =~= seq!["payload"@, "id"@]);
    assert(key_texts(p2@) =~= seq!["id"@]);
    assert(key_texts(p3@) =~= seq!["payload"@, "session_id"@]);
    let a = id_candidate(value, &p1);
    if a.is_some() {
        return a;
    }
    let b = id_candidate(value, &p2);
    if b.is_some() {
        return b;
    }
    id_candidate(value, &p3)
}

fn project_candidate(value: &Json, path: &[&str]) -> (r: Option<String>)
    ensures
        r.deep_view() == project_at(*value, key_texts(path@)),
{
    match get_nested_str(value, path) {
        Some(s) => clean_text(s.as_str()),
        None => None,
    }
}

/// The project path a line gives.
pub fn extract_project_path(value: &Json) -> (r: Option<String>)
    ensures
        r.deep_view() == project_of(*value),
{
    let p1: [&str; 2] = ["payload", "cwd"];
    let p2: [&str; 1] = ["cwd"];
    let p3: [&str; 2] = ["payload", "current_working_directory"];
    let p4: [&str; 2] = ["payload", "project_path"];
    assert(key_texts(p1@) =~= seq!["payload"@, "cwd"@]);
    assert(key_texts(p2@) =~= seq!["cwd"@]);
    assert(key_texts(p3@) =~= seq!["payload"@, "current_working_directory"@]);
    assert(key_texts(p4@) =~= seq!["payload"@, "project_path"@]);
    let a = project_candidate(value, &p1);
    if a.is_some() {
        return a;
    }
    let b = project_candidate(value, &p2);
    if b.is_some() {
        return b;
    }
    let c = project_candidate(value, &p3);
    if c.is_some() {
        return c;
    }
    project_candidate(value, &p4)
}

fn time_candidate(value: &Json, path: &[&str]) -> (r: Option<i64>)
    ensures
        r == time_at(*value, key_texts(path@)),
{
    match get_nested_str(value, path) {
        Some(s) => parse_datetime(s.as_str()),
        None => None,
    }
}

/// The creation time a line gives.
pub fn extract_created_time(value: &Json) -> (r: Option<i64>)
    ensures
        r == created_of(*value),
{
    let p1: [&str; 2] = ["payload", "timestamp"];
    let p2: [&str; 1] = ["timestamp"];
    let p3: [&str; 1] = ["created_at"];
    let p4: [&str; 2] = ["payload", "created_at"];
    assert(key_texts(p1@) =~= seq!["payload"@, "timestamp"@]);
    assert(key_texts(p2@) =~= seq!["timestamp"@]);
    assert(key_texts(p3@) =~= seq!["created_at"@]);
    assert(key_texts(p4@) =~= seq!["payload"@, "created_at"@]);
    let a = time_candidate(value, &p1);
    if a.is_some() {
        return a;
    }
    let b = time_candidate(value, &p2);
    if b.is_some() {
        return b;
    }
    let c = time_candidate(value, &p3);
    if c.is_some() {
        return c;
    }
    time_candidate(value, &p4)
}

/// The time stamp a line gives.
pub fn extract_timestamp(value: &Json) -> (r: Option<i64>)
    ensures
        r == stamp_of(*value),
{
    let p1: [&str; 1] = ["timestamp"];
    let p2: [&str; 2] = ["payload", "timestamp"];
    let p3: [&str; 1] = ["updated_at"];
    let p4: [&str; 2] = ["payload", "updated_at"];
    assert(key_texts(p1@) =~= seq!["timestamp"@]);
    assert(key_texts(p2@) =~= seq!["payload"@, "timestamp"@]);
    assert(key_texts(p3@) =~= seq!["updated_at"@]);
    assert(key_texts(p4@) =~= seq!["payload"@, "updated_at"@]);
    let a = time_candidate(value, &p1);
    if a.is_some() {
        return a;
    }
    let b = time_candidate(value, &p2);
    if b.is_some() {
        return b;
    }
    let c = time_candidate(value, &p3);
    if c.is_some() {
        return c;
    }
    time_candidate(value, &p4)
}

/// The first text among the items of a message's content.
pub fn collect_message_text(value: &Json) -> (r: Option<String>)
    ensures
        r.deep_view() == content_text(*value),
{
    let items = match value.as_array() {
        Some(items) => items,
        None => {
            return None;
        },
    };
    let key: [&str; 1] = ["text"];
    assert(key_texts(key@) =~= seq!["text"@]);
    let mut i: usize = 0;
    while i < items.len()
        invariant
            *value == Json::Array(*items),
            key_texts(key@) == seq!["text"@],
            i <= items.len(),
            first_item_text(items@.take(i as int)) is None,
        decreases items.len() - i,
    {
        assert(items@.take(i + 1).drop_last() =~= items@.take(i as int));
        let found = match get_nested_str(&items[i], &key) {
            Some(s) => match clean_text(s.as_str()) {
                Some(t) => if is_noise_text(t.as_str()) {
                    None
                } else {
                    Some(t)
                },
                None => None,
            },
            None => None,
        };
        if found.is_some() {
            proof {
                lemma_first_item_text_extends(items@, i as int);
            }
            return found;
        }
        i = i + 1;
    }
    assert(items@.take(items.len() as int) =~= items@);
    None
}

proof fn lemma_first_item_text_extends(items: Seq<Json>, i: int)
    requires
        0 <= i < items.len(),
        first_item_text(items.take(i)) is None,
        item_text(items[i]) is Some,
    ensures
        first_item_text(items) == item_text(items[i]),
    decreases items.len() - i,
{
    assert(items.take(i + 1).drop_last() =~= items.take(i));
    if i + 1 == items.len() {
        assert(items.take(i + 1) =~= items);
    } else {
        lemma_first_item_text_prefix(items, i + 1);
    }
}

proof fn lemma_first_item_text_prefix(items: Seq<Json>, k: int)
    requires
        0 <= k <= items.len(),
        first_item_text(items.take(k)) is Some,
    ensures
        first_item_text(items) == first_item_text(items.take(k)),
    decreases items.len() - k,
{
    if k == items.len() {
        assert(items.take(k) =~= items);
    } else {
        assert(items.take(k + 1).drop_last() =~= items.take(k));
        lemma_first_item_text_prefix(items, k + 1);
    }
}

fn response_message_exec(value: &Json) -> (r: Option<(String, String)>)
    ensures
        match r {
            Some(p) => response_message(*value) == Some((p.0@, p.1@)),
            None => response_message(*value) is None,
        },
{
    let k_type: [&str; 1] = ["type"];
    let k_payload_type: [&str; 2] = ["payload", "type"];
    let k_role: [&str; 2] = ["payload", "role"];
    assert(key_texts(k_type@) =~= seq!["type"@]);
    assert(key_texts(k_payload_type@) =~= seq!["payload"@, "type"@]);
    assert(key_texts(k_role@) =~= seq!["payload"@, "role"@]);
    let is_item = match get_nested_str(value, &k_type) {
        Some(t) => same_text(t.as_str(), "response_item"),
        None => false,
    };
    let is_message = match get_nested_str(value, &k_payload_type) {
        Some(t) => same_text(t.as_str(), "message"),
        None => false,
    };
    if !(is_item && is_message) {
        return None;
    }
    proof {
        reveal_with_fuel(json_at, 3);
        assert(seq!["payload"@, "content"@][0] == "payload"@);
        assert(seq!["payload"@, "content"@].drop_first() =~= seq!["content"@]);
        assert(seq!["content"@][0] == "content"@);
        assert(seq!["content"@].drop_first() =~= Seq::<Seq<char>>::empty());
    }
    let role = match get_nested_str(value, &k_role) {
        Some(r) => r,
        None => {
            return None;
        },
    };
    let payload = match value.get("payload") {
        Some(p) => p,
        None => {
            return None;
        },
    };
    let content = match payload.get("content") {
        Some(c) => c,
        None => {
            return None;
        },
    };
    let text = match collect_message_text(content) {
        Some(t) => t,
        None => {
            return None;
        },
    };
    if is_noise_text(text.as_str()) {
        return None;
    }
    Some((role.clone(), text))
}

/// The role and text of a message line.
pub fn extract_role_and_text(value: &Json) -> (r: Option<(String, String)>)
    ensures
        match r {
            Some(p) => role_and_text_of(*value) == Some((p.0@, p.1@)),
            None => role_and_text_of(*value) is None,
        },
{
    let k_type: [&str; 1] = ["type"];
    let k_payload_type: [&str; 2] = ["payload", "type"];
    let k_message: [&str; 2] = ["payload", "message"];
    assert(key_texts(k_type@) =~= seq!["type"@]);
    assert(key_texts(k_payload_type@) =~= seq!["payload"@, "type"@]);
    assert(key_texts(k_message@) =~= seq!["payload"@, "message"@]);
    let is_event = match get_nested_str(value, &k_type) {
        Some(t) => same_text(t.as_str(), "event_msg"),
        None => false,
    };
    let is_user = match get_nested_str(value, &k_payload_type) {
        Some(t) => same_text(t.as_str(), "user_message"),
        None => false,
    };
    if is_event && is_user {
        let text = match get_nested_str(value, &k_message) {
            Some(m) => match clean_text(m.as_str()) {
                Some(t) => t,
                None => {
                    return None;
                },
            },
            None => {
                return None;
            },
        };
        if !is_noise_text(text.as_str()) {
            return Some((owned("user"), text));
        }
    }
    response_message_exec(value)
}

/// The text of a line for `expected_role`, cut to 80 columns.
pub fn extract_message_snippet(value: &Json, expected_role: &str) -> (r: Option<String>)
    ensures
        r.deep_view() == snippet_for(*value, expected_role@),
{
    let (role, text) = match extract_role_and_text(value) {
        Some(p) => p,
        None => {
            return None;
        },
    };
    if !same_text(role.as_str(), expected_role) {
        return None;
    }
    Some(truncate_display_width(text.as_str(), 80))
}

/// The recent-message entry a line gives.
pub fn extract_recent_message(value: &Json) -> (r: Option<MessageSnippet>)
    ensures
        match r {
            Some(m) => recent_of(*value) == Some(m@),
            None => recent_of(*value) is None,
        },
{
    let (role, text) = match extract_role_and_text(value) {
        Some(p) => p,
        None => {
            return None;
        },
    };
    if text.as_str().is_empty() {
        return None;
    }
    Some(
        MessageSnippet {
            role,
            timestamp: extract_timestamp(value),
            text: truncate_display_width(text.as_str(), 160),
        },
    )
}

// ---------------------------------------------------------------------------
// Sessions from log lines
// ---------------------------------------------------------------------------
/// How many lines of a log's head a preview reads.
pub const PREVIEW_LINE_LIMIT: usize = 50;

/// How many lines of a log's head the detail view reads when its tail held no
/// message.
pub const DETAIL_HEAD_LINE_LIMIT: usize = 200;

/// How many bytes of a log's tail the detail view reads.
pub const DETAIL_TAIL_BYTES: u64 = 131072;

/// How many recent messages the detail view keeps.
pub const DETAIL_RECENT_LIMIT: usize = 8;

/// The documents of a log's lines; a line that could not be read as text
/// gives none.
pub open spec fn line_docs(lines: Seq<Option<String>>) -> Seq<Option<Json>> {
    lines.map_values(
        |l: Option<String>|
            match l {
                Some(s) => json_text(s@),
                None => None,
            },
    )
}

/// The first `n` lines (all of them when there are fewer).
pub open spec fn head<T>(s: Seq<T>, n: int) -> Seq<T> {
    if s.len() <= n {
        s
    } else {
        s.take(n)
    }
}

/// What `f` gives for the first document that gives anything.
pub open spec fn first_found<T>(docs: Seq<Option<Json>>, f: spec_fn(Json) -> Option<T>) -> Option<T>
    decreases docs.len(),
{
    if docs.len() == 0 {
        None
    } else {
        or_else(
            first_found(docs.drop_last(), f),
            match docs.last() {
                Some(v) => f(v),
                None => None,
            },
        )
    }
}

/// What `f` gives for the last document that gives anything.
pub open spec fn last_found<T>(docs: Seq<Option<Json>>, f: spec_fn(Json) -> Option<T>) -> Option<T>
    decreases docs.len(),
{
    if docs.len() == 0 {
        None
    } else {
        or_else(
            match docs.last() {
                Some(v) => f(v),
                None => None,
            },
            last_found(docs.drop_last(), f),
        )
    }
}

/// The id of a session whose log names none: `file:` and at most 24
/// characters of the file's stem (`session` when the path has none or the
/// stem is not text: `stem_ok` says whether it is).
pub open spec fn fallback_id(path: Seq<char>, stem_ok: bool) -> Seq<char> {
    let stem = match given_stem(path, stem_ok) {
        Some(s) => s,
        None => "session"@,
    };
    "file:"@ + head(stem, 24)
}

/// The id of a session whose log names none.
pub fn fallback_session_id(path: &str, stem_is_text: bool) -> (r: String)
    ensures
        r@ == fallback_id(path@, stem_is_text),
{
    let stem: Vec<char> = match crate::path::file_name_of(path) {
        Some(name) => if stem_is_text {
            crate::path::split_name(&name).0
        } else {
            chars_of("session")
        },
        None => chars_of("session"),
    };
    let mut out = chars_of("file:");
    let ghost start = out@;
    let mut i: usize = 0;
    while i < stem.len() && i < 24
        invariant
            i <= stem.len(),
            i <= 24,
            out@ == start + stem@.take(i as int),
        decreases stem.len() - i,
    {
        out.push(stem[i]);
        i = i + 1;
        assert(out@ =~= start + stem@.take(i as int));
    }
    assert(stem@.len() <= 24 ==> stem@.take(i as int) =~= stem@);
    string_of(&out)
}

/// The title of a previewed session: the first title a line gives, else the
/// first user message, else `Untitled Session`; cut to 80 columns.
pub open spec fn preview_title(docs: Seq<Option<Json>>) -> Seq<char> {
    let t = match or_else(
        first_found(docs, |v: Json| title_of(v)),
        first_found(docs, |v: Json| snippet_for(v, "user"@)),
    ) {
        Some(t) => t,
        None => "Untitled Session"@,
    };
    truncated(t, 80)
}

proof fn lemma_first_found_step<T>(docs: Seq<Option<Json>>, i: int, f: spec_fn(Json) -> Option<T>)
    requires
        0 <= i < docs.len(),
    ensures
        first_found(docs.take(i + 1), f) == or_else(
            first_found(docs.take(i), f),
            match docs[i] {
                Some(v) => f(v),
                None => None,
            },
        ),
        last_found(docs.take(i + 1), f) == or_else(
            match docs[i] {
                Some(v) => f(v),
                None => None,
            },
            last_found(docs.take(i), f),
        ),
{
    assert(docs.take(i + 1).drop_last() =~= docs.take(i));
}

/// A preview reads the head of a log only: lines after the first
/// `PREVIEW_LINE_LIMIT` change none of the documents it is built from.
pub proof fn lemma_preview_reads_only_the_head(lines: Seq<Option<String>>, more: Seq<Option<String>>)
    requires
        lines.len() >= PREVIEW_LINE_LIMIT,
    ensures
        line_docs(head(lines + more, PREVIEW_LINE_LIMIT as int)) == line_docs(
            head(lines, PREVIEW_LINE_LIMIT as int),
        ),
{
    assert(head(lines + more, PREVIEW_LINE_LIMIT as int) =~= head(lines, PREVIEW_LINE_LIMIT as int));
}

/// A session as the first lines of its log describe it. `path` is the log's
/// path as text and `stem_is_text` whether its file stem is valid UTF-8;
/// `lines` are the lines read from the log's head, `None` for a line that
/// was not valid text; `size` and `file_updated_at` come from the file's
/// metadata.
pub fn parse_session_preview(
    path: &str,
    stem_is_text: bool,
    size: u64,
    file_updated_at: Option<i64>,
    lines: &Vec<Option<String>>,
) -> (r: Session)
    ensures
        ({
            let docs = line_docs(head(lines@, PREVIEW_LINE_LIMIT as int));
            &&& r.id@ == match first_found(docs, |v: Json| id_of(v)) {
                Some(s) => s,
                None => fallback_id(path@, stem_is_text),
            }
            &&& r.title@ == preview_title(docs)
            &&& r.project_path@ == match first_found(docs, |v: Json| project_of(v)) {
                Some(p) => p,
                None => "Unknown Project"@,
            }
            &&& r.file_path@ == path@
            &&& r.created_at == or_else(first_found(docs, |v: Json| created_of(v)), file_updated_at)
            &&& r.updated_at == or_else(
                file_updated_at,
                or_else(
                    last_found(docs, |v: Json| stamp_of(v)),
                    first_found(docs, |v: Json| created_of(v)),
                ),
            )
            &&& r.size == size
            &&& !r.selected
        }),
{
    let n: usize = if lines.len() < PREVIEW_LINE_LIMIT {
        lines.len()
    } else {
        PREVIEW_LINE_LIMIT
    };
    let ghost all = line_docs(lines@);
    let ghost docs = line_docs(head(lines@, PREVIEW_LINE_LIMIT as int));
    assert(docs =~= all.take(n as int));
    let mut session_id: Option<String> = None;
    let mut project_path: Option<String> = None;
    let mut title: Option<String> = None;
    let mut first_user_text: Option<String> = None;
    let mut created_at: Option<i64> = None;
    let mut last_seen: Option<i64> = None;
    let mut i: usize = 0;
    assert(all.take(0) =~= Seq::<Option<Json>>::empty());
    while i < n
        invariant
            n <= lines.len(),
            all == line_docs(lines@),
            i <= n,
            session_id.deep_view() == first_found(all.take(i as int), |v: Json| id_of(v)),
            project_path.deep_view() == first_found(all.take(i as int), |v: Json| project_of(v)),
            title.deep_view() == first_found(all.take(i as int), |v: Json| title_of(v)),
            first_user_text.deep_view() == first_found(
                all.take(i as int),
                |v: Json| snippet_for(v, "user"@),
            ),
            created_at == first_found(all.take(i as int), |v: Json| created_of(v)),
            last_seen == last_found(all.take(i as int), |v: Json| stamp_of(v)),
        decreases n - i,
    {
        proof {
            lemma_first_found_step(all, i as int, |v: Json| id_of(v));
            lemma_first_found_step(all, i as int, |v: Json| project_of(v));
            lemma_first_found_step(all, i as int, |v: Json| title_of(v));
            lemma_first_found_step(all, i as int, |v: Json| snippet_for(v, "user"@));
            lemma_first_found_step(all, i as int, |v: Json| created_of(v));
            lemma_first_found_step(all, i as int, |v: Json| stamp_of(v));
        }
        let parsed = match &lines[i] {
            Some(line) => parse_json(line.as_str()),
            None => None,
        };
        assert(parsed == all[i as int]);
        match parsed {
            Some(value) => {
                if created_at.is_none() {
                    created_at = extract_created_time(&value);
                }
                let stamp = extract_timestamp(&value);
                if stamp.is_some() {
                    last_seen = stamp;
                }
                if session_id.is_none() {
                    session_id = extract_session_id(&value);
                }
                if project_path.is_none() {
                    project_path = extract_project_path(&value);
                }
                if title.is_none() {
                    title = extract_title(&value);
                }
                if first_user_text.is_none() {
                    first_user_text = extract_message_snippet(&value, "user");
                }
            },
            None => {},
        }
        i = i + 1;
    }
    let chosen: String = match title {
        Some(t) => t,
        None => match first_user_text {
            Some(t) => t,
            None => owned("Untitled Session"),
        },
    };
    let id = match session_id {
        Some(s) => s,
        None => fallback_session_id(path, stem_is_text),
    };
    let project = match project_path {
        Some(p) => p,
        None => owned("Unknown Project"),
    };
    let created = match created_at {
        Some(t) => Some(t),
        None => file_updated_at,
    };
    let updated = match file_updated_at {
        Some(t) => Some(t),
        None => match last_seen {
            Some(t) => Some(t),
            None => created_at,
        },
    };
    Session {
        id,
        title: truncate_display_width(chosen.as_str(), 80),
        project_path: project,
        file_path: owned(path),
        created_at: created,
        updated_at: updated,
        size,
        selected: false,
    }
}

// ---------------------------------------------------------------------------
// Recent messages
// ---------------------------------------------------------------------------
/// The recent-message entries of a run of documents, in order.
pub open spec fn recent_all(docs: Seq<Option<Json>>) -> Seq<SnippetView>
    decreases docs.len(),
{
    if docs.len() == 0 {
        seq![]
    } else {
        let r = recent_all(docs.drop_last());
        match docs.last() {
            Some(v) => match recent_of(v) {
                Some(m) => r.push(m),
                None => r,
            },
            None => r,
        }
    }
}

/// The last `n` entries of `s` (all of them when there are fewer).
pub open spec fn keep_last<T>(s: Seq<T>, n: int) -> Seq<T> {
    if s.len() <= n {
        s
    } else {
        s.skip(s.len() - n)
    }
}

/// The most recent messages among the first `limit` lines.
fn collect_recent(lines: &Vec<Option<String>>, limit: usize) -> (r: Vec<MessageSnippet>)
    ensures
        snippet_views(r@) == keep_last(
            recent_all(line_docs(head(lines@, limit as int))),
            DETAIL_RECENT_LIMIT as int,
        ),
{
    let n: usize = if lines.len() < limit {
        lines.len()
    } else {
        limit
    };
    let ghost all = line_docs(lines@);
    assert(line_docs(head(lines@, limit as int)) =~= all.take(n as int));
    let mut messages: Vec<MessageSnippet> = Vec::new();
    let mut i: usize = 0;
    assert(all.take(0) =~= Seq::<Option<Json>>::empty());
    while i < n
        invariant
            n <= lines.len(),
            all == line_docs(lines@),
            i <= n,
            snippet_views(messages@) == keep_last(recent_all(all.take(i as int)), 8),
        decreases n - i,
    {
        let ghost before = recent_all(all.take(i as int));
        assert(all.take(i + 1).drop_last() =~= all.take(i as int));
        let parsed = match &lines[i] {
            Some(line) => parse_json(line.as_str()),
            None => None,
        };
        assert(parsed == all[i as int]);
        match parsed {
            Some(value) => match extract_recent_message(&value) {
                Some(m) => {
                    let ghost mv = m@;
                    let ghost old_views = snippet_views(messages@);
                    let ghost old_msgs = messages@;
                    if messages.len() == DETAIL_RECENT_LIMIT {
                        messages.remove(0);
                    }
                    messages.push(m);
                    proof {
                        let after = before.push(mv);
                        assert(recent_all(all.take(i + 1)) == after);
                        if before.len() < 8 {
                            assert(snippet_views(messages@) =~= after);
                        } else {
                            assert(old_views.len() == 8);
                            assert(old_msgs.len() == 8);
                            assert(messages@ == old_msgs.remove(0).push(m));
                            let want = after.skip(after.len() - 8);
                            assert forall|k: int| 0 <= k < 8 implies #[trigger] snippet_views(
                                messages@,
                            )[k] == want[k] by {
                                if k < 7 {
                                    assert(messages@[k] == old_msgs[k + 1]);
                                    assert(old_views[k + 1] == old_msgs[k + 1]@);
                                    assert(old_views[k + 1] == before[before.len() - 8 + k + 1]);
                                }
                            }
                            assert(snippet_views(messages@) =~= want);
                        }
                    }
                },
                None => {},
            },
            None => {},
        }
        i = i + 1;
    }
    messages
}

/// The most recent messages among the first lines of a log's head.
pub fn parse_recent_messages_from_head(lines: &Vec<Option<String>>) -> (r: Vec<MessageSnippet>)
    ensures
        snippet_views(r@) == keep_last(
            recent_all(line_docs(head(lines@, DETAIL_HEAD_LINE_LIMIT as int))),
            DETAIL_RECENT_LIMIT as int,
        ),
{
    collect_recent(lines, DETAIL_HEAD_LINE_LIMIT)
}

proof fn lemma_recent_all_texts(docs: Seq<Option<Json>>)
    ensures
        forall|i: int| 0 <= i < recent_all(docs).len() ==> (#[trigger] recent_all(docs)[i]).text.len() > 0,
    decreases docs.len(),
{
    if docs.len() > 0 {
        lemma_recent_all_texts(docs.drop_last());
        match docs.last() {
            Some(v) => match role_and_text_of(v) {
                Some((r, t)) => {
                    if t.len() > 0 {
                        assert(truncated(t, 160).len() > 0);
                    }
                },
                None => {},
            },
            None => {},
        }
    }
}

/// A detail shows at most `DETAIL_RECENT_LIMIT` messages read from a log,
/// and none of them has an empty text.
pub proof fn lemma_recent_messages_shape(docs: Seq<Option<Json>>)
    ensures
        keep_last(recent_all(docs), DETAIL_RECENT_LIMIT as int).len() <= DETAIL_RECENT_LIMIT,
        forall|i: int|
            0 <= i < keep_last(recent_all(docs), DETAIL_RECENT_LIMIT as int).len() ==> (#[trigger] keep_last(
                recent_all(docs),
                DETAIL_RECENT_LIMIT as int,
            )[i]).text.len() > 0,
{
    lemma_recent_all_texts(docs);
    let s = recent_all(docs);
    let k = keep_last(s, DETAIL_RECENT_LIMIT as int);
    if s.len() > DETAIL_RECENT_LIMIT {
        assert forall|i: int| 0 <= i < k.len() implies (#[trigger] k[i]).text.len() > 0 by {
            assert(k[i] == s[i + s.len() - DETAIL_RECENT_LIMIT]);
        }
    }
}

/// The recent messages a detail shows: those found in the log's tail, or,
/// when the tail holds none, those found in the first lines of its head.
pub fn recent_messages(tail: Vec<MessageSnippet>, head_lines: &Vec<Option<String>>) -> (r: Vec<MessageSnippet>)
    ensures
        tail@.len() > 0 ==> r@ == tail@,
        tail@.len() == 0 ==> snippet_views(r@) == keep_last(
            recent_all(line_docs(head(head_lines@, DETAIL_HEAD_LINE_LIMIT as int))),
            DETAIL_RECENT_LIMIT as int,
        ),
{
    if tail.len() > 0 {
        tail
    } else {
        parse_recent_messages_from_head(head_lines)
    }
}

/// The pieces of `s` between newlines, empty pieces included.
pub open spec fn split_newlines(s: Seq<char>) -> Seq<Seq<char>>
    decreases s.len(),
{
    if s.len() == 0 {
        seq![seq![]]
    } else {
        let p = split_newlines(s.drop_last());
        if s.last() == '\n' {
            p.push(seq![])
        } else {
            p.update(p.len() - 1, p.last().push(s.last()))
        }
    }
}

/// A line without the carriage return that ended it.
pub open spec fn strip_cr(l: Seq<char>) -> Seq<char> {
    if l.len() > 0 && l.last() == '\r' {
        l.drop_last()
    } else {
        l
    }
}

/// The lines of a text as `str::lines` yields them: split at `\n`, a `\r`
/// before the `\n` dropped, and no empty line after a final newline.
pub open spec fn text_lines(s: Seq<char>) -> Seq<Seq<char>> {
    let p = split_newlines(s);
    let body = p.drop_last().map_values(|l: Seq<char>| strip_cr(l));
    if p.last().len() == 0 {
        body
    } else {
        body.push(p.last())
    }
}

/// The index of the first newline in `s`, or -1.
pub open spec fn newline_pos(s: Seq<char>) -> int
    decreases s.len(),
{
    if s.len() == 0 {
        -1
    } else if newline_pos(s.drop_last()) >= 0 {
        newline_pos(s.drop_last())
    } else if s.last() == '\n' {
        s.len() - 1
    } else {
        -1
    }
}

/// The whole lines of a tail read from byte `start` of a log: when the read
/// began inside the file, the partial first line is dropped.
pub open spec fn tail_text(chunk: Seq<char>, start: u64) -> Seq<char> {
    if start > 0 {
        if newline_pos(chunk) >= 0 {
            chunk.skip(newline_pos(chunk) + 1)
        } else {
            seq![]
        }
    } else {
        chunk
    }
}

/// The documents of the lines of a log's tail.
pub open spec fn tail_docs(chunk: Seq<char>, start: u64) -> Seq<Option<Json>> {
    text_lines(tail_text(chunk, start)).map_values(|l: Seq<char>| json_text(l))
}

/// Where the tail read of a log of `file_len` bytes begins.
pub fn tail_start(file_len: u64) -> (r: u64)
    ensures
        r == if file_len > DETAIL_TAIL_BYTES {
            file_len - DETAIL_TAIL_BYTES
        } else {
            0
        },
{
    if file_len > DETAIL_TAIL_BYTES {
        file_len - DETAIL_TAIL_BYTES
    } else {
        0
    }
}

proof fn lemma_split_newlines_nonempty(s: Seq<char>)
    ensures
        split_newlines(s).len() > 0,
    decreases s.len(),
{
    if s.len() > 0 {
        lemma_split_newlines_nonempty(s.drop_last());
    }
}

proof fn lemma_newline_pos(s: Seq<char>, k: int)
    requires
        0 <= k <= s.len(),
        forall|j: int| 0 <= j < k ==> s[j] != '\n',
    ensures
        k < s.len() && s[k] == '\n' ==> newline_pos(s) == k,
        k == s.len() ==> newline_pos(s) == -1,
        newline_pos(s.take(k)) == -1,
    decreases s.len(),
{
    if s.len() > 0 {
        if k == s.len() {
            lemma_newline_pos(s.drop_last(), k - 1);
            assert(s.drop_last().take(k - 1) =~= s.take(k - 1));
            assert(s.take(k) =~= s);
        } else {
            lemma_newline_pos(s.drop_last(), k);
            assert(s.drop_last().take(k) =~= s.take(k));
            if s[k] == '\n' && k < s.len() - 1 {
                assert(s.drop_last()[k] == s[k]);
            }
        }
    } else {
        assert(s.take(k) =~= s);
    }
}

/// The lines of the tail of a log read from byte `start`.
fn tail_lines(chunk: &str, start: u64) -> (r: Vec<Option<String>>)
    ensures
        line_docs(r@) == tail_docs(chunk@, start),
{
    let cs = chars_of(chunk);
    let mut off: usize = 0;
    if start > 0 {
        let mut k: usize = 0;
        while k < cs.len() && cs[k] != '\n'
            invariant
                k <= cs.len(),
                forall|j: int| 0 <= j < k ==> cs@[j] != '\n',
            decreases cs.len() - k,
        {
            k = k + 1;
        }
        proof {
            lemma_newline_pos(cs@, k as int);
        }
        off = if k < cs.len() {
            k + 1
        } else {
            cs.len()
        };
    }
    let ghost content = cs@.skip(off as int);
    assert(content =~= tail_text(chunk@, start));
    let mut out: Vec<Option<String>> = Vec::new();
    let mut cur: Vec<char> = Vec::new();
    let mut j: usize = off;
    assert(content.take(0) =~= Seq::<char>::empty());
    assert(split_newlines(Seq::<char>::empty()).drop_last() =~= Seq::<Seq<char>>::empty());
    while j < cs.len()
        invariant
            off <= j <= cs.len(),
            content == cs@.skip(off as int),
            split_newlines(content.take(j - off)).len() > 0,
            cur@ == split_newlines(content.take(j - off)).last(),
            line_docs(out@) == split_newlines(content.take(j - off)).drop_last().map_values(
                |l: Seq<char>| strip_cr(l),
            ).map_values(|l: Seq<char>| json_text(l)),
        decreases cs.len() - j,
    {
        let c = cs[j];
        let ghost pre = content.take(j - off);
        let ghost post = content.take(j + 1 - off);
        assert(post.drop_last() =~= pre);
        assert(post.last() == c);
        let ghost sp = split_newlines(pre);
        if c == '\n' {
            let mut line: Vec<char> = Vec::new();
            std::mem::swap(&mut line, &mut cur);
            if line.len() > 0 && line[line.len() - 1] == '\r' {
                line.pop();
            }
            assert(line@ == strip_cr(sp.last()));
            let ghost before = line_docs(out@);
            out.push(Some(string_of(&line)));
            proof {
                assert(split_newlines(post) == sp.push(seq![]));
                assert(split_newlines(post).drop_last() =~= sp);
                assert(sp =~= sp.drop_last().push(sp.last()));
                assert(line_docs(out@) =~= before.push(json_text(line@)));
                assert(sp.map_values(|l: Seq<char>| strip_cr(l)) =~= sp.drop_last().map_values(
                    |l: Seq<char>| strip_cr(l),
                ).push(strip_cr(sp.last())));
                assert(line_docs(out@) =~= split_newlines(post).drop_last().map_values(
                    |l: Seq<char>| strip_cr(l),
                ).map_values(|l: Seq<char>| json_text(l)));
            }
        } else {
            cur.push(c);
            proof {
                lemma_split_newlines_nonempty(pre);
                assert(split_newlines(post) == sp.update(sp.len() - 1, sp.last().push(c)));
                assert(split_newlines(post).drop_last() =~= sp.drop_last());
            }
        }
        j = j + 1;
    }
    assert(content.take(cs.len() - off) =~= content);
    let ghost sp = split_newlines(content);
    let ghost body_docs = line_docs(out@);
    if cur.len() > 0 {
        out.push(Some(string_of(&cur)));
        assert(line_docs(out@) =~= body_docs.push(json_text(cur@)));
    }
    assert(line_docs(out@) =~= text_lines(content).map_values(|l: Seq<char>| json_text(l)));
    out
}

/// The most recent messages among the lines of a log's tail, read from byte
/// `start`.
pub fn parse_recent_messages_from_tail(chunk: &str, start: u64) -> (r: Vec<MessageSnippet>)
    ensures
        snippet_views(r@) == keep_last(recent_all(tail_docs(chunk@, start)), DETAIL_RECENT_LIMIT as int),
{
    let lines = tail_lines(chunk, start);
    let r = collect_recent(&lines, lines.len());
    assert(head(lines@, lines.len() as int) == lines@);
    r
}

/// A session with its recent messages.
pub fn load_session_detail(session: &Session, recent_messages: Vec<MessageSnippet>) -> (r: SessionDetail)
    ensures
        r.session == *session,
        r.recent_messages@ == recent_messages@,
{
    SessionDetail { session: session.copied(), recent_messages }
}


// ---------------------------------------------------------------------------
// Laws of the reading
// ---------------------------------------------------------------------------
/// `keep_last(s, n)` keeps the last `n` items of `s` (all of them when there
/// are fewer), in order.
pub proof fn lemma_keep_last_is_the_tail<T>(s: Seq<T>, n: int)
    requires
        n >= 0,
    ensures
        keep_last(s, n).len() == if s.len() <= n {
            s.len() as int
        } else {
            n
        },
        forall|i: int|
            0 <= i < keep_last(s, n).len() ==> #[trigger] keep_last(s, n)[i] == s[s.len() - keep_last(s, n).len()
                + i],
{
}

/// The first line with a value gives it: `first_found` is the value of the
/// earliest line for which `f` gives one, and `None` when no line does.
pub proof fn lemma_first_found_is_earliest<T>(docs: Seq<Option<Json>>, f: spec_fn(Json) -> Option<T>)
    ensures
        first_found(docs, f) is None <==> forall|i: int|
            0 <= i < docs.len() ==> (#[trigger] docs[i] matches Some(v) ==> f(v) is None),
        first_found(docs, f) is Some ==> exists|i: int|
            0 <= i < docs.len() && (#[trigger] docs[i] matches Some(v) && f(v) == first_found(docs, f))
                && forall|j: int| 0 <= j < i ==> (#[trigger] docs[j] matches Some(w) ==> f(w) is None),
    decreases docs.len(),
{
    if docs.len() > 0 {
        let d = docs.drop_last();
        lemma_first_found_is_earliest(d, f);
        assert forall|i: int| 0 <= i < d.len() implies #[trigger] d[i] == docs[i] by {}
        if first_found(d, f) is Some {
            let i = choose|i: int|
                0 <= i < d.len() && (#[trigger] d[i] matches Some(v) && f(v) == first_found(d, f)) && forall|j: int|
                    0 <= j < i ==> (#[trigger] d[j] matches Some(w) ==> f(w) is None);
            assert(docs[i] == d[i]);
            assert forall|j: int| 0 <= j < i implies (#[trigger] docs[j] matches Some(w) ==> f(w) is None) by {
                assert(docs[j] == d[j]);
            }
        } else {
            assert forall|j: int| 0 <= j < d.len() implies (#[trigger] docs[j] matches Some(w) ==> f(w) is None) by {
                assert(docs[j] == d[j]);
            }
            if first_found(docs, f) is Some {
                let i = docs.len() - 1;
                assert(docs[i] == docs.last());
            }
            if first_found(docs, f) is None {
                assert forall|j: int| 0 <= j < docs.len() implies (#[trigger] docs[j] matches Some(w) ==> f(w) is None) by {
                    if j < d.len() {
                        assert(docs[j] == d[j]);
                    }
                }
            }
        }
    }
}

/// The last line with a value gives it: `last_found` is the value of the
/// latest line for which `f` gives one, and `None` when no line does.
pub proof fn lemma_last_found_is_latest<T>(docs: Seq<Option<Json>>, f: spec_fn(Json) -> Option<T>)
    ensures
        last_found(docs, f) is None <==> forall|i: int|
            0 <= i < docs.len() ==> (#[trigger] docs[i] matches Some(v) ==> f(v) is None),
        last_found(docs, f) is Some ==> exists|i: int|
            0 <= i < docs.len() && (#[trigger] docs[i] matches Some(v) && f(v) == last_found(docs, f))
                && forall|j: int| i < j < docs.len() ==> (#[trigger] docs[j] matches Some(w) ==> f(w) is None),
    decreases docs.len(),
{
    if docs.len() > 0 {
        let d = docs.drop_last();
        lemma_last_found_is_latest(d, f);
        let here = match docs.last() {
            Some(v) => f(v),
            None => None,
        };
        if here is Some {
            let i = docs.len() - 1;
            assert(docs[i] == docs.last());
        } else {
            if last_found(d, f) is Some {
                let i = choose|i: int|
                    0 <= i < d.len() && (#[trigger] d[i] matches Some(v) && f(v) == last_found(d, f)) && forall|j: int|
                        i < j < d.len() ==> (#[trigger] d[j] matches Some(w) ==> f(w) is None);
                assert(docs[i] == d[i]);
                assert forall|j: int| i < j < docs.len() implies (#[trigger] docs[j] matches Some(w) ==> f(w) is None) by {
                    if j < d.len() {
                        assert(docs[j] == d[j]);
                    }
                }
            }
            assert forall|j: int| 0 <= j < docs.len() && last_found(d, f) is None implies (#[trigger] docs[j] matches Some(w)
                ==> f(w) is None) by {
                if j < d.len() {
                    assert(docs[j] == d[j]);
                }
            }
            if last_found(docs, f) is None {
                assert forall|j: int| 0 <= j < d.len() implies (#[trigger] d[j] matches Some(w) ==> f(w) is None) by {
                    assert(docs[j] == d[j]);
                }
            }
        }
        if last_found(docs, f) is None {
            assert forall|j: int| 0 <= j < d.len() implies (#[trigger] d[j] matches Some(w) ==> f(w) is None) by {
                assert(docs[j] == d[j]);
            }
        }
    }
}

/// A fallback id is `file:` followed by at most 24 characters.
pub proof fn lemma_fallback_id_shape(path: Seq<char>, stem_ok: bool)
    ensures
        fallback_id(path, stem_ok).len() <= 29,
        fallback_id(path, stem_ok).take(5) == "file:"@,
{
    reveal_strlit("file:");
    let f = fallback_id(path, stem_ok);
    assert(f.take(5) =~= "file:"@);
}

proof fn lemma_digit_value(d: nat)
    requires
        d < 10,
    ensures
        (digit_char(d) as u32) - 48 == d,
        is_digit(digit_char(d)),
{
}

/// Decimal digits read back: the digits of `n` are all ASCII digits and
/// denote `n`.
pub proof fn lemma_decimal_reads_back(n: nat)
    ensures
        all_digits(decimal(n)),
        digits_value(decimal(n)) == n,
    decreases n,
{
    lemma_decimal_len(n);
    if n >= 10 {
        lemma_decimal_reads_back(n / 10);
        let d = decimal(n);
        assert(d.drop_last() =~= decimal(n / 10));
        assert(d.last() == digit_char(n % 10));
        lemma_digit_value(n % 10);
        assert(n == (n / 10) * 10 + n % 10);
        assert(digits_value(d) == digits_value(d.drop_last()) * 10 + ((d.last() as u32) - 48));
        assert(digits_value(d.drop_last()) == n / 10);
        assert forall|i: int| 0 <= i < d.len() implies is_digit(#[trigger] d[i]) by {
            if i < d.len() - 1 {
                assert(d[i] == decimal(n / 10)[i]);
            }
        }
    } else {
        assert(decimal(n) == seq![digit_char(n)]);
        assert(decimal(n).drop_last() =~= Seq::<char>::empty());
        lemma_digit_value(n);
        assert(decimal(n).last() == digit_char(n));
        assert(digits_value(decimal(n)) == digits_value(decimal(n).drop_last()) * 10 + ((decimal(n).last() as u32)
            - 48));
    }
}

} // verus!
