//! The texts the screen shows: list entries, titles, file sizes and the
//! status line. Times arrive already written out, since how they read
//! depends on the local time zone.

use vstd::arithmetic::div_mod::lemma_fundamental_div_mod;
use vstd::prelude::*;

use crate::app::{count_selected, App};
use crate::session::{MessageSnippet, Project, Session, SessionDetail};
use crate::text::{
    concat2, decimal, decimal_string, digit_char, owned, push_decimal, string_of, truncate_display_width,
    truncated,
};

verus! {

/// The two parts of a project list entry: the path cut to 26 columns, and
/// the session count in brackets.
pub fn project_label(project: &Project) -> (r: (String, String))
    ensures
        r.0@ == truncated(project.path@, 26),
        r.1@ == " ("@ + decimal(project.session_count as nat) + ")"@,
{
    let path = truncate_display_width(project.path.as_str(), 26);
    let n = decimal_string(project.session_count as u64);
    let a = concat2(" (", n.as_str());
    (path, concat2(a.as_str(), ")"))
}

/// The title of the session list: `Sessions`, followed by the search when
/// there is one.
pub fn sessions_title(query: &str) -> (r: String)
    ensures
        r@ == if query@.len() == 0 {
            "Sessions"@
        } else {
            "Sessions / "@ + query@
        },
{
    if query.is_empty() {
        owned("Sessions")
    } else {
        concat2("Sessions / ", query)
    }
}

/// The texts of a session list entry.
pub struct SessionItemText {
    /// `[x]` for a marked session, `[ ]` otherwise.
    pub marker: String,
    /// The title cut to 68 columns.
    pub title: String,
    /// The project path cut to 58 columns.
    pub project: String,
    /// The id, update time and size, two spaces apart.
    pub meta: String,
}

/// The texts of a session list entry, given its update time and size
/// written out.
pub fn session_item_text(session: &Session, updated: &str, size: &str) -> (r: SessionItemText)
    ensures
        r.marker@ == if session.selected {
            "[x]"@
        } else {
            "[ ]"@
        },
        r.title@ == truncated(session.title@, 68),
        r.project@ == truncated(session.project_path@, 58),
        r.meta@ == session.id@ + "  "@ + updated@ + "  "@ + size@,
{
    let marker = if session.selected {
        owned("[x]")
    } else {
        owned("[ ]")
    };
    let a = concat2(session.id.as_str(), "  ");
    let b = concat2(a.as_str(), updated);
    let c = concat2(b.as_str(), "  ");
    SessionItemText {
        marker,
        title: truncate_display_width(session.title.as_str(), 68),
        project: truncate_display_width(session.project_path.as_str(), 58),
        meta: concat2(c.as_str(), size),
    }
}

/// The heading of a recent message in the detail view: its role in brackets
/// and its time written out.
pub fn message_heading(role: &str, time: &str) -> (r: String)
    ensures
        r@ == "["@ + role@ + "] "@ + time@,
{
    let a = concat2("[", role);
    let b = concat2(a.as_str(), "] ");
    concat2(b.as_str(), time)
}

impl App {
    /// The variable parts of the status line: the search being typed or the
    /// status; the number of warnings, when there are any; the number of
    /// marked sessions, when there are any.
    pub fn status_parts(&self) -> (r: (String, String, String))
        ensures
            r.0@ == if self.search_mode {
                "Search: "@ + self.search_query@
            } else {
                self.status@
            },
            r.1@ == if self.warnings@.len() == 0 {
                Seq::<char>::empty()
            } else {
                " | warnings: "@ + decimal(self.warnings@.len())
            },
            r.2@ == if count_selected(self.sessions@) == 0 {
                Seq::<char>::empty()
            } else {
                " | selected: "@ + decimal(count_selected(self.sessions@))
            },
    {
        let left = if self.search_mode {
            concat2("Search: ", self.search_query.as_str())
        } else {
            self.status.clone()
        };
        let warnings = if self.warnings.len() == 0 {
            String::new()
        } else {
            let n = decimal_string(self.warnings.len() as u64);
            concat2(" | warnings: ", n.as_str())
        };
        let marked = self.selected_count();
        let selected = if marked == 0 {
            String::new()
        } else {
            let n = decimal_string(marked as u64);
            concat2(" | selected: ", n.as_str())
        };
        (left, warnings, selected)
    }
}


// ---------------------------------------------------------------------------
// File sizes
// ---------------------------------------------------------------------------
/// `a / b` rounded to the nearest integer, ties to the even one.
pub open spec fn round_half_even(a: nat, b: nat) -> nat {
    let q = a / b;
    let r = a % b;
    if 2 * r > b || (2 * r == b && q % 2 == 1) {
        q + 1
    } else {
        q
    }
}

/// The distance between neighbouring `f64` values around `n`, for `n` below
/// 2^64: 1 below 2^53, doubling at each further power of two.
pub open spec fn double_spacing(n: nat) -> nat {
    if n < 0x20_0000_0000_0000 {
        1
    } else if n < 0x40_0000_0000_0000 {
        2
    } else if n < 0x80_0000_0000_0000 {
        4
    } else if n < 0x100_0000_0000_0000 {
        8
    } else if n < 0x200_0000_0000_0000 {
        16
    } else if n < 0x400_0000_0000_0000 {
        32
    } else if n < 0x800_0000_0000_0000 {
        64
    } else if n < 0x1000_0000_0000_0000 {
        128
    } else if n < 0x2000_0000_0000_0000 {
        256
    } else if n < 0x4000_0000_0000_0000 {
        512
    } else if n < 0x8000_0000_0000_0000 {
        1024
    } else {
        2048
    }
}

/// The value of `n as f64`: `n` rounded to the nearest `f64`, ties to even.
pub open spec fn as_double(n: nat) -> nat {
    round_half_even(n, double_spacing(n)) * double_spacing(n)
}

/// `v / unit` written with one decimal, rounded as `{:.1}` rounds the exact
/// quotient: to the nearest tenth, ties to an even last digit.
pub open spec fn one_decimal(v: nat, unit: nat) -> Seq<char> {
    let t = round_half_even(v * 10, unit);
    decimal(t / 10) + seq!['.', digit_char(t % 10)]
}

/// How a file size is shown: bytes below 1 KiB, else KiB below 1 MiB, else
/// MiB, the last two with one decimal.
pub open spec fn size_text(size: nat) -> Seq<char> {
    if size < 1024 {
        decimal(size) + " B"@
    } else if size < 1048576 {
        one_decimal(size, 1024) + " KB"@
    } else {
        one_decimal(as_double(size), 1048576) + " MB"@
    }
}

fn rounded_quotient(a: u128, b: u128) -> (r: u128)
    requires
        0 < b <= 0x1_0000_0000,
        a < 0x1_0000_0000_0000_0000_0000,
    ensures
        r == round_half_even(a as nat, b as nat),
        r <= a / b + 1,
{
    let q = a / b;
    let r = a % b;
    if 2 * r > b || (2 * r == b && q % 2 == 1) {
        q + 1
    } else {
        q
    }
}

fn spacing_of(n: u64) -> (r: u128)
    ensures
        r == double_spacing(n as nat),
        1 <= r <= 2048,
{
    if n < 0x20_0000_0000_0000 {
        1
    } else if n < 0x40_0000_0000_0000 {
        2
    } else if n < 0x80_0000_0000_0000 {
        4
    } else if n < 0x100_0000_0000_0000 {
        8
    } else if n < 0x200_0000_0000_0000 {
        16
    } else if n < 0x400_0000_0000_0000 {
        32
    } else if n < 0x800_0000_0000_0000 {
        64
    } else if n < 0x1000_0000_0000_0000 {
        128
    } else if n < 0x2000_0000_0000_0000 {
        256
    } else if n < 0x4000_0000_0000_0000 {
        512
    } else if n < 0x8000_0000_0000_0000 {
        1024
    } else {
        2048
    }
}

/// Appends `v / unit` written with one decimal.
fn push_one_decimal(v: u128, unit: u128, out: &mut Vec<char>)
    requires
        1024 <= unit <= 1048576,
        v <= 0x1_0000_0000_0000_0800,
    ensures
        final(out)@ == old(out)@ + one_decimal(v as nat, unit as nat),
{
    let t = rounded_quotient(v * 10, unit);
    assert(t <= 0x4000_0000_0000_0000) by {
        let w: int = v * 10;
        let un: int = unit as int;
        assert(w / un <= w / 1024) by (nonlinear_arith)
            requires
                un >= 1024,
                w >= 0,
        ;
    }
    let whole = (t / 10) as u64;
    let digit = (t % 10) as u64;
    push_decimal(whole, out);
    let mut d: Vec<char> = Vec::new();
    push_decimal(digit, &mut d);
    assert(d@ =~= seq![digit_char(digit as nat)]);
    out.push('.');
    out.push(d[0]);
    assert(whole as nat == (t as nat) / 10);
    assert(digit as nat == (t as nat) % 10);
    assert(final(out)@ =~= old(out)@ + one_decimal(v as nat, unit as nat));
}

/// A file size as the lists and the detail show it: `512 B`, `1.5 KB`,
/// `2.0 MB`.
pub fn human_size(size: u64) -> (r: String)
    ensures
        r@ == size_text(size as nat),
{
    let mut out: Vec<char> = Vec::new();
    if size < 1024 {
        push_decimal(size, &mut out);
        out.push(' ');
        out.push('B');
        proof {
            reveal_strlit(" B");
        }
        assert(out@ =~= size_text(size as nat));
    } else if size < 1048576 {
        push_one_decimal(size as u128, 1024, &mut out);
        out.push(' ');
        out.push('K');
        out.push('B');
        proof {
            reveal_strlit(" KB");
        }
        assert(out@ =~= size_text(size as nat));
    } else {
        let spacing = spacing_of(size);
        let q = rounded_quotient(size as u128, spacing);
        assert(q * spacing <= 0x1_0000_0000_0000_0800) by {
            let x: int = size as int;
            let s: int = spacing as int;
            lemma_fundamental_div_mod(x, s);
            assert(q * s <= x + s) by (nonlinear_arith)
                requires
                    q as int <= x / s + 1,
                    x == s * (x / s) + (x % s),
                    x % s >= 0,
                    s >= 1,
            ;
        }
        push_one_decimal(q * spacing, 1048576, &mut out);
        out.push(' ');
        out.push('M');
        out.push('B');
        proof {
            reveal_strlit(" MB");
        }
        assert(out@ =~= size_text(size as nat));
    }
    string_of(&out)
}


/// The label and text of one line of the detail's metadata.
pub open spec fn field_is(f: (String, String), label: Seq<char>, text: Seq<char>) -> bool {
    f.0@ == label && f.1@ == text
}

/// The metadata lines of the detail view, in order: id, title, project,
/// created and updated times (given written out), file and size.
pub fn detail_fields(detail: &SessionDetail, created: &str, updated: &str) -> (r: Vec<(String, String)>)
    ensures
        r@.len() == 7,
        field_is(r@[0], "Session ID: "@, detail.session.id@),
        field_is(r@[1], "Title: "@, detail.session.title@),
        field_is(r@[2], "Project: "@, detail.session.project_path@),
        field_is(r@[3], "Created: "@, created@),
        field_is(r@[4], "Updated: "@, updated@),
        field_is(r@[5], "File: "@, detail.session.file_path@),
        field_is(r@[6], "Size: "@, size_text(detail.session.size as nat)),
{
    let s = &detail.session;
    let mut r: Vec<(String, String)> = Vec::new();
    r.push((owned("Session ID: "), owned(s.id.as_str())));
    r.push((owned("Title: "), owned(s.title.as_str())));
    r.push((owned("Project: "), owned(s.project_path.as_str())));
    r.push((owned("Created: "), owned(created)));
    r.push((owned("Updated: "), owned(updated)));
    r.push((owned("File: "), owned(s.file_path.as_str())));
    r.push((owned("Size: "), human_size(s.size)));
    r
}


// ---------------------------------------------------------------------------
// Fixed texts and the detail's message section
// ---------------------------------------------------------------------------
/// The key reminder at the end of the status line.
pub fn status_hint() -> (r: String)
    ensures
        r@ == " | tab focus | / search | enter detail | d delete | D delete selected | ? help | q quit"@,
{
    owned(" | tab focus | / search | enter detail | d delete | D delete selected | ? help | q quit")
}

/// The key reminder at the foot of the detail view.
pub fn detail_hint() -> (r: String)
    ensures
        r@ == "esc close | d delete"@,
{
    owned("esc close | d delete")
}

/// Whether the three lines from `3 * j` in `r` show message `j`: its heading
/// (role and the written-out time), its text, and an empty line.
pub open spec fn shows_message(r: Seq<String>, messages: Seq<MessageSnippet>, times: Seq<String>, j: int) -> bool {
    &&& r[3 * j]@ == "["@ + messages[j].role@ + "] "@ + times[j]@
    &&& r[3 * j + 1]@ == messages[j].text@
    &&& r[3 * j + 2]@ == Seq::<char>::empty()
}

/// The message section of the detail view, one text per line: a note when
/// there is no message; else, for each message, its heading (role and the
/// time given written out in `times`), its text, and an empty line.
pub fn message_lines(messages: &Vec<MessageSnippet>, times: &Vec<String>) -> (r: Vec<String>)
    requires
        times@.len() == messages@.len(),
    ensures
        messages@.len() == 0 ==> r@.len() == 1 && r@[0]@ == "No recent user/assistant messages parsed."@,
        messages@.len() > 0 ==> r@.len() == 3 * messages@.len() && forall|i: int|
            0 <= i < messages@.len() ==> #[trigger] shows_message(r@, messages@, times@, i),
{
    let mut r: Vec<String> = Vec::new();
    if messages.len() == 0 {
        r.push(owned("No recent user/assistant messages parsed."));
        return r;
    }
    let mut i: usize = 0;
    while i < messages.len()
        invariant
            i <= messages@.len(),
            times@.len() == messages@.len(),
            r@.len() == 3 * i,
            forall|j: int| 0 <= j < i ==> #[trigger] shows_message(r@, messages@, times@, j),
        decreases messages@.len() - i,
    {
        let ghost before = r@;
        let m = &messages[i];
        let heading = message_heading(m.role.as_str(), times[i].as_str());
        let text = owned(m.text.as_str());
        let blank = String::new();
        r.push(heading);
        r.push(text);
        r.push(blank);
        assert forall|j: int| 0 <= j < i + 1 implies #[trigger] shows_message(r@, messages@, times@, j) by {
            if j < i {
                assert(shows_message(before, messages@, times@, j));
                assert(r@[3 * j] == before[3 * j]);
                assert(r@[3 * j + 1] == before[3 * j + 1]);
                assert(r@[3 * j + 2] == before[3 * j + 2]);
            }
        }
        i = i + 1;
    }
    r
}

} // verus!
