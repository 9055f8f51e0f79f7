//! Character-level text helpers: whitespace collapsing, trimming, substring
//! search, lower-casing, display-width truncation and decimal rendering.

use vstd::prelude::*;

verus! {

/// The characters of `s`, in order.
pub fn chars_of(s: &str) -> (r: Vec<char>)
    ensures
        r@ == s@,
{
    let mut r: Vec<char> = Vec::new();
    for c in it: s.chars()
        invariant
            r@ == it.seq().take(it.index() as int),
            it.seq() == s@,
    {
        r.push(c);
    }
    r
}

/// Collects characters into a `String` (std's `FromIterator<&char>` for
/// `String`); the string holds exactly those characters, in order.
#[verifier::external_body]
pub(crate) fn string_of(chars: &Vec<char>) -> (r: String)
    ensures
        r@ == chars@,
{
    chars.iter().collect()
}

/// A `String` holding the characters of `s`.
pub fn owned(s: &str) -> (r: String)
    ensures
        r@ == s@,
{
    let v = chars_of(s);
    string_of(&v)
}

/// Concatenation of two strings.
pub fn concat2(a: &str, b: &str) -> (r: String)
    ensures
        r@ == a@ + b@,
{
    let mut v = chars_of(a);
    let mut w = chars_of(b);
    v.append(&mut w);
    string_of(&v)
}

/// Whether two texts hold the same characters.
pub fn same_text(a: &str, b: &str) -> (r: bool)
    ensures
        r == (a@ == b@),
{
    let x = chars_of(a);
    let y = chars_of(b);
    if x.len() != y.len() {
        return false;
    }
    let mut i: usize = 0;
    while i < x.len()
        invariant
            x@ == a@,
            y@ == b@,
            x.len() == y.len(),
            i <= x.len(),
            x@.take(i as int) == y@.take(i as int),
        decreases x.len() - i,
    {
        if x[i] != y[i] {
            assert(x@[i as int] != y@[i as int]);
            return false;
        }
        assert(x@.take(i + 1) =~= x@.take(i as int).push(x@[i as int]));
        assert(y@.take(i + 1) =~= y@.take(i as int).push(y@[i as int]));
        i = i + 1;
    }
    assert(x@.take(x.len() as int) =~= x@);
    assert(y@.take(y.len() as int) =~= y@);
    true
}

// ---------------------------------------------------------------------------
// Whitespace
// ---------------------------------------------------------------------------
/// The characters with the Unicode `White_Space` property: the characters for
/// which `char::is_whitespace` holds.
pub open spec fn is_space(c: char) -> bool {
    let n = c as u32;
    ||| 9 <= n <= 13
    ||| n == 32
    ||| n == 0x85
    ||| n == 0xA0
    ||| n == 0x1680
    ||| 0x2000 <= n <= 0x200A
    ||| n == 0x2028
    ||| n == 0x2029
    ||| n == 0x202F
    ||| n == 0x205F
    ||| n == 0x3000
}

/// Whether `c` is a Unicode whitespace character.
pub fn is_space_char(c: char) -> (b: bool)
    ensures
        b == is_space(c),
{
    let n = c as u32;
    (9 <= n && n <= 13) || n == 32 || n == 0x85 || n == 0xA0 || n == 0x1680 || (0x2000 <= n && n
        <= 0x200A) || n == 0x2028 || n == 0x2029 || n == 0x202F || n == 0x205F || n == 0x3000
}

/// The words of `s`: its maximal runs of non-whitespace characters, in order.
pub open spec fn words(s: Seq<char>) -> Seq<Seq<char>>
    decreases s.len(),
{
    if s.len() == 0 {
        seq![]
    } else {
        let w = words(s.drop_last());
        let c = s.last();
        if is_space(c) {
            w
        } else if s.len() == 1 || is_space(s[s.len() - 2]) {
            w.push(seq![c])
        } else {
            w.update(w.len() - 1, w.last().push(c))
        }
    }
}

/// Words joined by single spaces.
pub open spec fn join_words(ws: Seq<Seq<char>>) -> Seq<char>
    decreases ws.len(),
{
    if ws.len() == 0 {
        seq![]
    } else if ws.len() == 1 {
        ws[0]
    } else {
        join_words(ws.drop_last()) + seq![' '] + ws.last()
    }
}

/// `s` with every whitespace run collapsed to one space and no whitespace at
/// either end; `None` when nothing but whitespace is left.
pub open spec fn cleaned(s: Seq<char>) -> Option<Seq<char>> {
    if words(s).len() == 0 {
        None
    } else {
        Some(join_words(words(s)))
    }
}

proof fn lemma_words_last_nonempty(s: Seq<char>)
    requires
        s.len() > 0,
        !is_space(s.last()),
    ensures
        words(s).len() > 0,
    decreases s.len(),
{
    if s.len() > 1 && !is_space(s[s.len() - 2]) {
        let d = s.drop_last();
        assert(d.last() == s[s.len() - 2]);
        lemma_words_last_nonempty(d);
    }
}

proof fn lemma_join_extend_last(ws: Seq<Seq<char>>, c: char)
    requires
        ws.len() > 0,
    ensures
        join_words(ws.update(ws.len() - 1, ws.last().push(c))) == join_words(ws).push(c),
{
    let u = ws.update(ws.len() - 1, ws.last().push(c));
    if ws.len() > 1 {
        assert(u.drop_last() =~= ws.drop_last());
        assert(join_words(u) =~= join_words(ws).push(c));
    }
}

proof fn lemma_join_push(ws: Seq<Seq<char>>, w: Seq<char>)
    ensures
        join_words(ws.push(w)) == if ws.len() == 0 {
            w
        } else {
            join_words(ws) + seq![' '] + w
        },
{
    assert(ws.push(w).drop_last() =~= ws);
}

/// A word: a non-empty run of characters none of which is whitespace.
pub open spec fn is_word(w: Seq<char>) -> bool {
    w.len() > 0 && forall|j: int| 0 <= j < w.len() ==> !is_space(#[trigger] w[j])
}

proof fn lemma_words_are_words(s: Seq<char>)
    ensures
        forall|i: int| 0 <= i < words(s).len() ==> is_word(#[trigger] words(s)[i]),
    decreases s.len(),
{
    if s.len() > 0 {
        let d = s.drop_last();
        lemma_words_are_words(d);
        let w = words(d);
        let c = s.last();
        if !is_space(c) && !(s.len() == 1 || is_space(s[s.len() - 2])) {
            assert(d.last() == s[s.len() - 2]);
            lemma_words_last_nonempty(d);
            let nw = w.last().push(c);
            assert(is_word(w[w.len() - 1]));
            assert forall|j: int| 0 <= j < nw.len() implies !is_space(#[trigger] nw[j]) by {
                if j < nw.len() - 1 {
                    assert(nw[j] == w[w.len() - 1][j]);
                }
            }
        }
    }
}

proof fn lemma_words_of_word(p: Seq<char>, w: Seq<char>)
    requires
        is_word(w),
    ensures
        words(w) == seq![w],
        words(p + seq![' '] + w) == words(p).push(w),
    decreases w.len(),
{
    let q = p + seq![' '];
    assert(q.drop_last() =~= p);
    assert(q.last() == ' ');
    assert(words(q) == words(p));
    if w.len() == 1 {
        assert(w.drop_last() =~= seq![]);
        assert(words(w.drop_last()) =~= seq![]);
        assert(w =~= seq![w[0]]);
        assert(words(w) =~= seq![w]);
        assert((q + w).drop_last() =~= q);
        assert((q + w).last() == w[0]);
        assert((q + w)[(q + w).len() - 2] == ' ');
        assert(words(q + w) =~= words(q).push(seq![w[0]]));
        assert(p + seq![' '] + w == q + w);
    } else {
        let v = w.drop_last();
        let c = w.last();
        assert(is_space(c) == false);
        assert forall|j: int| 0 <= j < v.len() implies !is_space(#[trigger] v[j]) by {
            assert(v[j] == w[j]);
        }
        lemma_words_of_word(p, v);
        assert(w[w.len() - 2] == v.last());
        assert((q + w).drop_last() =~= q + v);
        assert((q + w)[(q + w).len() - 2] == v.last());
        assert(v.push(c) =~= w);
        assert(words(w) =~= seq![w]);
        assert(words(q + w) =~= words(p).push(w));
        assert(p + seq![' '] + w == q + w);
    }
}

proof fn lemma_words_of_joined(ws: Seq<Seq<char>>)
    requires
        forall|i: int| 0 <= i < ws.len() ==> is_word(#[trigger] ws[i]),
    ensures
        words(join_words(ws)) == ws,
    decreases ws.len(),
{
    if ws.len() == 0 {
        assert(words(seq![]) =~= ws);
    } else if ws.len() == 1 {
        lemma_words_of_word(seq![], ws[0]);
        assert(ws =~= seq![ws[0]]);
    } else {
        let d = ws.drop_last();
        assert(is_word(ws[ws.len() - 1]));
        lemma_words_of_joined(d);
        lemma_words_of_word(join_words(d), ws.last());
        assert(d.push(ws.last()) =~= ws);
    }
}

/// Whether `t` is cleaned text: not empty, no whitespace at either end, and
/// every whitespace character a single space followed by a non-whitespace
/// character.
pub open spec fn is_clean(t: Seq<char>) -> bool {
    &&& t.len() > 0
    &&& !is_space(t[0])
    &&& !is_space(t.last())
    &&& forall|i: int|
        0 <= i < t.len() && is_space(#[trigger] t[i]) ==> t[i] == ' ' && i + 1 < t.len() && !is_space(t[i + 1])
}

proof fn lemma_joined_is_clean(ws: Seq<Seq<char>>)
    requires
        ws.len() > 0,
        forall|i: int| 0 <= i < ws.len() ==> is_word(#[trigger] ws[i]),
    ensures
        is_clean(join_words(ws)),
    decreases ws.len(),
{
    if ws.len() == 1 {
        assert(is_word(ws[0]));
    } else {
        let d = ws.drop_last();
        assert forall|i: int| 0 <= i < d.len() implies is_word(#[trigger] d[i]) by {
            assert(d[i] == ws[i]);
        }
        lemma_joined_is_clean(d);
        let a = join_words(d);
        let w = ws.last();
        assert(is_word(ws[ws.len() - 1]));
        let j = join_words(ws);
        assert(j == a + seq![' '] + w);
        assert(j[0] == a[0]);
        assert(j.last() == w.last());
        assert forall|i: int| 0 <= i < j.len() && is_space(#[trigger] j[i]) implies j[i] == ' ' && i + 1 < j.len()
            && !is_space(j[i + 1]) by {
            if i < a.len() {
                assert(j[i] == a[i]);
                assert(i + 1 < a.len());
                assert(j[i + 1] == a[i + 1]);
            } else if i == a.len() {
                assert(j[i + 1] == w[0]);
            } else {
                assert(j[i] == w[i - a.len() - 1]);
            }
        }
    }
}

/// Cleaned text has no whitespace at either end and no whitespace other than
/// single spaces between words; it is `None` exactly when the text has no
/// word.
pub proof fn lemma_cleaned_shape(s: Seq<char>)
    ensures
        cleaned(s) is None <==> words(s).len() == 0,
        cleaned(s) matches Some(t) ==> is_clean(t),
{
    if words(s).len() > 0 {
        lemma_words_are_words(s);
        lemma_joined_is_clean(words(s));
    }
}

/// Cleaning is done once and for all: cleaning a cleaned text gives it back.
pub proof fn lemma_cleaning_twice_changes_nothing(s: Seq<char>)
    ensures
        cleaned(s) matches Some(t) ==> cleaned(t) == Some(t),
{
    if words(s).len() > 0 {
        lemma_words_are_words(s);
        lemma_words_of_joined(words(s));
    }
}

/// Collapses whitespace runs to single spaces and trims both ends; `None` when
/// the text is blank.
pub fn clean_text(text: &str) -> (r: Option<String>)
    ensures
        r matches Some(t) ==> cleaned(text@) == Some(t@),
        r is None ==> cleaned(text@) is None,
{
    let cs = chars_of(text);
    let mut out: Vec<char> = Vec::new();
    let mut in_word = false;
    let mut has_word = false;
    let mut i: usize = 0;
    while i < cs.len()
        invariant
            cs@ == text@,
            i <= cs.len(),
            out@ == join_words(words(cs@.take(i as int))),
            in_word == (i > 0 && !is_space(cs@[i - 1])),
            has_word == (words(cs@.take(i as int)).len() > 0),
        decreases cs.len() - i,
    {
        let c = cs[i];
        let ghost pre = cs@.take(i as int);
        let ghost post = cs@.take(i + 1);
        assert(post.drop_last() =~= pre);
        assert(post.last() == c);
        if is_space_char(c) {
            in_word = false;
        } else if in_word {
            proof {
                assert(post[post.len() - 2] == cs@[i - 1]);
                lemma_words_last_nonempty(pre);
                lemma_join_extend_last(words(pre), c);
            }
            out.push(c);
        } else {
            proof {
                if i > 0 {
                    assert(post[post.len() - 2] == cs@[i - 1]);
                }
                lemma_join_push(words(pre), seq![c]);
            }
            if has_word {
                out.push(' ');
            }
            out.push(c);
            assert(out@ =~= join_words(words(post)));
            in_word = true;
            has_word = true;
        }
        i = i + 1;
    }
    assert(cs@.take(cs.len() as int) =~= cs@);
    if has_word {
        Some(string_of(&out))
    } else {
        None
    }
}

/// `s` without leading whitespace.
pub open spec fn trim_front(s: Seq<char>) -> Seq<char>
    decreases s.len(),
{
    if s.len() > 0 && is_space(s[0]) {
        trim_front(s.drop_first())
    } else {
        s
    }
}

/// `s` without trailing whitespace.
pub open spec fn trim_back(s: Seq<char>) -> Seq<char>
    decreases s.len(),
{
    if s.len() > 0 && is_space(s.last()) {
        trim_back(s.drop_last())
    } else {
        s
    }
}

/// `s` without whitespace at either end (what `str::trim` leaves).
pub open spec fn trimmed(s: Seq<char>) -> Seq<char> {
    trim_back(trim_front(s))
}

/// Trimming drops exactly the whitespace at the ends: what is left is a
/// run of `s` that neither starts nor ends with whitespace (or is empty),
/// and everything before and after it is whitespace.
pub proof fn lemma_trimmed_shape(s: Seq<char>)
    ensures
        exists|a: int, b: int|
            0 <= a <= b <= s.len() && #[trigger] s.subrange(a, b) == trimmed(s) && (forall|i: int|
                0 <= i < a ==> is_space(#[trigger] s[i])) && (forall|i: int|
                b <= i < s.len() ==> is_space(#[trigger] s[i])),
        trimmed(s).len() > 0 ==> !is_space(trimmed(s)[0]) && !is_space(trimmed(s).last()),
{
    let (a, f) = lemma_trim_front_shape(s);
    let b = lemma_trim_back_shape(f);
    assert(s.subrange(a, a + b) =~= f.take(b));
    assert forall|i: int| a + b <= i < s.len() implies is_space(#[trigger] s[i]) by {
        assert(s[i] == f[i - a]);
    }
    if trimmed(s).len() > 0 {
        assert(trimmed(s)[0] == f[0]);
    }
}

proof fn lemma_trim_front_shape(s: Seq<char>) -> (r: (int, Seq<char>))
    ensures
        0 <= r.0 <= s.len(),
        r.1 == trim_front(s),
        r.1 =~= s.skip(r.0),
        forall|i: int| 0 <= i < r.0 ==> is_space(#[trigger] s[i]),
        r.1.len() > 0 ==> !is_space(r.1[0]),
    decreases s.len(),
{
    if s.len() > 0 && is_space(s[0]) {
        let (a, f) = lemma_trim_front_shape(s.drop_first());
        assert forall|i: int| 0 <= i < a + 1 implies is_space(#[trigger] s[i]) by {
            if i > 0 {
                assert(s[i] == s.drop_first()[i - 1]);
            }
        }
        (a + 1, f)
    } else {
        (0, s)
    }
}

proof fn lemma_trim_back_shape(s: Seq<char>) -> (b: int)
    ensures
        0 <= b <= s.len(),
        trim_back(s) =~= s.take(b),
        forall|i: int| b <= i < s.len() ==> is_space(#[trigger] s[i]),
        b > 0 ==> !is_space(s[b - 1]),
    decreases s.len(),
{
    if s.len() > 0 && is_space(s.last()) {
        let b = lemma_trim_back_shape(s.drop_last());
        assert forall|i: int| b <= i < s.len() implies is_space(#[trigger] s[i]) by {
            if i < s.len() - 1 {
                assert(s[i] == s.drop_last()[i]);
            }
        }
        assert(s.drop_last().take(b) =~= s.take(b));
        b
    } else {
        s.len() as int
    }
}

/// Removes leading and trailing whitespace.
pub fn trim(text: &str) -> (r: String)
    ensures
        r@ == trimmed(text@),
{
    let cs = chars_of(text);
    let mut a: usize = 0;
    assert(cs@.skip(0) =~= cs@);
    while a < cs.len() && is_space_char(cs[a])
        invariant
            cs@ == text@,
            a <= cs.len(),
            trim_front(cs@) == trim_front(cs@.skip(a as int)),
        decreases cs.len() - a,
    {
        assert(cs@.skip(a as int).drop_first() =~= cs@.skip(a + 1));
        a = a + 1;
    }
    assert(cs@.skip(0) =~= cs@);
    let ghost front = cs@.skip(a as int);
    assert(trim_front(cs@) == front);
    let mut b: usize = cs.len();
    while b > a && is_space_char(cs[b - 1])
        invariant
            cs@ == text@,
            a <= b <= cs.len(),
            front == cs@.skip(a as int),
            trim_back(front) == trim_back(cs@.subrange(a as int, b as int)),
        decreases b,
    {
        assert(cs@.subrange(a as int, b as int).drop_last() =~= cs@.subrange(a as int, b - 1));
        b = b - 1;
    }
    assert(front =~= cs@.subrange(a as int, cs.len() as int));
    let mut out: Vec<char> = Vec::new();
    let mut k: usize = a;
    while k < b
        invariant
            a <= k <= b <= cs.len(),
            out@ == cs@.subrange(a as int, k as int),
        decreases b - k,
    {
        out.push(cs[k]);
        k = k + 1;
        assert(out@ =~= cs@.subrange(a as int, k as int));
    }
    string_of(&out)
}

// ---------------------------------------------------------------------------
// Substrings and case
// ---------------------------------------------------------------------------
/// Whether `needle` occurs in `hay` as a contiguous run.
pub open spec fn has_substring(hay: Seq<char>, needle: Seq<char>) -> bool {
    exists|i: int| 0 <= i <= hay.len() - needle.len() && #[trigger] hay.subrange(i, i + needle.len()) == needle
}

/// Whether `needle` occurs in `hay`.
pub fn contains_chars(hay: &Vec<char>, needle: &Vec<char>) -> (b: bool)
    ensures
        b == has_substring(hay@, needle@),
{
    if needle.len() > hay.len() {
        return false;
    }
    let last = hay.len() - needle.len();
    let mut i: usize = 0;
    while i <= last
        invariant
            last == hay.len() - needle.len(),
            i <= last + 1,
            forall|j: int| 0 <= j < i ==> #[trigger] hay@.subrange(j, j + needle.len()) != needle@,
        decreases last + 1 - i,
    {
        let mut k: usize = 0;
        let mut same = true;
        assert(hay@.subrange(i as int, i as int) =~= needle@.take(0));
        while k < needle.len()
            invariant
                i <= last,
                last == hay.len() - needle.len(),
                k <= needle.len(),
                same == (hay@.subrange(i as int, i + k) == needle@.take(k as int)),
            decreases needle.len() - k,
        {
            if hay[i + k] != needle[k] {
                same = false;
                assert(hay@.subrange(i as int, i + k + 1)[k as int] != needle@.take(k + 1)[k as int]);
            } else if same {
                assert(hay@.subrange(i as int, i + k + 1) =~= needle@.take(k + 1));
            } else {
                assert(hay@.subrange(i as int, i + k + 1).take(k as int) =~= hay@.subrange(
                    i as int,
                    i + k,
                ));
                assert(needle@.take(k + 1).take(k as int) =~= needle@.take(k as int));
            }
            k = k + 1;
        }
        assert(needle@.take(needle.len() as int) =~= needle@);
        if same {
            return true;
        }
        if i == last {
            return false;
        }
        i = i + 1;
    }
    false
}

/// Whether `needle` occurs in `hay`.
pub fn contains_str(hay: &str, needle: &str) -> (b: bool)
    ensures
        b == has_substring(hay@, needle@),
{
    let h = chars_of(hay);
    let n = chars_of(needle);
    contains_chars(&h, &n)
}

/// What `str::to_lowercase` makes of a text: the full Unicode lower-case
/// mapping, character by character, with the context rule for final sigma.
pub uninterp spec fn lowercase(s: Seq<char>) -> Seq<char>;

/// Calls `str::to_lowercase` (std). Its result is a function of the text alone
/// (std's fixed Unicode tables), named here by `lowercase`; every character
/// maps to at least one character, so only the empty text lower-cases to the
/// empty text.
#[verifier::external_body]
pub(crate) fn to_lowercase(s: &str) -> (r: String)
    ensures
        r@ == lowercase(s@),
        (r@.len() == 0) == (s@.len() == 0),
{
    s.to_lowercase()
}

// ---------------------------------------------------------------------------
// Display width
// ---------------------------------------------------------------------------
/// The terminal column width that `unicode_width::UnicodeWidthStr::width`
/// gives a text.
pub uninterp spec fn text_width(s: Seq<char>) -> usize;

/// The column width that `unicode_width::UnicodeWidthChar::width` gives a
/// character; `None` for control characters.
pub uninterp spec fn char_width(c: char) -> Option<usize>;

/// Calls `unicode_width::UnicodeWidthStr::width`; the result is named by
/// `text_width` and depends on the text alone.
#[verifier::external_body]
fn str_display_width(s: &str) -> (r: usize)
    ensures
        r == text_width(s@),
{
    unicode_width::UnicodeWidthStr::width(s)
}

/// Calls `unicode_width::UnicodeWidthChar::width`; the result is named by
/// `char_width` and depends on the character alone.
#[verifier::external_body]
fn char_display_width(c: char) -> (r: Option<usize>)
    ensures
        r == char_width(c),
{
    unicode_width::UnicodeWidthChar::width(c)
}

/// The width a character counts for when truncating: control characters
/// count zero.
pub open spec fn counted_width(c: char) -> nat {
    match char_width(c) {
        Some(w) => w as nat,
        None => 0,
    }
}

/// The summed counted width of the first `k` characters of `s`.
pub open spec fn prefix_width(s: Seq<char>, k: int) -> nat
    decreases k,
{
    if k <= 0 || s.len() == 0 {
        0
    } else if k > s.len() {
        prefix_width(s, s.len() as int)
    } else {
        prefix_width(s, k - 1) + counted_width(s[k - 1])
    }
}

/// The number of leading characters kept when `s` is cut to `max` columns:
/// the longest prefix whose width, plus three columns for the ellipsis, fits.
pub open spec fn cut_len(s: Seq<char>, max: int) -> nat
    decreases s.len(),
{
    if s.len() == 0 {
        0
    } else if prefix_width(s, s.len() as int) + 3 <= max {
        s.len()
    } else {
        cut_len(s.drop_last(), max)
    }
}

/// What `truncate_display_width` makes of `s`: `s` itself when its width fits,
/// else the kept prefix followed by `...`.
pub open spec fn truncated(s: Seq<char>, max: int) -> Seq<char> {
    if text_width(s) <= max {
        s
    } else {
        s.take(cut_len(s, max) as int) + seq!['.', '.', '.']
    }
}

proof fn lemma_prefix_width_take(s: Seq<char>, k: int, j: int)
    requires
        0 <= j <= k <= s.len(),
    ensures
        prefix_width(s.take(k), j) == prefix_width(s, j),
    decreases j,
{
    if j > 0 {
        lemma_prefix_width_take(s, k, j - 1);
    }
}

proof fn lemma_prefix_width_mono(s: Seq<char>, j: int, k: int)
    requires
        0 <= j <= k <= s.len(),
    ensures
        prefix_width(s, j) <= prefix_width(s, k),
    decreases k,
{
    if j < k {
        lemma_prefix_width_mono(s, j, k - 1);
    }
}

/// `cut_len` is the first `k` at which adding the next character would not fit.
proof fn lemma_cut_len(s: Seq<char>, max: int, k: int)
    requires
        0 <= k <= s.len(),
        k == 0 || prefix_width(s, k) + 3 <= max,
        k == s.len() || prefix_width(s, k + 1) + 3 > max,
    ensures
        cut_len(s, max) == k,
    decreases s.len(),
{
    if s.len() > 0 {
        if k == s.len() {
            if k == 0 {
            } else {
            }
        } else {
            lemma_prefix_width_mono(s, k + 1, s.len() as int);
            let d = s.drop_last();
            assert(d =~= s.take(s.len() - 1));
            lemma_prefix_width_take(s, s.len() - 1, k);
            if k + 1 <= d.len() {
                lemma_prefix_width_take(s, s.len() - 1, k + 1);
            }
            lemma_cut_len(d, max, k);
        }
    }
}

/// A cut text fits: when there are at least three columns, the kept
/// characters and the three dots of the ellipsis take at most `max` columns.
pub proof fn lemma_cut_fits(s: Seq<char>, max: int)
    requires
        max >= 3,
    ensures
        cut_len(s, max) <= s.len(),
        prefix_width(s, cut_len(s, max) as int) + 3 <= max,
    decreases s.len(),
{
    if s.len() > 0 && prefix_width(s, s.len() as int) + 3 > max {
        let d = s.drop_last();
        lemma_cut_fits(d, max);
        let k = cut_len(d, max) as int;
        assert(d =~= s.take(s.len() - 1));
        lemma_prefix_width_take(s, s.len() - 1, k);
    }
}

/// A cut keeps as much as fits: one more character, with the three dots,
/// would take more than `max` columns.
pub proof fn lemma_cut_keeps_most(s: Seq<char>, max: int)
    ensures
        cut_len(s, max) <= s.len(),
        cut_len(s, max) < s.len() ==> prefix_width(s, cut_len(s, max) as int + 1) + 3 > max,
    decreases s.len(),
{
    if s.len() > 0 && prefix_width(s, s.len() as int) + 3 > max {
        let d = s.drop_last();
        lemma_cut_keeps_most(d, max);
        let k = cut_len(d, max) as int;
        assert(d =~= s.take(s.len() - 1));
        if k < d.len() {
            lemma_prefix_width_take(s, s.len() - 1, k + 1);
        }
    }
}

/// Cuts `text` to `max_width` terminal columns, ending it with `...` when it
/// had to be cut.
pub fn truncate_display_width(text: &str, max_width: usize) -> (r: String)
    ensures
        r@ == truncated(text@, max_width as int),
{
    if str_display_width(text) <= max_width {
        return owned(text);
    }
    let cs = chars_of(text);
    let mut out: Vec<char> = Vec::new();
    let mut width: usize = 0;
    let mut i: usize = 0;
    while i < cs.len()
        invariant_except_break
            cs@ == text@,
            i <= cs.len(),
            width == prefix_width(cs@, i as int),
            i == 0 || width + 3 <= max_width,
            out@ == cs@.take(i as int),
        ensures
            cs@ == text@,
            i <= cs.len(),
            i == 0 || prefix_width(cs@, i as int) + 3 <= max_width,
            i == cs.len() || prefix_width(cs@, i + 1) + 3 > max_width,
            out@ == cs@.take(i as int),
        decreases cs.len() - i,
    {
        let w: usize = match char_display_width(cs[i]) {
            Some(w) => w,
            None => 0,
        };
        if (width as u128) + (w as u128) + 3 > max_width as u128 {
            break;
        }
        out.push(cs[i]);
        width = width + w;
        i = i + 1;
        assert(out@ =~= cs@.take(i as int));
    }
    proof {
        lemma_cut_len(cs@, max_width as int, i as int);
    }
    out.push('.');
    out.push('.');
    out.push('.');
    assert(out@ =~= cs@.take(i as int) + seq!['.', '.', '.']);
    string_of(&out)
}

// ---------------------------------------------------------------------------
// Decimal numbers
// ---------------------------------------------------------------------------
/// The ASCII digit for `d` (0 to 9).
pub open spec fn digit_char(d: nat) -> char {
    if d == 0 {
        '0'
    } else if d == 1 {
        '1'
    } else if d == 2 {
        '2'
    } else if d == 3 {
        '3'
    } else if d == 4 {
        '4'
    } else if d == 5 {
        '5'
    } else if d == 6 {
        '6'
    } else if d == 7 {
        '7'
    } else if d == 8 {
        '8'
    } else {
        '9'
    }
}

/// The decimal digits of `n`, most significant first, without leading zeros.
pub open spec fn decimal(n: nat) -> Seq<char>
    decreases n,
{
    if n < 10 {
        seq![digit_char(n)]
    } else {
        decimal(n / 10).push(digit_char(n % 10))
    }
}

/// `decimal(n)` has one digit exactly when `n` is below ten.
pub proof fn lemma_decimal_len(n: nat)
    ensures
        decimal(n).len() >= 1,
        (decimal(n).len() == 1) == (n < 10),
        decimal(n).len() <= n + 1,
    decreases n,
{
    if n >= 10 {
        lemma_decimal_len(n / 10);
    }
}

proof fn lemma_digit_char_injective(x: nat, y: nat)
    requires
        x < 10,
        y < 10,
        digit_char(x) == digit_char(y),
    ensures
        x == y,
{
}

/// The last character of `decimal(n)` is the digit of `n % 10`.
pub proof fn lemma_decimal_last(n: nat)
    ensures
        decimal(n).last() == digit_char(n % 10),
        '0' <= decimal(n).last() <= '9',
{
}

/// Different numbers have different decimal renderings.
pub proof fn lemma_decimal_injective(a: nat, b: nat)
    requires
        decimal(a) == decimal(b),
    ensures
        a == b,
    decreases a,
{
    lemma_decimal_len(a);
    lemma_decimal_len(b);
    if a >= 10 && b >= 10 {
        let da = decimal(a);
        assert(da.last() == digit_char(a % 10));
        assert(decimal(b).last() == digit_char(b % 10));
        assert(da.drop_last() =~= decimal(a / 10));
        assert(decimal(b).drop_last() =~= decimal(b / 10));
        lemma_decimal_injective(a / 10, b / 10);
        lemma_digit_char_injective(a % 10, b % 10);
        assert(a == 10 * (a / 10) + a % 10);
        assert(b == 10 * (b / 10) + b % 10);
    } else if a < 10 && b < 10 {
        assert(decimal(a) == seq![digit_char(a)]);
        assert(decimal(b) == seq![digit_char(b)]);
        assert(decimal(a)[0] == digit_char(a));
        assert(decimal(b)[0] == digit_char(b));
        lemma_digit_char_injective(a, b);
    }
}

fn digit_of(d: u64) -> (c: char)
    requires
        d < 10,
    ensures
        c == digit_char(d as nat),
{
    if d == 0 {
        '0'
    } else if d == 1 {
        '1'
    } else if d == 2 {
        '2'
    } else if d == 3 {
        '3'
    } else if d == 4 {
        '4'
    } else if d == 5 {
        '5'
    } else if d == 6 {
        '6'
    } else if d == 7 {
        '7'
    } else if d == 8 {
        '8'
    } else {
        '9'
    }
}

/// Appends the decimal digits of `n` to `out`.
pub fn push_decimal(n: u64, out: &mut Vec<char>)
    ensures
        final(out)@ == old(out)@ + decimal(n as nat),
    decreases n,
{
    if n >= 10 {
        push_decimal(n / 10, out);
    }
    out.push(digit_of(n % 10));
    assert(final(out)@ =~= old(out)@ + decimal(n as nat)) by {
        if n >= 10 {
            assert(decimal(n as nat) == decimal((n / 10) as nat).push(digit_char((n % 10) as nat)));
        }
    }
}

/// The decimal rendering of `n`.
pub fn decimal_string(n: u64) -> (r: String)
    ensures
        r@ == decimal(n as nat),
{
    let mut v: Vec<char> = Vec::new();
    push_decimal(n, &mut v);
    assert(v@ =~= decimal(n as nat));
    string_of(&v)
}

} // verus!
