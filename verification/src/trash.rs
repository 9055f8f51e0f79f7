//! Where a deleted session's file goes in the trash directory: its own name
//! when free, else the name with `-1`, `-2`, ... before the extension.

use vstd::prelude::*;

use vstd::relations::injective_on;
use vstd::set_lib::{lemma_int_range, lemma_len_subset, lemma_map_size, set_int_range};

use crate::path::{
    extension, file_name, file_name_of, file_stem, given_ext, given_name, given_stem, has_root, join,
    join_path, last_dot, lemma_file_name_plain, lemma_last_dot_bound, name_stem, split_name,
};
use crate::text::{
    chars_of, decimal, lemma_decimal_injective, lemma_decimal_last, lemma_decimal_len, push_decimal,
};

verus! {

/// The file name of the `attempt`-th candidate for `source` in the trash:
/// the first is the source's own name (`session.jsonl` when it has none or
/// it is not text); the next ones are its stem (`session` when none or not
/// text), a dash and the attempt number, then its extension when it has a
/// non-empty one that is text. `stem_ok` and `ext_ok` say whether the stem
/// and the extension are text.
pub open spec fn candidate_name(source: Seq<char>, stem_ok: bool, ext_ok: bool, attempt: nat) -> Seq<char> {
    if attempt == 0 {
        match given_name(source, stem_ok, ext_ok) {
            Some(n) => n,
            None => "session.jsonl"@,
        }
    } else {
        let stem = match given_stem(source, stem_ok) {
            Some(s) => s,
            None => "session"@,
        };
        let ext = match given_ext(source, ext_ok) {
            Some(e) => e,
            None => seq![],
        };
        stem + seq!['-'] + decimal(attempt) + if ext.len() == 0 {
            seq![]
        } else {
            seq!['.'] + ext
        }
    }
}

/// The `attempt`-th path tried for `source` in the trash directory `dir`;
/// `stem_is_text` and `ext_is_text` say whether the source's file stem and
/// extension are valid UTF-8 (true when it has none).
pub fn unique_target_path(
    dir: &str,
    source: &str,
    stem_is_text: bool,
    ext_is_text: bool,
    attempt: u64,
) -> (r: String)
    ensures
        r@ == join_path(dir@, candidate_name(source@, stem_is_text, ext_is_text, attempt as nat)),
{
    let full = file_name_of(source);
    if attempt == 0 {
        let name = match full {
            Some(n) => if stem_is_text && ext_is_text {
                n
            } else {
                chars_of("session.jsonl")
            },
            None => chars_of("session.jsonl"),
        };
        return join(dir, &name);
    }
    let (stem, ext) = match full {
        Some(n) => {
            let (s, e) = split_name(&n);
            let s2 = if stem_is_text {
                s
            } else {
                chars_of("session")
            };
            let e2 = if ext_is_text {
                e
            } else {
                None
            };
            (s2, e2)
        },
        None => (chars_of("session"), None),
    };
    let mut name = stem;
    name.push('-');
    push_decimal(attempt, &mut name);
    match ext {
        Some(e) => {
            if e.len() > 0 {
                name.push('.');
                let mut i: usize = 0;
                let ghost base = name@;
                while i < e.len()
                    invariant
                        i <= e@.len(),
                        name@ == base + e@.take(i as int),
                    decreases e@.len() - i,
                {
                    name.push(e[i]);
                    i = i + 1;
                    assert(name@ =~= base + e@.take(i as int));
                }
                assert(e@.take(e@.len() as int) =~= e@);
            }
        },
        None => {},
    }
    let ghost want = candidate_name(source@, stem_is_text, ext_is_text, attempt as nat);
    assert(name@ =~= want);
    join(dir, &name)
}


/// The stem and the extension part that a numbered candidate is built from.
spec fn numbered_parts(source: Seq<char>, stem_ok: bool, ext_ok: bool) -> (Seq<char>, Seq<char>) {
    let stem = match given_stem(source, stem_ok) {
        Some(s) => s,
        None => "session"@,
    };
    let ext = match given_ext(source, ext_ok) {
        Some(e) => e,
        None => seq![],
    };
    (stem, if ext.len() == 0 {
        seq![]
    } else {
        seq!['.'] + ext
    })
}

proof fn lemma_numbered_shape(source: Seq<char>, stem_ok: bool, ext_ok: bool, k: nat)
    requires
        k >= 1,
    ensures
        candidate_name(source, stem_ok, ext_ok, k) == numbered_parts(source, stem_ok, ext_ok).0 + seq!['-'] + decimal(k) + numbered_parts(source, stem_ok, ext_ok).1,
{
}

proof fn lemma_numbered_differ(source: Seq<char>, stem_ok: bool, ext_ok: bool, a: nat, b: nat)
    requires
        a >= 1,
        b >= 1,
        a != b,
    ensures
        candidate_name(source, stem_ok, ext_ok, a) != candidate_name(source, stem_ok, ext_ok, b),
{
    lemma_numbered_shape(source, stem_ok, ext_ok, a);
    lemma_numbered_shape(source, stem_ok, ext_ok, b);
    let stem = numbered_parts(source, stem_ok, ext_ok).0;
    let tail = numbered_parts(source, stem_ok, ext_ok).1;
    let ca = candidate_name(source, stem_ok, ext_ok, a);
    let cb = candidate_name(source, stem_ok, ext_ok, b);
    if ca == cb {
        let da = decimal(a);
        let db = decimal(b);
        let s: int = stem.len() as int + 1;
        assert(ca.len() == s + da.len() + tail.len());
        assert(cb.len() == s + db.len() + tail.len());
        assert(da.len() == db.len());
        assert(ca.subrange(s, s + da.len() as int) =~= da);
        assert(cb.subrange(s, s + db.len() as int) =~= db);
        lemma_decimal_injective(a, b);
    }
}

proof fn lemma_first_differs(source: Seq<char>, stem_ok: bool, ext_ok: bool, k: nat)
    requires
        k >= 1,
    ensures
        candidate_name(source, stem_ok, ext_ok, 0) != candidate_name(source, stem_ok, ext_ok, k),
{
    lemma_numbered_shape(source, stem_ok, ext_ok, k);
    lemma_decimal_len(k);
    reveal_strlit("session.jsonl");
    reveal_strlit("session");
    let c0 = candidate_name(source, stem_ok, ext_ok, 0);
    let ck = candidate_name(source, stem_ok, ext_ok, k);
    match given_name(source, stem_ok, ext_ok) {
        Some(n) => {
            lemma_last_dot_bound(n);
            assert(ck.len() > n.len());
        },
        None => {
            if !stem_ok || file_name(source) is None {
                assert(c0[7] == '.');
                assert(ck[7] == '-');
            } else {
                // The stem is kept and the extension dropped: the name ends
                // in a digit, `session.jsonl` in `l`.
                lemma_decimal_last(k);
                assert(numbered_parts(source, stem_ok, ext_ok).1.len() == 0);
                assert(ck.last() == decimal(k).last());
                assert(c0.last() == 'l');
            }
        },
    }
}

/// The candidates tried for one file are all different names, so every
/// further attempt tries a path that was not tried before.
pub proof fn lemma_candidates_differ(source: Seq<char>, stem_ok: bool, ext_ok: bool, a: nat, b: nat)
    requires
        a != b,
    ensures
        candidate_name(source, stem_ok, ext_ok, a) != candidate_name(source, stem_ok, ext_ok, b),
{
    if a >= 1 && b >= 1 {
        lemma_numbered_differ(source, stem_ok, ext_ok, a, b);
    } else if a == 0 {
        lemma_first_differs(source, stem_ok, ext_ok, b);
    } else {
        lemma_first_differs(source, stem_ok, ext_ok, a);
    }
}


// ---------------------------------------------------------------------------
// Choosing a free name
// ---------------------------------------------------------------------------
/// The `attempt`-th path tried for `source` in the trash directory `dir`.
pub open spec fn candidate_path(dir: Seq<char>, source: Seq<char>, stem_ok: bool, ext_ok: bool, attempt: nat) -> Seq<char> {
    join_path(dir, candidate_name(source, stem_ok, ext_ok, attempt))
}

/// What to do after asking whether a candidate path exists.
pub enum TrashStep {
    /// Move the file to this path.
    Take(String),
    /// Ask about this attempt next.
    Next(u64),
}

/// One step of the search for a free name in the trash: the `attempt`-th
/// candidate (`unique_target_path`) is taken when it does not exist, else
/// the next attempt is asked for. The caller starts at attempt 0 and
/// answers, for each candidate, whether it exists; by
/// `lemma_trash_search_ends` and `lemma_trash_choice_unique` the search
/// stops, at the first candidate that is free.
pub fn trash_step(
    dir: &str,
    source: &str,
    stem_is_text: bool,
    ext_is_text: bool,
    attempt: u64,
    exists: bool,
) -> (r: TrashStep)
    requires
        exists ==> attempt < u64::MAX,
    ensures
        !exists ==> (r matches TrashStep::Take(p) && p@ == candidate_path(dir@, source@, stem_is_text, ext_is_text, attempt as nat)),
        exists ==> r == TrashStep::Next((attempt + 1) as u64),
{
    if exists {
        TrashStep::Next(attempt + 1)
    } else {
        TrashStep::Take(unique_target_path(dir, source, stem_is_text, ext_is_text, attempt))
    }
}

proof fn lemma_candidate_plain(source: Seq<char>, stem_ok: bool, ext_ok: bool, k: nat)
    ensures
        candidate_name(source, stem_ok, ext_ok, k).len() > 0,
        !has_root(candidate_name(source, stem_ok, ext_ok, k)),
{
    lemma_file_name_plain(source);
    reveal_strlit("session.jsonl");
    reveal_strlit("session");
    let c = candidate_name(source, stem_ok, ext_ok, k);
    if k == 0 {
        match given_name(source, stem_ok, ext_ok) {
            Some(n) => {
                assert(n[0] != '/');
            },
            None => {},
        }
    } else {
        lemma_numbered_shape(source, stem_ok, ext_ok, k);
        match given_stem(source, stem_ok) {
            Some(stem) => {
                let n = file_name(source)->0;
                lemma_last_dot_bound(n);
                assert(n[0] != '/');
                assert(stem.len() > 0 && stem[0] == n[0]);
                assert(c[0] == stem[0]);
            },
            None => {
                assert(c[0] == 's');
            },
        }
    }
}

/// Different attempts try different paths.
pub proof fn lemma_candidate_paths_differ(dir: Seq<char>, source: Seq<char>, stem_ok: bool, ext_ok: bool, a: nat, b: nat)
    requires
        a != b,
    ensures
        candidate_path(dir, source, stem_ok, ext_ok, a) != candidate_path(dir, source, stem_ok, ext_ok, b),
{
    lemma_candidates_differ(source, stem_ok, ext_ok, a, b);
    lemma_candidate_plain(source, stem_ok, ext_ok, a);
    lemma_candidate_plain(source, stem_ok, ext_ok, b);
    let na = candidate_name(source, stem_ok, ext_ok, a);
    let nb = candidate_name(source, stem_ok, ext_ok, b);
    let pa = candidate_path(dir, source, stem_ok, ext_ok, a);
    let pb = candidate_path(dir, source, stem_ok, ext_ok, b);
    if pa == pb {
        let pre = if dir.len() == 0 || dir.last() == '/' {
            dir
        } else {
            dir + seq!['/']
        };
        assert(pa == pre + na);
        assert(pb == pre + nb);
        assert(na =~= pa.subrange(pre.len() as int, pa.len() as int));
        assert(nb =~= pb.subrange(pre.len() as int, pb.len() as int));
    }
}

/// Whether every attempt before `k` names a path in `existing`.
pub open spec fn taken_below(dir: Seq<char>, source: Seq<char>, stem_ok: bool, ext_ok: bool, existing: Set<Seq<char>>, k: nat) -> bool {
    forall|j: nat| j < k ==> existing.contains(#[trigger] candidate_path(dir, source, stem_ok, ext_ok, j))
}

/// Whether attempt `k` is where the search stops when the paths in
/// `existing` exist: every earlier attempt exists and this one does not.
pub open spec fn is_trash_choice(dir: Seq<char>, source: Seq<char>, stem_ok: bool, ext_ok: bool, existing: Set<Seq<char>>, k: nat) -> bool {
    taken_below(dir, source, stem_ok, ext_ok, existing, k) && !existing.contains(candidate_path(dir, source, stem_ok, ext_ok, k))
}

/// The search stops at one attempt only: the first whose path is free.
pub proof fn lemma_trash_choice_unique(
    dir: Seq<char>,
    source: Seq<char>, stem_ok: bool, ext_ok: bool,
    existing: Set<Seq<char>>,
    a: nat,
    b: nat,
)
    requires
        is_trash_choice(dir, source, stem_ok, ext_ok, existing, a),
        is_trash_choice(dir, source, stem_ok, ext_ok, existing, b),
    ensures
        a == b,
{
    if a < b {
        assert(existing.contains(candidate_path(dir, source, stem_ok, ext_ok, a)));
    } else if b < a {
        assert(existing.contains(candidate_path(dir, source, stem_ok, ext_ok, b)));
    }
}

proof fn lemma_taken_or_chosen(dir: Seq<char>, source: Seq<char>, stem_ok: bool, ext_ok: bool, existing: Set<Seq<char>>, n: nat)
    ensures
        taken_below(dir, source, stem_ok, ext_ok, existing, n) || exists|k: nat| k < n && is_trash_choice(dir, source, stem_ok, ext_ok, existing, k),
    decreases n,
{
    if n > 0 {
        let m = (n - 1) as nat;
        lemma_taken_or_chosen(dir, source, stem_ok, ext_ok, existing, m);
        if taken_below(dir, source, stem_ok, ext_ok, existing, m) {
            if !existing.contains(candidate_path(dir, source, stem_ok, ext_ok, m)) {
                assert(is_trash_choice(dir, source, stem_ok, ext_ok, existing, m));
            } else {
                assert forall|j: nat| j < n implies existing.contains(#[trigger] candidate_path(dir, source, stem_ok, ext_ok, j)) by {
                    if j < m {
                        assert(existing.contains(candidate_path(dir, source, stem_ok, ext_ok, j)));
                    }
                }
            }
        }
    }
}

/// The search ends: when finitely many paths exist, some attempt no later
/// than their number is free, so at most that many plus one paths are
/// asked about.
pub proof fn lemma_trash_search_ends(dir: Seq<char>, source: Seq<char>, stem_ok: bool, ext_ok: bool, existing: Set<Seq<char>>)
    requires
        existing.finite(),
    ensures
        exists|k: nat| k <= existing.len() && #[trigger] is_trash_choice(dir, source, stem_ok, ext_ok, existing, k),
{
    let n = (existing.len() + 1) as nat;
    lemma_taken_or_chosen(dir, source, stem_ok, ext_ok, existing, n);
    if taken_below(dir, source, stem_ok, ext_ok, existing, n) {
        let f = |i: int| candidate_path(dir, source, stem_ok, ext_ok, i as nat);
        let range = set_int_range(0, n as int);
        lemma_int_range(0, n as int);
        assert(injective_on(f, range)) by {
            assert forall|x: int, y: int| range.contains(x) && range.contains(y) && #[trigger] f(x) == #[trigger] f(y)
                implies x == y by {
                if x != y {
                    lemma_candidate_paths_differ(dir, source, stem_ok, ext_ok, x as nat, y as nat);
                }
            }
        }
        let paths = range.map(f);
        lemma_map_size(range, paths, f);
        assert(paths.subset_of(existing)) by {
            assert forall|p: Seq<char>| paths.contains(p) implies existing.contains(p) by {
                let i = choose|i: int| range.contains(i) && f(i) == p;
                assert(existing.contains(candidate_path(dir, source, stem_ok, ext_ok, i as nat)));
            }
        }
        lemma_len_subset(paths, existing);
        assert(false);
    }
}

} // verus!
