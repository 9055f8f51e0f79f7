//! Unix file paths held as text: their components, the component-wise order
//! and equality that `std::path::Path` uses, file names, stems, extensions and
//! joining.

use vstd::prelude::*;

use crate::text::{chars_of, string_of};

verus! {

/// One component of a path.
pub enum Part {
    /// The leading `/`.
    Root,
    /// A leading `.`.
    Current,
    /// A `..`.
    Parent,
    /// Any other name.
    Normal(Seq<char>),
}

/// A path component as the executable code holds it.
pub enum PathPart {
    Root,
    Current,
    Parent,
    Normal(Vec<char>),
}

impl View for PathPart {
    type V = Part;

    open spec fn view(&self) -> Part {
        match self {
            PathPart::Root => Part::Root,
            PathPart::Current => Part::Current,
            PathPart::Parent => Part::Parent,
            PathPart::Normal(v) => Part::Normal(v@),
        }
    }
}

/// The pieces of `p` between slashes, empty pieces included.
pub open spec fn split_slash(p: Seq<char>) -> Seq<Seq<char>>
    decreases p.len(),
{
    if p.len() == 0 {
        seq![seq![]]
    } else {
        let s = split_slash(p.drop_last());
        if p.last() == '/' {
            s.push(seq![])
        } else {
            s.update(s.len() - 1, s.last().push(p.last()))
        }
    }
}

/// The component a piece between slashes stands for: empty pieces and `.`
/// stand for none.
pub open spec fn piece_part(piece: Seq<char>) -> Option<Part> {
    if piece.len() == 0 || piece == seq!['.'] {
        None
    } else if piece == seq!['.', '.'] {
        Some(Part::Parent)
    } else {
        Some(Part::Normal(piece))
    }
}

/// The components that a run of pieces stands for.
pub open spec fn body_parts(ps: Seq<Seq<char>>) -> Seq<Part>
    decreases ps.len(),
{
    if ps.len() == 0 {
        seq![]
    } else {
        let b = body_parts(ps.drop_last());
        match piece_part(ps.last()) {
            Some(x) => b.push(x),
            None => b,
        }
    }
}

/// Whether `p` starts at the root.
pub open spec fn has_root(p: Seq<char>) -> bool {
    p.len() > 0 && p[0] == '/'
}

/// Whether `p` is relative and starts with a `.` component.
pub open spec fn starts_current(p: Seq<char>) -> bool {
    !has_root(p) && p.len() > 0 && p[0] == '.' && (p.len() == 1 || p[1] == '/')
}

/// The components of `p`, as `Path::components` yields them on Unix.
pub open spec fn components(p: Seq<char>) -> Seq<Part> {
    (if has_root(p) {
        seq![Part::Root]
    } else {
        seq![]
    }) + (if starts_current(p) {
        seq![Part::Current]
    } else {
        seq![]
    }) + body_parts(split_slash(p))
}

/// Three-way comparison of character sequences in code point order
/// (the byte order of their UTF-8 encodings): -1, 0 or 1.
pub open spec fn chars_order(a: Seq<char>, b: Seq<char>) -> int
    decreases a.len(),
{
    if a.len() == 0 {
        if b.len() == 0 {
            0
        } else {
            -1
        }
    } else if b.len() == 0 {
        1
    } else if a[0] != b[0] {
        if a[0] < b[0] {
            -1
        } else {
            1
        }
    } else {
        chars_order(a.drop_first(), b.drop_first())
    }
}

/// The rank of a component's kind in the component order.
pub open spec fn part_rank(x: Part) -> int {
    match x {
        Part::Root => 0,
        Part::Current => 1,
        Part::Parent => 2,
        Part::Normal(_) => 3,
    }
}

/// Three-way comparison of components.
pub open spec fn part_order(a: Part, b: Part) -> int {
    match (a, b) {
        (Part::Normal(x), Part::Normal(y)) => chars_order(x, y),
        _ => if part_rank(a) < part_rank(b) {
            -1
        } else if part_rank(a) > part_rank(b) {
            1
        } else {
            0
        },
    }
}

/// Three-way lexicographic comparison of component sequences.
pub open spec fn parts_order(a: Seq<Part>, b: Seq<Part>) -> int
    decreases a.len(),
{
    if a.len() == 0 {
        if b.len() == 0 {
            0
        } else {
            -1
        }
    } else if b.len() == 0 {
        1
    } else if part_order(a[0], b[0]) != 0 {
        part_order(a[0], b[0])
    } else {
        parts_order(a.drop_first(), b.drop_first())
    }
}

/// The order of paths: `Ord` for `Path`, component by component.
pub open spec fn path_order(a: Seq<char>, b: Seq<char>) -> int {
    parts_order(components(a), components(b))
}

/// Equality of paths: `PartialEq` for `Path`, component by component.
pub open spec fn same_path(a: Seq<char>, b: Seq<char>) -> bool {
    components(a) == components(b)
}

/// `chars_order` is zero exactly on equal sequences.
pub proof fn lemma_chars_order_zero(a: Seq<char>, b: Seq<char>)
    ensures
        (chars_order(a, b) == 0) == (a == b),
        chars_order(a, b) == -chars_order(b, a),
    decreases a.len(),
{
    if a.len() == 0 && b.len() == 0 {
        assert(a =~= b);
    }
    if a.len() > 0 && b.len() > 0 && a[0] == b[0] {
        lemma_chars_order_zero(a.drop_first(), b.drop_first());
        if a.drop_first() == b.drop_first() {
            assert forall|i: int| 0 <= i < a.len() implies a[i] == b[i] by {
                if i > 0 {
                    assert(a[i] == a.drop_first()[i - 1]);
                    assert(b[i] == b.drop_first()[i - 1]);
                }
            }
            assert(a =~= b);
        }
    }
    if a.len() > 0 && b.len() > 0 && a[0] != b[0] {
    }
}

/// `part_order` is zero exactly on equal components.
pub proof fn lemma_part_order_zero(a: Part, b: Part)
    ensures
        (part_order(a, b) == 0) == (a == b),
        part_order(a, b) == -part_order(b, a),
{
    match (a, b) {
        (Part::Normal(x), Part::Normal(y)) => {
            lemma_chars_order_zero(x, y);
        },
        _ => {},
    }
}

/// `parts_order` is zero exactly on equal sequences, and antisymmetric.
pub proof fn lemma_parts_order_zero(a: Seq<Part>, b: Seq<Part>)
    ensures
        (parts_order(a, b) == 0) == (a == b),
        parts_order(a, b) == -parts_order(b, a),
    decreases a.len(),
{
    if a.len() == 0 && b.len() == 0 {
        assert(a =~= b);
    }
    if a.len() > 0 && b.len() > 0 {
        lemma_part_order_zero(a[0], b[0]);
        if part_order(a[0], b[0]) == 0 {
            lemma_parts_order_zero(a.drop_first(), b.drop_first());
            if a.drop_first() == b.drop_first() {
                assert forall|i: int| 0 <= i < a.len() implies a[i] == b[i] by {
                    if i > 0 {
                        assert(a[i] == a.drop_first()[i - 1]);
                        assert(b[i] == b.drop_first()[i - 1]);
                    }
                }
                assert(a =~= b);
            }
        }
    }
}

/// `chars_order` is transitive.
pub proof fn lemma_chars_order_trans(a: Seq<char>, b: Seq<char>, c: Seq<char>)
    requires
        chars_order(a, b) < 0,
        chars_order(b, c) < 0,
    ensures
        chars_order(a, c) < 0,
    decreases a.len(),
{
    if a.len() > 0 && b.len() > 0 && c.len() > 0 && a[0] == b[0] && b[0] == c[0] {
        lemma_chars_order_trans(a.drop_first(), b.drop_first(), c.drop_first());
    }
}

/// `part_order` is transitive.
pub proof fn lemma_part_order_trans(a: Part, b: Part, c: Part)
    requires
        part_order(a, b) < 0,
        part_order(b, c) < 0,
    ensures
        part_order(a, c) < 0,
{
    match (a, b, c) {
        (Part::Normal(x), Part::Normal(y), Part::Normal(z)) => {
            lemma_chars_order_trans(x, y, z);
        },
        _ => {},
    }
}

/// `parts_order` is transitive.
pub proof fn lemma_parts_order_trans(a: Seq<Part>, b: Seq<Part>, c: Seq<Part>)
    requires
        parts_order(a, b) < 0,
        parts_order(b, c) < 0,
    ensures
        parts_order(a, c) < 0,
    decreases a.len(),
{
    if a.len() > 0 && b.len() > 0 && c.len() > 0 {
        lemma_part_order_zero(a[0], b[0]);
        lemma_part_order_zero(b[0], c[0]);
        lemma_part_order_zero(a[0], c[0]);
        if part_order(a[0], b[0]) == 0 && part_order(b[0], c[0]) == 0 {
            lemma_parts_order_trans(a.drop_first(), b.drop_first(), c.drop_first());
        } else if part_order(a[0], b[0]) < 0 && part_order(b[0], c[0]) < 0 {
            lemma_part_order_trans(a[0], b[0], c[0]);
        }
    }
}

/// The path order is transitive.
pub proof fn lemma_path_order_trans(a: Seq<char>, b: Seq<char>, c: Seq<char>)
    requires
        path_order(a, b) < 0,
        path_order(b, c) < 0,
    ensures
        path_order(a, c) < 0,
{
    lemma_parts_order_trans(components(a), components(b), components(c));
}

/// The path order is antisymmetric, and zero exactly on equal paths.
pub proof fn lemma_path_order_antisym(a: Seq<char>, b: Seq<char>)
    ensures
        path_order(a, b) == -path_order(b, a),
        (path_order(a, b) == 0) == same_path(a, b),
{
    lemma_parts_order_zero(components(a), components(b));
}

proof fn lemma_split_nonempty(p: Seq<char>)
    ensures
        split_slash(p).len() > 0,
    decreases p.len(),
{
    if p.len() > 0 {
        lemma_split_nonempty(p.drop_last());
    }
}

fn part_of_piece(piece: Vec<char>) -> (r: Option<PathPart>)
    ensures
        match r {
            Some(x) => piece_part(piece@) == Some(x@),
            None => piece_part(piece@) is None,
        },
{
    if piece.len() == 0 {
        None
    } else if piece.len() == 1 && piece[0] == '.' {
        assert(piece@ =~= seq!['.']);
        None
    } else if piece.len() == 2 && piece[0] == '.' && piece[1] == '.' {
        assert(piece@ =~= seq!['.', '.']);
        Some(PathPart::Parent)
    } else {
        assert(piece@ != seq!['.']);
        assert(piece@ != seq!['.', '.']);
        Some(PathPart::Normal(piece))
    }
}

/// The components of `path`.
pub fn path_parts(path: &str) -> (r: Vec<PathPart>)
    ensures
        r@.map_values(|x: PathPart| x@) == components(path@),
{
    let cs = chars_of(path);
    let mut out: Vec<PathPart> = Vec::new();
    let root = cs.len() > 0 && cs[0] == '/';
    if root {
        out.push(PathPart::Root);
    }
    let cur = !root && cs.len() > 0 && cs[0] == '.' && (cs.len() == 1 || cs[1] == '/');
    if cur {
        out.push(PathPart::Current);
    }
    let ghost head = out@.map_values(|x: PathPart| x@);
    assert(head =~= (if has_root(cs@) {
        seq![Part::Root]
    } else {
        seq![]
    }) + (if starts_current(cs@) {
        seq![Part::Current]
    } else {
        seq![]
    }));
    let mut piece: Vec<char> = Vec::new();
    let mut i: usize = 0;
    assert(cs@.take(0) =~= seq![]);
    assert(split_slash(seq![]).drop_last() =~= seq![]);
    while i < cs.len()
        invariant
            cs@ == path@,
            i <= cs.len(),
            split_slash(cs@.take(i as int)).len() > 0,
            piece@ == split_slash(cs@.take(i as int)).last(),
            out@.map_values(|x: PathPart| x@) == head + body_parts(
                split_slash(cs@.take(i as int)).drop_last(),
            ),
        decreases cs.len() - i,
    {
        let c = cs[i];
        let ghost pre = cs@.take(i as int);
        let ghost post = cs@.take(i + 1);
        assert(post.drop_last() =~= pre);
        let ghost sp = split_slash(pre);
        if c == '/' {
            let mut done: Vec<char> = Vec::new();
            std::mem::swap(&mut done, &mut piece);
            let ghost before = out@.map_values(|x: PathPart| x@);
            let p = part_of_piece(done);
            assert(split_slash(post) == sp.push(seq![]));
            assert(split_slash(post).drop_last() =~= sp);
            assert(sp.drop_last().push(sp.last()) =~= sp);
            match p {
                Some(x) => {
                    out.push(x);
                    assert(out@.map_values(|x: PathPart| x@) =~= before.push(x@));
                },
                None => {},
            }
            proof {
                assert(body_parts(sp) == match piece_part(sp.last()) {
                    Some(x) => body_parts(sp.drop_last()).push(x),
                    None => body_parts(sp.drop_last()),
                });
                assert(piece@ =~= split_slash(post).last());
            }
        } else {
            piece.push(c);
            proof {
                lemma_split_nonempty(pre);
                assert(split_slash(post) == sp.update(sp.len() - 1, sp.last().push(c)));
                assert(split_slash(post).drop_last() =~= sp.drop_last());
            }
        }
        i = i + 1;
    }
    assert(cs@.take(cs.len() as int) =~= cs@);
    let ghost sp = split_slash(cs@);
    let ghost before = out@.map_values(|x: PathPart| x@);
    match part_of_piece(piece) {
        Some(x) => {
            out.push(x);
            assert(out@.map_values(|x: PathPart| x@) =~= before.push(x@));
        },
        None => {},
    }
    assert(sp.drop_last().push(sp.last()) =~= sp);
    assert(body_parts(sp) == match piece_part(sp.last()) {
        Some(x) => body_parts(sp.drop_last()).push(x),
        None => body_parts(sp.drop_last()),
    });
    assert(out@.map_values(|x: PathPart| x@) =~= components(path@));
    out
}

/// Three-way comparison of character vectors in code point order.
pub fn compare_chars(a: &Vec<char>, b: &Vec<char>) -> (r: i8)
    ensures
        r as int == chars_order(a@, b@),
{
    let mut i: usize = 0;
    assert(a@.skip(0) =~= a@);
    assert(b@.skip(0) =~= b@);
    while i < a.len() && i < b.len() && a[i] == b[i]
        invariant
            i <= a.len(),
            i <= b.len(),
            chars_order(a@, b@) == chars_order(a@.skip(i as int), b@.skip(i as int)),
        decreases a.len() - i,
    {
        assert(a@.skip(i as int).drop_first() =~= a@.skip(i + 1));
        assert(b@.skip(i as int).drop_first() =~= b@.skip(i + 1));
        i = i + 1;
    }
    if i == a.len() {
        if i == b.len() {
            0
        } else {
            -1
        }
    } else if i == b.len() {
        1
    } else if a[i] < b[i] {
        -1
    } else {
        1
    }
}

fn rank_of(x: &PathPart) -> (r: u8)
    ensures
        r as int == part_rank(x@),
{
    match x {
        PathPart::Root => 0,
        PathPart::Current => 1,
        PathPart::Parent => 2,
        PathPart::Normal(_) => 3,
    }
}

fn compare_part(a: &PathPart, b: &PathPart) -> (r: i8)
    ensures
        r as int == part_order(a@, b@),
{
    match (a, b) {
        (PathPart::Normal(x), PathPart::Normal(y)) => compare_chars(x, y),
        _ => {
            let ra = rank_of(a);
            let rb = rank_of(b);
            if ra < rb {
                -1
            } else if ra > rb {
                1
            } else {
                0
            }
        },
    }
}

/// Three-way comparison of two paths, component by component
/// (`Ord` for `Path`): -1, 0 or 1.
pub fn compare_paths(a: &str, b: &str) -> (r: i8)
    ensures
        r as int == path_order(a@, b@),
{
    let pa = path_parts(a);
    let pb = path_parts(b);
    let ghost va = pa@.map_values(|x: PathPart| x@);
    let ghost vb = pb@.map_values(|x: PathPart| x@);
    let mut i: usize = 0;
    assert(va.skip(0) =~= va);
    assert(vb.skip(0) =~= vb);
    while i < pa.len() && i < pb.len()
        invariant
            i <= pa.len(),
            i <= pb.len(),
            va == pa@.map_values(|x: PathPart| x@),
            vb == pb@.map_values(|x: PathPart| x@),
            path_order(a@, b@) == parts_order(va.skip(i as int), vb.skip(i as int)),
        decreases pa.len() - i,
    {
        let c = compare_part(&pa[i], &pb[i]);
        assert(va.skip(i as int)[0] == pa@[i as int]@);
        assert(vb.skip(i as int)[0] == pb@[i as int]@);
        if c != 0 {
            return c;
        }
        assert(va.skip(i as int).drop_first() =~= va.skip(i + 1));
        assert(vb.skip(i as int).drop_first() =~= vb.skip(i + 1));
        i = i + 1;
    }
    if i == pa.len() {
        if i == pb.len() {
            0
        } else {
            -1
        }
    } else {
        1
    }
}

/// Whether two paths are equal component by component (`PartialEq` for
/// `Path`).
pub fn paths_equal(a: &str, b: &str) -> (r: bool)
    ensures
        r == same_path(a@, b@),
{
    let c = compare_paths(a, b);
    proof {
        lemma_parts_order_zero(components(a@), components(b@));
    }
    c == 0
}

// ---------------------------------------------------------------------------
// File names
// ---------------------------------------------------------------------------
/// The last component of `p` when it is a name (`Path::file_name`).
pub open spec fn file_name(p: Seq<char>) -> Option<Seq<char>> {
    let c = components(p);
    if c.len() > 0 {
        match c.last() {
            Part::Normal(n) => Some(n),
            _ => None,
        }
    } else {
        None
    }
}

/// The index of the last `.` in `name`, or -1.
pub open spec fn last_dot(name: Seq<char>) -> int
    decreases name.len(),
{
    if name.len() == 0 {
        -1
    } else if name.last() == '.' {
        name.len() - 1
    } else {
        last_dot(name.drop_last())
    }
}

/// Whether `s` holds no `/`.
pub open spec fn slash_free(s: Seq<char>) -> bool {
    forall|j: int| 0 <= j < s.len() ==> #[trigger] s[j] != '/'
}

proof fn lemma_split_slash_free(p: Seq<char>)
    ensures
        split_slash(p).len() > 0,
        forall|i: int| 0 <= i < split_slash(p).len() ==> slash_free(#[trigger] split_slash(p)[i]),
    decreases p.len(),
{
    if p.len() > 0 {
        let d = p.drop_last();
        lemma_split_slash_free(d);
        let s = split_slash(d);
        if p.last() != '/' {
            let w = s.last().push(p.last());
            assert(slash_free(s[s.len() - 1]));
            assert forall|j: int| 0 <= j < w.len() implies #[trigger] w[j] != '/' by {
                if j < w.len() - 1 {
                    assert(w[j] == s[s.len() - 1][j]);
                }
            }
            assert(slash_free(w));
        } else {
            assert(slash_free(seq![]));
        }
    }
}

proof fn lemma_body_parts_plain(ps: Seq<Seq<char>>)
    requires
        forall|i: int| 0 <= i < ps.len() ==> slash_free(#[trigger] ps[i]),
    ensures
        forall|i: int|
            0 <= i < body_parts(ps).len() ==> (#[trigger] body_parts(ps)[i] matches Part::Normal(n) ==> n.len()
                > 0 && slash_free(n)),
    decreases ps.len(),
{
    if ps.len() > 0 {
        let d = ps.drop_last();
        assert forall|i: int| 0 <= i < d.len() implies slash_free(#[trigger] d[i]) by {
            assert(d[i] == ps[i]);
        }
        lemma_body_parts_plain(d);
        assert(slash_free(ps[ps.len() - 1]));
    }
}

/// A file name is a non-empty text without `/`.
pub proof fn lemma_file_name_plain(p: Seq<char>)
    ensures
        file_name(p) matches Some(n) ==> n.len() > 0 && slash_free(n),
{
    let c = components(p);
    let pre = (if has_root(p) {
        seq![Part::Root]
    } else {
        seq![]
    }) + (if starts_current(p) {
        seq![Part::Current]
    } else {
        seq![]
    });
    let body = body_parts(split_slash(p));
    assert(c == pre + body);
    lemma_split_slash_free(p);
    lemma_body_parts_plain(split_slash(p));
    if c.len() > 0 && c.last() is Normal {
        if body.len() == 0 {
            assert(c =~= pre);
            assert(!(pre.last() is Normal));
        } else {
            assert(c.last() == body[body.len() - 1]);
        }
    }
}

/// The last dot, when there is one, lies inside the name.
pub proof fn lemma_last_dot_bound(name: Seq<char>)
    ensures
        -1 <= last_dot(name) < name.len(),
    decreases name.len(),
{
    if name.len() > 0 && name.last() != '.' {
        lemma_last_dot_bound(name.drop_last());
    }
}

/// A file name without its extension: everything before the last `.`, or the
/// whole name when it has no `.` past its first character.
pub open spec fn name_stem(name: Seq<char>) -> Seq<char> {
    if last_dot(name) <= 0 {
        name
    } else {
        name.take(last_dot(name))
    }
}

/// The extension of a file name: what follows its last `.`, when that `.` is
/// not its first character.
pub open spec fn name_extension(name: Seq<char>) -> Option<Seq<char>> {
    if last_dot(name) <= 0 {
        None
    } else {
        Some(name.skip(last_dot(name) + 1))
    }
}

/// `Path::file_stem`.
pub open spec fn file_stem(p: Seq<char>) -> Option<Seq<char>> {
    match file_name(p) {
        Some(n) => Some(name_stem(n)),
        None => None,
    }
}

/// `Path::extension`.
pub open spec fn extension(p: Seq<char>) -> Option<Seq<char>> {
    match file_name(p) {
        Some(n) => name_extension(n),
        None => None,
    }
}

/// The file stem of `path` when it has one and it is text (`stem_ok`: the
/// stem is valid UTF-8, which only the file system can tell).
pub open spec fn given_stem(path: Seq<char>, stem_ok: bool) -> Option<Seq<char>> {
    if stem_ok {
        file_stem(path)
    } else {
        None
    }
}

/// The extension of `path` when it has one and it is text (`ext_ok`).
pub open spec fn given_ext(path: Seq<char>, ext_ok: bool) -> Option<Seq<char>> {
    if ext_ok {
        extension(path)
    } else {
        None
    }
}

/// The file name of `path` when it has one and it is text. A name is its
/// stem, then a `.` and its extension when it has one, so it is text exactly
/// when its stem and its extension are.
pub open spec fn given_name(path: Seq<char>, stem_ok: bool, ext_ok: bool) -> Option<Seq<char>> {
    if stem_ok && ext_ok {
        file_name(path)
    } else {
        None
    }
}

/// `dir` with `name` appended as `PathBuf::push` does it: an absolute `name`
/// replaces `dir`; otherwise a `/` separates them unless `dir` is empty or
/// already ends with one.
pub open spec fn join_path(dir: Seq<char>, name: Seq<char>) -> Seq<char> {
    if has_root(name) {
        name
    } else if dir.len() == 0 || dir.last() == '/' {
        dir + name
    } else {
        dir + seq!['/'] + name
    }
}

/// The file name of `path`.
pub fn file_name_of(path: &str) -> (r: Option<Vec<char>>)
    ensures
        match r {
            Some(n) => file_name(path@) == Some(n@),
            None => file_name(path@) is None,
        },
{
    let mut parts = path_parts(path);
    let ghost v = parts@.map_values(|x: PathPart| x@);
    match parts.pop() {
        Some(PathPart::Normal(n)) => {
            assert(v.last() == Part::Normal(n@));
            Some(n)
        },
        Some(x) => {
            assert(v.last() == x@);
            None
        },
        None => None,
    }
}

fn find_last_dot(name: &Vec<char>) -> (r: Option<usize>)
    ensures
        match r {
            Some(d) => d as int == last_dot(name@) && d < name.len(),
            None => last_dot(name@) == -1,
        },
{
    let mut i: usize = name.len();
    assert(name@.take(name.len() as int) =~= name@);
    while i > 0 && name[i - 1] != '.'
        invariant
            i <= name.len(),
            last_dot(name@) == last_dot(name@.take(i as int)),
        decreases i,
    {
        assert(name@.take(i as int).drop_last() =~= name@.take(i - 1));
        i = i - 1;
    }
    if i == 0 {
        None
    } else {
        Some(i - 1)
    }
}

/// Splits a file name into its stem and extension.
pub fn split_name(name: &Vec<char>) -> (r: (Vec<char>, Option<Vec<char>>))
    ensures
        r.0@ == name_stem(name@),
        match r.1 {
            Some(e) => name_extension(name@) == Some(e@),
            None => name_extension(name@) is None,
        },
{
    let found = find_last_dot(name);
    if found.is_none() || found == Some(0usize) {
        let mut stem: Vec<char> = Vec::new();
        let mut i: usize = 0;
        while i < name.len()
            invariant
                i <= name.len(),
                stem@ == name@.take(i as int),
            decreases name.len() - i,
        {
            stem.push(name[i]);
            i = i + 1;
            assert(stem@ =~= name@.take(i as int));
        }
        assert(name@.take(name.len() as int) =~= name@);
        (stem, None)
    } else {
        let d = found.unwrap();
        let mut stem: Vec<char> = Vec::new();
        let mut ext: Vec<char> = Vec::new();
        let mut i: usize = 0;
        while i < name.len()
            invariant
                d < name.len(),
                i <= name.len(),
                stem@ == name@.take(if i < d { i as int } else { d as int }),
                ext@ == if i <= d + 1 { seq![] } else { name@.subrange(d + 1, i as int) },
            decreases name.len() - i,
        {
            if i < d {
                stem.push(name[i]);
            } else if i > d {
                ext.push(name[i]);
            }
            i = i + 1;
            assert(stem@ =~= name@.take(if i < d { i as int } else { d as int }));
            assert(ext@ =~= if i <= d + 1 { seq![] } else { name@.subrange(d + 1, i as int) });
        }
        assert(name@.skip(d + 1) =~= name@.subrange(d + 1, name.len() as int));
        (stem, Some(ext))
    }
}

/// `dir` with `name` appended (`PathBuf::push`).
pub fn join(dir: &str, name: &Vec<char>) -> (r: String)
    ensures
        r@ == join_path(dir@, name@),
{
    if name.len() > 0 && name[0] == '/' {
        return string_of(name);
    }
    let mut out = chars_of(dir);
    if out.len() > 0 && out[out.len() - 1] != '/' {
        out.push('/');
    }
    let mut i: usize = 0;
    let ghost start = out@;
    while i < name.len()
        invariant
            i <= name.len(),
            out@ == start + name@.take(i as int),
        decreases name.len() - i,
    {
        out.push(name[i]);
        i = i + 1;
        assert(out@ =~= start + name@.take(i as int));
    }
    assert(name@.take(name.len() as int) =~= name@);
    string_of(&out)
}

} // verus!
