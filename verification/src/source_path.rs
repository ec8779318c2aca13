//! Source identities are lexical paths: original files need not exist locally.
use vstd::prelude::*;

use crate::attribution::{forward_slashes, unmapped_chars, unmapped_name};
use crate::strings::{chars_of, extend_chars, same_chars, slice_chars, string_of};

verus! {

/// Resolves source-map source names against a map's directory, relative to the analysis root.
/// Both paths are absolute, slash-separated and already canonical.
pub struct SourcePaths {
    pub root: String,
    pub directory: String,
}

/// The first index at or after `from` holding `c`, or the length.
pub open spec fn find_char(s: Seq<char>, c: char, from: int) -> int
    decreases s.len() - from,
{
    if from >= s.len() {
        s.len() as int
    } else if s[from] == c {
        from
    } else {
        find_char(s, c, from + 1)
    }
}

/// `s` split at every `c`.
pub open spec fn split_on(s: Seq<char>, c: char) -> Seq<Seq<char>>
    decreases s.len(),
{
    let i = find_char(s, c, 0);
    if !(0 <= i < s.len()) {
        seq![s]
    } else {
        seq![s.subrange(0, i)] + split_on(s.subrange(i + 1, s.len() as int), c)
    }
}

/// Parts joined with `c` between them.
pub open spec fn join_with(parts: Seq<Seq<char>>, c: char) -> Seq<char>
    decreases parts.len(),
{
    if parts.len() == 0 {
        Seq::empty()
    } else if parts.len() == 1 {
        parts[0]
    } else {
        join_with(parts.drop_last(), c) + seq![c] + parts.last()
    }
}

pub open spec fn dot() -> Seq<char> {
    seq!['.']
}

pub open spec fn dot_dot() -> Seq<char> {
    seq!['.', '.']
}

/// Parts other than `.`.
pub open spec fn not_dot() -> spec_fn(Seq<char>) -> bool {
    |p: Seq<char>| p != dot()
}

/// Parts that name something: neither empty nor `.`.
pub open spec fn named_part() -> spec_fn(Seq<char>) -> bool {
    |p: Seq<char>| p.len() > 0 && p != dot()
}

/// Lexical normalization of path parts onto `acc`: empty and `.` parts vanish,
/// `..` removes the previous name (never the root).
pub open spec fn norm_from(acc: Seq<Seq<char>>, parts: Seq<Seq<char>>) -> Seq<Seq<char>>
    decreases parts.len(),
{
    if parts.len() == 0 {
        acc
    } else {
        let p = parts[0];
        let next = if p.len() == 0 || p == dot() {
            acc
        } else if p == dot_dot() {
            if acc.len() > 0 {
                acc.drop_last()
            } else {
                acc
            }
        } else {
            acc.push(p)
        };
        norm_from(next, parts.drop_first())
    }
}

/// Names of a normalized path.
pub open spec fn path_names(s: Seq<char>) -> Seq<Seq<char>> {
    norm_from(Seq::empty(), split_on(s, '/'))
}

pub open spec fn is_absolute(s: Seq<char>) -> bool {
    s.len() > 0 && s[0] == '/'
}

/// Normalized names of `directory` joined with `source`.
pub open spec fn joined_names(directory: Seq<char>, source: Seq<char>) -> Seq<Seq<char>> {
    if is_absolute(source) {
        path_names(source)
    } else {
        norm_from(path_names(directory), split_on(source, '/'))
    }
}

/// Length of the common prefix of two name lists.
pub open spec fn common_prefix(a: Seq<Seq<char>>, b: Seq<Seq<char>>) -> int
    decreases a.len(),
{
    if a.len() == 0 || b.len() == 0 || a[0] != b[0] {
        0
    } else {
        1 + common_prefix(a.drop_first(), b.drop_first())
    }
}

/// `n` copies of `..`.
pub open spec fn parents(n: nat) -> Seq<Seq<char>>
    decreases n,
{
    if n == 0 {
        Seq::empty()
    } else {
        parents((n - 1) as nat).push(dot_dot())
    }
}

pub open spec fn is_scheme_char(c: char) -> bool {
    ('a' <= c <= 'z') || ('A' <= c <= 'Z') || ('0' <= c <= '9') || c == '+' || c == '-' || c == '.'
}

/// The name before the first `:` is a URL scheme.
pub open spec fn has_scheme(s: Seq<char>) -> bool {
    let i = find_char(s, ':', 0);
    &&& i < s.len()
    &&& i > 0
    &&& (('a' <= s[0] <= 'z') || ('A' <= s[0] <= 'Z'))
    &&& forall|k: int| 0 <= k < i ==> is_scheme_char(#[trigger] s[k])
}

/// A URL source keeps scheme, authority, query and fragment; only `.` path parts go.
pub open spec fn resolve_url(s: Seq<char>) -> Seq<char> {
    let i = find_char(s, ':', 0);
    let path = s.subrange(i + 1, s.len() as int);
    let end = if find_char(path, '?', 0) < find_char(path, '#', 0) {
        find_char(path, '?', 0)
    } else {
        find_char(path, '#', 0)
    };
    let pathname = path.subrange(0, end);
    let start = if pathname.len() >= 2 && pathname[0] == '/' && pathname[1] == '/' {
        find_char(pathname, '/', 2)
    } else {
        0
    };
    let parts = split_on(path.subrange(start, end), '/');
    s.subrange(0, i + 1) + path.subrange(0, start) + join_with(parts.filter(not_dot()), '/')
        + path.subrange(end, path.len() as int)
}

/// Path components of `s` after the root: empty and `.` parts are skipped,
/// except a leading `.` of a relative path, which stays as its own component.
pub open spec fn component_names(s: Seq<char>) -> Seq<Seq<char>> {
    let parts = split_on(s, '/');
    if parts[0] == dot() {
        seq![dot()] + parts.drop_first().filter(named_part())
    } else {
        parts.filter(named_part())
    }
}

/// A file source resolved against `directory`, relative to `root`.
pub open spec fn resolve_file(root: Seq<char>, directory: Seq<char>, s: Seq<char>) -> Seq<char> {
    let target_abs = if is_absolute(s) { true } else { is_absolute(directory) };
    let target = joined_names(directory, s);
    let root_abs = is_absolute(root);
    let root_names = component_names(root);
    if !(root_abs && target_abs) && !(!root_abs && !target_abs && common_prefix(root_names, target) > 0) {
        forward_slashes(if target_abs { seq!['/'] + join_with(target, '/') } else { join_with(target, '/') })
    } else {
        let shared = common_prefix(root_names, target);
        let rel = parents((root_names.len() - shared) as nat) + target.subrange(shared, target.len() as int);
        if rel.len() == 0 {
            dot()
        } else {
            forward_slashes(join_with(rel, '/'))
        }
    }
}

/// The identity of a source name as the report shows it.
pub open spec fn resolved_source(root: Seq<char>, directory: Seq<char>, source: Seq<char>) -> Seq<char> {
    if source == unmapped_name() {
        source
    } else {
        let s = forward_slashes(source);
        if has_scheme(s) {
            resolve_url(s)
        } else {
            resolve_file(root, directory, s)
        }
    }
}


/// Character views of a list of parts.
pub open spec fn views(v: Seq<Vec<char>>) -> Seq<Seq<char>> {
    v.map_values(|x: Vec<char>| x@)
}

pub proof fn lemma_find_char(s: Seq<char>, c: char, from: int)
    requires
        0 <= from <= s.len(),
    ensures
        from <= find_char(s, c, from) <= s.len(),
        forall|k: int| from <= k < find_char(s, c, from) ==> s[k] != c,
        find_char(s, c, from) < s.len() ==> s[find_char(s, c, from)] == c,
    decreases s.len() - from,
{
    if from < s.len() && s[from] != c {
        lemma_find_char(s, c, from + 1);
    }
}

proof fn lemma_find_char_suffix(s: Seq<char>, c: char, a: int, j: int)
    requires
        0 <= a <= s.len(),
        0 <= j,
    ensures
        find_char(s.subrange(a, s.len() as int), c, j) == if a + j >= s.len() {
            s.len() - a
        } else {
            find_char(s, c, a + j) - a
        },
    decreases s.len() - a - j,
{
    let t = s.subrange(a, s.len() as int);
    if a + j < s.len() {
        assert(t[j] == s[a + j]);
    }
    if a + j < s.len() && t[j] != c {
        lemma_find_char_suffix(s, c, a, j + 1);
        assert(find_char(t, c, j) == find_char(t, c, j + 1));
        assert(find_char(s, c, a + j) == find_char(s, c, a + j + 1));
        if a + j + 1 >= s.len() {
            assert(find_char(s, c, a + j + 1) == s.len());
        }
    }
}

/// The first index at or after `from` holding `c`, or the length.
pub fn find_from(s: &Vec<char>, c: char, from: usize) -> (r: usize)
    requires
        from <= s@.len(),
    ensures
        r == find_char(s@, c, from as int),
{
    let mut k = from;
    while k < s.len() && s[k] != c
        invariant
            from <= k <= s@.len(),
            find_char(s@, c, k as int) == find_char(s@, c, from as int),
        decreases s@.len() - k,
    {
        k = k + 1;
    }
    k
}

/// Splits at every `c`.
pub fn split_chars(s: &Vec<char>, c: char) -> (r: Vec<Vec<char>>)
    ensures
        views(r@) == split_on(s@, c),
{
    let len = s.len();
    let mut done: Vec<Vec<char>> = Vec::new();
    let mut start: usize = 0;
    proof {
        assert(s@.subrange(0, len as int) =~= s@);
        assert(views(done@) + split_on(s@, c) =~= split_on(s@, c));
    }
    loop
        invariant
            len == s@.len(),
            start <= len,
            split_on(s@, c) == views(done@) + split_on(s@.subrange(start as int, len as int), c),
        decreases len - start,
    {
        let i = find_from(s, c, start);
        let ghost t = s@.subrange(start as int, len as int);
        proof {
            lemma_find_char(s@, c, start as int);
            lemma_find_char_suffix(s@, c, start as int, 0);
        }
        let part = slice_chars(s, start, i);
        proof {
            assert(views(done@.push(part)) =~= views(done@).push(part@));
        }
        if i == len {
            proof {
                assert(part@ =~= t);
                assert(split_on(t, c) == seq![t]);
            }
            done.push(part);
            proof {
                assert(views(done@) =~= split_on(s@, c));
            }
            return done;
        }
        proof {
            assert(t.subrange(0, i - start) =~= part@);
            assert(t.subrange(i - start + 1, t.len() as int) =~= s@.subrange(i + 1, len as int));
            assert(split_on(t, c) == seq![part@] + split_on(s@.subrange(i + 1, len as int), c));
            assert(views(done@) + split_on(t, c) =~= views(done@).push(part@) + split_on(
                s@.subrange(i + 1, len as int),
                c,
            ));
        }
        done.push(part);
        start = i + 1;
    }
}

/// Joins parts with `c` between them.
pub fn join_chars(parts: &Vec<Vec<char>>, c: char) -> (r: Vec<char>)
    ensures
        r@ == join_with(views(parts@), c),
{
    let mut out: Vec<char> = Vec::new();
    for i in 0..parts.len()
        invariant
            out@ == join_with(views(parts@).take(i as int), c),
    {
        let ghost before = views(parts@).take(i as int);
        let ghost after = views(parts@).take(i + 1);
        proof {
            assert(after.drop_last() =~= before);
            assert(after.last() == parts@[i as int]@);
            if i == 0 {
                assert(before =~= Seq::<Seq<char>>::empty());
            }
        }
        if i > 0 {
            out.push(c);
        }
        extend_chars(&mut out, &parts[i]);
        proof {
            if i == 0 {
                assert(out@ =~= after[0]);
            } else {
                assert(out@ =~= join_with(before, c) + seq![c] + after.last());
            }
        }
    }
    proof {
        assert(views(parts@).take(parts@.len() as int) =~= views(parts@));
    }
    out
}


fn is_dot(p: &Vec<char>) -> (r: bool)
    ensures
        r == (p@ == dot()),
{
    let r = p.len() == 1 && p[0] == '.';
    proof {
        if r {
            assert(p@ =~= dot());
        }
    }
    r
}

fn is_dot_dot(p: &Vec<char>) -> (r: bool)
    ensures
        r == (p@ == dot_dot()),
{
    let r = p.len() == 2 && p[0] == '.' && p[1] == '.';
    proof {
        if r {
            assert(p@ =~= dot_dot());
        }
    }
    r
}

proof fn lemma_filter_step(parts: Seq<Seq<char>>, f: spec_fn(Seq<char>) -> bool, i: int)
    requires
        0 <= i < parts.len(),
    ensures
        parts.take(i + 1).filter(f) == if f(parts[i]) {
            parts.take(i).filter(f).push(parts[i])
        } else {
            parts.take(i).filter(f)
        },
{
    reveal(Seq::filter);
    assert(parts.take(i + 1).drop_last() =~= parts.take(i));
}

/// The parts from `from` on that pass the filter: `.` always goes, an empty
/// part goes where `names_only` is set.
fn keep_parts(parts: &Vec<Vec<char>>, from: usize, names_only: bool) -> (r: Vec<Vec<char>>)
    requires
        from <= parts@.len(),
    ensures
        views(r@) == views(parts@).subrange(from as int, parts@.len() as int).filter(
            if names_only { named_part() } else { not_dot() },
        ),
{
    let ghost f = if names_only { named_part() } else { not_dot() };
    let ghost all = views(parts@).subrange(from as int, parts@.len() as int);
    let mut kept: Vec<Vec<char>> = Vec::new();
    let mut i = from;
    proof {
        reveal(Seq::filter);
        assert(all.take(0) =~= Seq::<Seq<char>>::empty());
        assert(views(kept@) =~= all.take(0).filter(f));
    }
    while i < parts.len()
        invariant
            from <= i <= parts@.len(),
            all == views(parts@).subrange(from as int, parts@.len() as int),
            f == (if names_only { named_part() } else { not_dot() }),
            views(kept@) == all.take(i - from).filter(f),
        decreases parts@.len() - i,
    {
        let p = &parts[i];
        proof {
            lemma_filter_step(all, f, i - from);
            assert(all[i - from] == p@);
        }
        let keep = !is_dot(p) && (!names_only || p.len() > 0);
        if keep {
            let q = p.clone();
            proof {
                assert(q@ == p@);
            }
            kept.push(q);
            proof {
                assert(views(kept@) =~= views(kept@).drop_last().push(p@));
                assert(views(kept@).drop_last() =~= all.take(i - from).filter(f));
            }
        }
        i = i + 1;
    }
    proof {
        assert(all.take(i - from) =~= all);
    }
    kept
}


/// Normalizes `parts` onto `acc`.
fn normalize_onto(acc: Vec<Vec<char>>, parts: &Vec<Vec<char>>) -> (r: Vec<Vec<char>>)
    ensures
        views(r@) == norm_from(views(acc@), views(parts@)),
{
    let mut acc = acc;
    let ghost goal = norm_from(views(acc@), views(parts@));
    let mut i: usize = 0;
    proof {
        assert(views(parts@).subrange(0, parts@.len() as int) =~= views(parts@));
    }
    while i < parts.len()
        invariant
            i <= parts@.len(),
            goal == norm_from(views(acc@), views(parts@).subrange(i as int, parts@.len() as int)),
        decreases parts@.len() - i,
    {
        let ghost rest = views(parts@).subrange(i as int, parts@.len() as int);
        let ghost before = views(acc@);
        let p = &parts[i];
        proof {
            assert(rest[0] == p@);
            assert(rest.drop_first() =~= views(parts@).subrange(i + 1, parts@.len() as int));
        }
        if p.len() == 0 || is_dot(p) {
        } else if is_dot_dot(p) {
            if acc.len() > 0 {
                acc.pop();
                proof {
                    assert(views(acc@) =~= before.drop_last());
                }
            }
        } else {
            acc.push(p.clone());
            proof {
                assert(views(acc@) =~= before.push(p@));
            }
        }
        i = i + 1;
    }
    proof {
        assert(views(parts@).subrange(i as int, parts@.len() as int) =~= Seq::<Seq<char>>::empty());
    }
    acc
}

/// The length of the common prefix of two part lists.
pub fn shared_prefix(a: &Vec<Vec<char>>, b: &Vec<Vec<char>>) -> (r: usize)
    ensures
        r == common_prefix(views(a@), views(b@)),
{
    let mut i: usize = 0;
    proof {
        assert(views(a@).subrange(0, a@.len() as int) =~= views(a@));
        assert(views(b@).subrange(0, b@.len() as int) =~= views(b@));
    }
    loop
        invariant
            i <= a@.len(),
            i <= b@.len(),
            common_prefix(views(a@), views(b@)) == i + common_prefix(
                views(a@).subrange(i as int, a@.len() as int),
                views(b@).subrange(i as int, b@.len() as int),
            ),
        decreases a@.len() - i,
    {
        let ghost ra = views(a@).subrange(i as int, a@.len() as int);
        let ghost rb = views(b@).subrange(i as int, b@.len() as int);
        if i == a.len() || i == b.len() {
            return i;
        }
        proof {
            assert(ra[0] == a@[i as int]@);
            assert(rb[0] == b@[i as int]@);
        }
        if !same_chars(&a[i], &b[i]) {
            return i;
        }
        proof {
            assert(ra.drop_first() =~= views(a@).subrange(i + 1, a@.len() as int));
            assert(rb.drop_first() =~= views(b@).subrange(i + 1, b@.len() as int));
        }
        i = i + 1;
    }
}

/// `n` parent parts.
fn parent_parts(n: usize) -> (r: Vec<Vec<char>>)
    ensures
        views(r@) == parents(n as nat),
{
    let mut out: Vec<Vec<char>> = Vec::new();
    proof {
        assert(views(out@) =~= parents(0));
    }
    for i in 0..n
        invariant
            views(out@) == parents(i as nat),
    {
        let up = vec!['.', '.'];
        proof {
            assert(up@ =~= dot_dot());
        }
        out.push(up);
        proof {
            assert(views(out@) =~= parents(i as nat).push(dot_dot()));
        }
    }
    out
}

fn is_scheme_char_exec(c: char) -> (r: bool)
    ensures
        r == is_scheme_char(c),
{
    ('a' <= c && c <= 'z') || ('A' <= c && c <= 'Z') || ('0' <= c && c <= '9') || c == '+' || c == '-'
        || c == '.'
}

fn has_scheme_exec(s: &Vec<char>) -> (r: bool)
    ensures
        r == has_scheme(s@),
{
    let i = find_from(s, ':', 0);
    if i >= s.len() || i == 0 {
        return false;
    }
    let c = s[0];
    if !(('a' <= c && c <= 'z') || ('A' <= c && c <= 'Z')) {
        return false;
    }
    for k in 0..i
        invariant
            i == find_char(s@, ':', 0),
            0 < i < s@.len(),
            forall|j: int| 0 <= j < k ==> is_scheme_char(#[trigger] s@[j]),
    {
        if !is_scheme_char_exec(s[k]) {
            return false;
        }
    }
    true
}


fn forward(v: &Vec<char>) -> (r: Vec<char>)
    ensures
        r@ == forward_slashes(v@),
{
    let mut r: Vec<char> = Vec::new();
    for i in 0..v.len()
        invariant
            r@ == forward_slashes(v@.take(i as int)),
    {
        r.push(if v[i] == '\\' { '/' } else { v[i] });
        proof {
            assert(v@.take(i + 1) == v@.take(i as int).push(v@[i as int]));
            assert(r@ =~= forward_slashes(v@.take(i + 1)));
        }
    }
    proof {
        assert(v@.take(v@.len() as int) == v@);
    }
    r
}

fn resolve_url_exec(s: &Vec<char>) -> (r: Vec<char>)
    requires
        has_scheme(s@),
    ensures
        r@ == resolve_url(s@),
{
    let len = s.len();
    let i = find_from(s, ':', 0);
    let path = slice_chars(s, i + 1, len);
    let q = find_from(&path, '?', 0);
    let h = find_from(&path, '#', 0);
    proof {
        lemma_find_char(path@, '?', 0);
        lemma_find_char(path@, '#', 0);
    }
    let end = if q < h { q } else { h };
    let pathname = slice_chars(&path, 0, end);
    let start = if pathname.len() >= 2 && pathname[0] == '/' && pathname[1] == '/' {
        proof {
            lemma_find_char(pathname@, '/', 2);
        }
        find_from(&pathname, '/', 2)
    } else {
        0
    };
    let mid = slice_chars(&path, start, end);
    let parts = split_chars(&mid, '/');
    let kept = keep_parts(&parts, 0, false);
    proof {
        assert(views(parts@).subrange(0, parts@.len() as int) =~= views(parts@));
    }
    let joined = join_chars(&kept, '/');
    let mut out = slice_chars(s, 0, i + 1);
    extend_chars(&mut out, &slice_chars(&path, 0, start));
    extend_chars(&mut out, &joined);
    extend_chars(&mut out, &slice_chars(&path, end, path.len()));
    out
}

pub proof fn lemma_split_nonempty(s: Seq<char>, c: char)
    ensures
        split_on(s, c).len() >= 1,
{
    let i = find_char(s, c, 0);
    if 0 <= i < s.len() {
        assert(split_on(s, c) == seq![s.subrange(0, i)] + split_on(s.subrange(i + 1, s.len() as int), c));
    }
}

pub fn component_parts(s: &Vec<char>) -> (r: Vec<Vec<char>>)
    ensures
        views(r@) == component_names(s@),
{
    let parts = split_chars(s, '/');
    proof {
        lemma_split_nonempty(s@, '/');
    }
    if is_dot(&parts[0]) {
        let mut r: Vec<Vec<char>> = Vec::new();
        r.push(vec!['.']);
        let rest = keep_parts(&parts, 1, true);
        let ghost first = r@;
        r.append(&mut rest.clone());
        proof {
            assert(first[0]@ =~= dot());
            assert(views(parts@).drop_first() =~= views(parts@).subrange(1, parts@.len() as int));
            assert(views(r@) =~= seq![dot()] + views(rest@));
        }
        r
    } else {
        let r = keep_parts(&parts, 0, true);
        proof {
            assert(views(parts@).subrange(0, parts@.len() as int) =~= views(parts@));
        }
        r
    }
}

/// Appends the parts of `parts` from `from` on.
pub fn append_parts(out: &mut Vec<Vec<char>>, parts: &Vec<Vec<char>>, from: usize)
    requires
        from <= parts@.len(),
    ensures
        views(final(out)@) == views(old(out)@) + views(parts@).subrange(from as int, parts@.len() as int),
{
    let mut i = from;
    while i < parts.len()
        invariant
            from <= i <= parts@.len(),
            views(out@) == views(old(out)@) + views(parts@).subrange(from as int, i as int),
        decreases parts@.len() - i,
    {
        let ghost before = views(out@);
        out.push(parts[i].clone());
        proof {
            assert(views(out@) =~= before.push(parts@[i as int]@));
            assert(views(parts@).subrange(from as int, i + 1) =~= views(parts@).subrange(from as int, i as int).push(
                parts@[i as int]@,
            ));
        }
        i = i + 1;
    }
}


fn resolve_file_exec(root: &Vec<char>, directory: &Vec<char>, s: &Vec<char>) -> (r: Vec<char>)
    ensures
        r@ == resolve_file(root@, directory@, s@),
{
    let source_abs = s.len() > 0 && s[0] == '/';
    let directory_abs = directory.len() > 0 && directory[0] == '/';
    let target_abs = source_abs || directory_abs;
    let target = if source_abs {
        normalize_onto(Vec::new(), &split_chars(s, '/'))
    } else {
        normalize_onto(normalize_onto(Vec::new(), &split_chars(directory, '/')), &split_chars(s, '/'))
    };
    proof {
        assert(views(Seq::<Vec<char>>::empty()) =~= Seq::<Seq<char>>::empty());
        assert(views(target@) == joined_names(directory@, s@));
    }
    let root_abs = root.len() > 0 && root[0] == '/';
    let root_names = component_parts(root);
    let shared = shared_prefix(&root_names, &target);
    if !(root_abs && target_abs) && !(!root_abs && !target_abs && shared > 0) {
        let joined = join_chars(&target, '/');
        if target_abs {
            let mut out = vec!['/'];
            extend_chars(&mut out, &joined);
            forward(&out)
        } else {
            forward(&joined)
        }
    } else {
        proof {
            lemma_common_prefix_bound(views(root_names@), views(target@));
        }
        let mut rel = parent_parts(root_names.len() - shared);
        append_parts(&mut rel, &target, shared);
        if rel.len() == 0 {
            let r = vec!['.'];
            proof {
                assert(r@ =~= dot());
            }
            r
        } else {
            forward(&join_chars(&rel, '/'))
        }
    }
}

pub proof fn lemma_common_prefix_bound(a: Seq<Seq<char>>, b: Seq<Seq<char>>)
    ensures
        0 <= common_prefix(a, b) <= a.len(),
        common_prefix(a, b) <= b.len(),
    decreases a.len(),
{
    if !(a.len() == 0 || b.len() == 0 || a[0] != b[0]) {
        lemma_common_prefix_bound(a.drop_first(), b.drop_first());
    }
}

impl SourcePaths {
    /// The identity of `source`: `[unmapped]` as it is; a URL with its scheme,
    /// authority, query and fragment kept and only `.` path parts removed; a
    /// file path joined to the map's directory, normalized, and made relative
    /// to the root where they share a prefix.
    pub fn resolve(&self, source: &str) -> (r: String)
        ensures
            r@ == resolved_source(self.root@, self.directory@, source@),
    {
        let src = chars_of(source);
        if same_chars(&src, &unmapped_chars()) {
            return string_of(&src);
        }
        let s = forward(&src);
        if has_scheme_exec(&s) {
            string_of(&resolve_url_exec(&s))
        } else {
            string_of(&resolve_file_exec(&chars_of(self.root.as_str()), &chars_of(self.directory.as_str()), &s))
        }
    }
}


/// A path with `.` and empty parts removed and `..` applied lexically
/// (never above the root or the start of a relative path).
pub open spec fn normalized_path(p: Seq<char>) -> Seq<char> {
    if is_absolute(p) {
        seq!['/'] + join_with(path_names(p), '/')
    } else {
        join_with(path_names(p), '/')
    }
}

/// Lexical normalization of a slash-separated path.
pub fn normalize(path: &str) -> (r: String)
    ensures
        r@ == normalized_path(path@),
{
    let chars = chars_of(path);
    let names = normalize_onto(Vec::new(), &split_chars(&chars, '/'));
    proof {
        assert(views(Seq::<Vec<char>>::empty()) =~= Seq::<Seq<char>>::empty());
    }
    let joined = join_chars(&names, '/');
    if chars.len() > 0 && chars[0] == '/' {
        let mut out = vec!['/'];
        extend_chars(&mut out, &joined);
        string_of(&out)
    } else {
        string_of(&joined)
    }
}

} // verus!
