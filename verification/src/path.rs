//! Paths as strings with `'/'` as the separator, read as Unix reads them:
//! the file name, its extension, joining and replacing the extension.
use vstd::prelude::*;
use crate::text::{chars_of, last_index_in, last_index_of, lemma_last_index_of};

verus! {

/// The path without its trailing separators and trailing `.` components
/// (`"a/b/./"` becomes `"a/b"`), which name nothing of their own.
pub open spec fn trim_trailing(p: Seq<char>) -> Seq<char>
    decreases p.len(),
{
    if p.len() > 0 && p.last() == '/' {
        trim_trailing(p.drop_last())
    } else if p.len() >= 2 && p.last() == '.' && p[p.len() - 2] == '/' {
        trim_trailing(p.drop_last())
    } else {
        p
    }
}

/// Where the last component of `q` starts: right after its last separator.
pub open spec fn name_start(q: Seq<char>) -> int {
    match last_index_of(q, '/') {
        Some(i) => i + 1,
        None => 0,
    }
}

/// The last component of the path once trailing separators and `.` are gone.
pub open spec fn last_component(p: Seq<char>) -> Seq<char> {
    let q = trim_trailing(p);
    q.subrange(name_start(q), q.len() as int)
}

/// The file name of a path: its last component, unless that is empty (the
/// root or an empty path), `.` or `..`.
pub open spec fn file_name(p: Seq<char>) -> Option<Seq<char>> {
    let n = last_component(p);
    if n.len() == 0 || n == seq!['.'] || n == seq!['.', '.'] {
        None
    } else {
        Some(n)
    }
}

/// How much of the file name `n` is its stem: up to its last `.`, unless that
/// dot is its first character or it has none.
pub open spec fn stem_len(n: Seq<char>) -> int {
    match last_index_of(n, '.') {
        Some(i) => if i > 0 {
            i
        } else {
            n.len() as int
        },
        None => n.len() as int,
    }
}

/// The extension of a path: what follows the last `.` of its file name, where
/// that dot is not the file name's first character.
pub open spec fn extension(p: Seq<char>) -> Option<Seq<char>> {
    match file_name(p) {
        Some(n) => match last_index_of(n, '.') {
            Some(i) => if i > 0 {
                Some(n.subrange(i + 1, n.len() as int))
            } else {
                None
            },
            None => None,
        },
        None => None,
    }
}

/// The path with the extension of its file name replaced by `e` (removed where
/// `e` is empty); everything after the file name's stem is dropped. A path
/// without a file name stays as it is.
pub open spec fn with_extension(p: Seq<char>, e: Seq<char>) -> Seq<char> {
    match file_name(p) {
        None => p,
        Some(n) => {
            let base = p.take(name_start(trim_trailing(p)) + stem_len(n));
            if e.len() == 0 {
                base
            } else {
                base + seq!['.'] + e
            }
        },
    }
}

/// `name` appended to `dir` as a further component; an absolute `name`
/// replaces `dir`.
pub open spec fn join(dir: Seq<char>, name: Seq<char>) -> Seq<char> {
    if name.len() > 0 && name[0] == '/' {
        name
    } else if dir.len() > 0 && dir.last() != '/' {
        dir + seq!['/'] + name
    } else {
        dir + name
    }
}

/// The view of an optional string.
pub open spec fn opt_view(o: Option<String>) -> Option<Seq<char>> {
    match o {
        Some(s) => Some(s@),
        None => None,
    }
}

/// Trimming keeps a prefix of the path.
proof fn lemma_trim_is_prefix(p: Seq<char>)
    ensures
        trim_trailing(p).len() <= p.len(),
        trim_trailing(p) == p.take(trim_trailing(p).len() as int),
    decreases p.len(),
{
    if (p.len() > 0 && p.last() == '/') || (p.len() >= 2 && p.last() == '.' && p[p.len() - 2]
        == '/') {
        lemma_trim_is_prefix(p.drop_last());
        assert(p.drop_last().take(trim_trailing(p).len() as int) =~= p.take(
            trim_trailing(p).len() as int,
        ));
    } else {
        assert(p.take(p.len() as int) =~= p);
    }
}

/// The length of `trim_trailing(v@)`.
fn trimmed_len(v: &Vec<char>) -> (r: usize)
    ensures
        r <= v.len(),
        trim_trailing(v@) == v@.take(r as int),
{
    let mut end: usize = v.len();
    assert(v@.take(end as int) =~= v@);
    while end > 0 && (v[end - 1] == '/' || (end >= 2 && v[end - 1] == '.' && v[end - 2] == '/'))
        invariant
            end <= v.len(),
            trim_trailing(v@) == trim_trailing(v@.take(end as int)),
        decreases end,
    {
        assert(v@.take(end as int).drop_last() =~= v@.take(end - 1));
        end = end - 1;
    }
    end
}

/// Where the file name of `v@` starts and ends, if it has one.
fn name_bounds(v: &Vec<char>) -> (r: Option<(usize, usize)>)
    ensures
        match r {
            Some((s, e)) => {
                &&& s <= e <= v.len()
                &&& file_name(v@) == Some(v@.subrange(s as int, e as int))
                &&& s == name_start(trim_trailing(v@))
                &&& e == trim_trailing(v@).len()
            },
            None => file_name(v@) is None,
        },
{
    let e: usize = trimmed_len(v);
    let s: usize = match last_index_in(v, e, '/') {
        Some(i) => i + 1,
        None => 0,
    };
    let ghost q = v@.take(e as int);
    proof {
        lemma_last_index_of(q, '/');
    }
    let ghost n = q.subrange(s as int, e as int);
    assert(n =~= v@.subrange(s as int, e as int));
    let len: usize = e - s;
    if len == 0 {
        return None;
    }
    if len == 1 && v[s] == '.' {
        assert(n =~= seq!['.']);
        return None;
    }
    if len == 2 && v[s] == '.' && v[s + 1] == '.' {
        assert(n =~= seq!['.', '.']);
        return None;
    }
    assert(n != seq!['.']) by {
        if n == seq!['.'] {
            assert(n[0] == '.');
        }
    }
    assert(n != seq!['.', '.']) by {
        if n == seq!['.', '.'] {
            assert(n[0] == '.' && n[1] == '.');
        }
    }
    Some((s, e))
}

/// The file name of `path` (see `file_name`).
pub fn file_name_of(path: &str) -> (r: Option<String>)
    ensures
        opt_view(r) == file_name(path@),
{
    let v = chars_of(path);
    match name_bounds(&v) {
        Some((s, e)) => Some(String::from_str(path.substring_char(s, e))),
        None => None,
    }
}

/// The extension of `path` (see `extension`).
pub fn extension_of(path: &str) -> (r: Option<String>)
    ensures
        opt_view(r) == extension(path@),
{
    match file_name_of(path) {
        Some(name) => {
            let nv = chars_of(name.as_str());
            assert(nv@.take(nv.len() as int) =~= nv@);
            let found = last_index_in(&nv, nv.len(), '.');
            match found {
                Some(i) => {
                    assert(last_index_of(nv@, '.') == Some(i as int));
                    if i > 0 {
                        let ext = String::from_str(name.as_str().substring_char(i + 1, nv.len()));
                        assert(ext@ =~= nv@.subrange(i + 1, nv@.len() as int));
                        Some(ext)
                    } else {
                        None
                    }
                },
                None => {
                    assert(last_index_of(nv@, '.') is None);
                    None
                },
            }
        },
        None => None,
    }
}

/// `path` with the extension of its file name replaced by `ext` (see
/// `with_extension`).
pub fn with_extension_of(path: &str, ext: &str) -> (r: String)
    ensures
        r@ == with_extension(path@, ext@),
{
    let v = chars_of(path);
    match name_bounds(&v) {
        Some((s, e)) => {
            let ghost n = v@.subrange(s as int, e as int);
            let nv = chars_of(path.substring_char(s, e));
            assert(nv@ =~= n);
            assert(nv@.take(nv.len() as int) =~= nv@);
            let found = last_index_in(&nv, nv.len(), '.');
            let stem: usize = match found {
                Some(i) => {
                    assert(last_index_of(n, '.') == Some(i as int));
                    if i > 0 {
                        i
                    } else {
                        nv.len()
                    }
                },
                None => {
                    assert(last_index_of(n, '.') is None);
                    nv.len()
                },
            };
            assert(stem as int == stem_len(n));
            let mut r = String::from_str(path.substring_char(0, s + stem));
            if ext.unicode_len() > 0 {
                r.append(".");
                r.append(ext);
                proof {
                    reveal_strlit(".");
                }
            }
            assert(r@ =~= with_extension(path@, ext@));
            r
        },
        None => String::from_str(path),
    }
}

/// `name` joined onto `dir` (see `join`).
pub fn join_path(dir: &str, name: &str) -> (r: String)
    ensures
        r@ == join(dir@, name@),
{
    let nl: usize = name.unicode_len();
    if nl > 0 && name.get_char(0) == '/' {
        return String::from_str(name);
    }
    let dl: usize = dir.unicode_len();
    let mut r = String::from_str(dir);
    if dl > 0 && dir.get_char(dl - 1) != '/' {
        r.append("/");
        proof {
            reveal_strlit("/");
        }
    }
    r.append(name);
    assert(r@ =~= join(dir@, name@));
    r
}

/// Characters after the last `c` add nothing to where it stands.
proof fn lemma_last_index_append(a: Seq<char>, b: Seq<char>, c: char)
    requires
        forall|i: int| 0 <= i < b.len() ==> b[i] != c,
    ensures
        last_index_of(a + b, c) == last_index_of(a, c),
    decreases b.len(),
{
    if b.len() == 0 {
        assert(a + b =~= a);
    } else {
        assert((a + b).drop_last() =~= a + b.drop_last());
        assert((a + b).last() == b.last());
        lemma_last_index_append(a, b.drop_last(), c);
    }
}

/// A sequence that ends in `c` has its last `c` at its end.
proof fn lemma_last_index_at_end(a: Seq<char>, c: char)
    requires
        a.len() > 0,
        a.last() == c,
    ensures
        last_index_of(a, c) == Some(a.len() - 1),
{
}

/// A file name is not empty, not `.` nor `..`, and holds no separator.
pub proof fn lemma_file_name_shape(p: Seq<char>)
    ensures
        file_name(p) matches Some(n) ==> is_plain_name(n),
{
    let q = trim_trailing(p);
    lemma_last_index_of(q, '/');
    if let Some(n) = file_name(p) {
        assert forall|i: int| 0 <= i < n.len() implies n[i] != '/' by {
            assert(n[i] == q[name_start(q) + i]);
        }
    }
}

/// The directory part that `join` puts before a plain name: the directory,
/// with a separator added where it has none at its end.
pub open spec fn join_prefix(dir: Seq<char>) -> Seq<char> {
    if dir.len() > 0 && dir.last() != '/' {
        dir + seq!['/']
    } else {
        dir
    }
}

/// A plain name: not empty, not `.` or `..`, without separators.
pub open spec fn is_plain_name(name: Seq<char>) -> bool {
    &&& name.len() > 0
    &&& name != seq!['.']
    &&& name != seq!['.', '.']
    &&& forall|i: int| 0 <= i < name.len() ==> name[i] != '/'
}

/// How a plain name joined onto a directory lies in the result.
proof fn lemma_join_parts(dir: Seq<char>, name: Seq<char>)
    requires
        is_plain_name(name),
    ensures
        join(dir, name) == join_prefix(dir) + name,
        trim_trailing(join(dir, name)) == join(dir, name),
        name_start(join(dir, name)) == join_prefix(dir).len(),
{
    let pre = join_prefix(dir);
    let j = join(dir, name);
    assert(j =~= pre + name);
    assert(j.last() == name.last());
    if name.last() == '.' {
        assert(name.len() >= 2) by {
            if name.len() == 1 {
                assert(name =~= seq!['.']);
            }
        }
        assert(j[j.len() - 2] == name[name.len() - 2]);
    }
    assert(trim_trailing(j) == j);
    lemma_last_index_append(pre, name, '/');
    if pre.len() > 0 {
        lemma_last_index_at_end(pre, '/');
    }
}

/// Joining a plain name onto any directory gives a path whose file name is
/// that name.
pub proof fn law_join_file_name(dir: Seq<char>, name: Seq<char>)
    requires
        is_plain_name(name),
    ensures
        file_name(join(dir, name)) == Some(name),
{
    lemma_join_parts(dir, name);
    let j = join(dir, name);
    let pre = join_prefix(dir);
    assert(j.subrange(pre.len() as int, j.len() as int) =~= name);
}

/// Replacing the extension of a plain name joined onto a directory is joining
/// the name's stem with the new extension onto it.
pub proof fn law_with_extension_of_join(dir: Seq<char>, name: Seq<char>, e: Seq<char>)
    requires
        is_plain_name(name),
        e.len() > 0,
    ensures
        with_extension(join(dir, name), e) == join(dir, name.take(stem_len(name)) + seq!['.'] + e),
{
    lemma_join_parts(dir, name);
    law_join_file_name(dir, name);
    lemma_last_index_of(name, '.');
    let pre = join_prefix(dir);
    let j = join(dir, name);
    let st: int = stem_len(name);
    assert(1 <= st <= name.len());
    let tail = name.take(st) + seq!['.'] + e;
    assert(tail[0] == name[0]);
    assert(j.take(pre.len() + st) =~= pre + name.take(st));
    assert(with_extension(j, e) =~= pre + tail);
    assert(join(dir, tail) =~= pre + tail);
}

/// Giving a path that has a file name a non-empty extension free of dots and
/// separators makes that the path's extension.
pub proof fn law_extension_of_with_extension(p: Seq<char>, e: Seq<char>)
    requires
        file_name(p) is Some,
        e.len() > 0,
        forall|i: int| 0 <= i < e.len() ==> e[i] != '.' && e[i] != '/',
    ensures
        extension(with_extension(p, e)) == Some(e),
        file_name(with_extension(p, e)) == Some(
            file_name(p)->0.take(stem_len(file_name(p)->0)) + seq!['.'] + e,
        ),
{
    let q = trim_trailing(p);
    lemma_trim_is_prefix(p);
    lemma_last_index_of(q, '/');
    let s: int = name_start(q);
    let n = q.subrange(s, q.len() as int);
    lemma_file_name_shape(p);
    lemma_last_index_of(n, '.');
    let st: int = stem_len(n);
    assert(1 <= st <= n.len());
    let base = p.take(s + st);
    assert(base =~= q.take(s) + n.take(st));
    let tail = seq!['.'] + e;
    let r = with_extension(p, e);
    assert(r =~= base + tail);
    // the new path ends in the extension, so nothing is trimmed
    assert(r.last() == e.last());
    assert(trim_trailing(r) == r);
    // the file name starts where it started
    assert forall|i: int| 0 <= i < tail.len() implies tail[i] != '/' by {
        if i > 0 {
            assert(tail[i] == e[i - 1]);
        }
    }
    assert forall|i: int| 0 <= i < n.take(st).len() implies n.take(st)[i] != '/' by {
        assert(n.take(st)[i] == n[i]);
    }
    lemma_last_index_append(base, tail, '/');
    lemma_last_index_append(q.take(s), n.take(st), '/');
    if s > 0 {
        assert(q.take(s).last() == '/');
        lemma_last_index_at_end(q.take(s), '/');
    } else {
        assert(q.take(s) =~= Seq::<char>::empty());
    }
    assert(name_start(r) == s);
    let n2 = r.subrange(s, r.len() as int);
    assert(n2 =~= n.take(st) + tail);
    assert(n2.last() == e.last());
    assert(n2 != seq!['.']) by {
        if n2 == seq!['.'] {
            assert(n2.len() == 1);
        }
    }
    assert(n2 != seq!['.', '.']) by {
        if n2 == seq!['.', '.'] {
            assert(n2[1] == '.');
        }
    }
    assert(file_name(r) == Some(n2));
    // its last dot is the one before the extension
    assert forall|i: int| 0 <= i < e.len() implies e[i] != '.' by {}
    lemma_last_index_append(n.take(st) + seq!['.'], e, '.');
    assert(n2 =~= (n.take(st) + seq!['.']) + e);
    lemma_last_index_at_end(n.take(st) + seq!['.'], '.');
    assert(last_index_of(n2, '.') == Some(st));
    assert(n2.subrange(st + 1, n2.len() as int) =~= e);
}

} // verus!
