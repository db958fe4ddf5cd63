//! Paths as text: their components, file names and extensions, in the way a
//! Unix `std::path::Path` reads them.

use vstd::prelude::*;

use crate::shebang::is_prefix_of;
use crate::text::{chars_of, lowercase, string_from_chars, string_views, to_lowercase};

verus! {

/// The pieces of `s` between the occurrences of `c` (what `str::split` yields).
pub open spec fn split_on(s: Seq<char>, c: char) -> Seq<Seq<char>>
    decreases s.len(),
{
    if s.len() == 0 {
        seq![seq![]]
    } else {
        let prev = split_on(s.drop_last(), c);
        if s.last() == c {
            prev.push(seq![])
        } else {
            prev.update(prev.len() - 1, prev.last().push(s.last()))
        }
    }
}

/// A piece between separators that names a component: not empty and not `.`.
pub open spec fn is_named_segment(seg: Seq<char>) -> bool {
    seg.len() > 0 && seg != seq!['.']
}

/// The pieces that name components, in order.
pub open spec fn named_segments(segs: Seq<Seq<char>>) -> Seq<Seq<char>>
    decreases segs.len(),
{
    if segs.len() == 0 {
        seq![]
    } else {
        let prev = named_segments(segs.drop_last());
        if is_named_segment(segs.last()) {
            prev.push(segs.last())
        } else {
            prev
        }
    }
}

/// Whether the path starts at the root.
pub open spec fn has_root(s: Seq<char>) -> bool {
    s.len() > 0 && s[0] == '/'
}

/// Whether the path starts with a `.` component of its own.
pub open spec fn has_leading_cur_dir(s: Seq<char>) -> bool {
    s.len() > 0 && s[0] == '.' && (s.len() == 1 || s[1] == '/')
}

/// The components of a path, each written as text: `/` for the root, `.` for a
/// leading current directory, `..` for a parent directory, and the name for any
/// other. Repeated separators and inner `.` components are skipped.
pub open spec fn path_components(s: Seq<char>) -> Seq<Seq<char>> {
    (if has_root(s) {
        seq![seq!['/']]
    } else {
        seq![]
    }) + (if has_leading_cur_dir(s) {
        seq![seq!['.']]
    } else {
        seq![]
    }) + named_segments(split_on(s, '/'))
}

/// The final component of a path when it is a name (not the root, `.` or `..`).
pub open spec fn path_file_name(s: Seq<char>) -> Option<Seq<char>> {
    let c = path_components(s);
    if c.len() > 0 && c.last() != seq!['/'] && c.last() != seq!['.'] && c.last() != seq!['.', '.'] {
        Some(c.last())
    } else {
        None
    }
}

/// The index of the last occurrence of `c` in `s`.
pub open spec fn last_index_of(s: Seq<char>, c: char) -> Option<int>
    decreases s.len(),
{
    if s.len() == 0 {
        None
    } else if s.last() == c {
        Some(s.len() - 1)
    } else {
        last_index_of(s.drop_last(), c)
    }
}

/// The extension of a file name: the text after its last `.`, when that `.` is
/// not the first character.
pub open spec fn name_extension(name: Seq<char>) -> Option<Seq<char>> {
    match last_index_of(name, '.') {
        Some(j) => if j > 0 {
            Some(name.skip(j + 1))
        } else {
            None
        },
        None => None,
    }
}

/// The extension of a path's file name.
pub open spec fn path_extension(s: Seq<char>) -> Option<Seq<char>> {
    match path_file_name(s) {
        Some(n) => name_extension(n),
        None => None,
    }
}

/// The lower-cased extension of a path; a path of one component whose only `.`
/// is its first character (such as `.txt`) has the text after that dot as its
/// extension.
pub open spec fn lowercase_file_extension(s: Seq<char>) -> Option<Seq<char>> {
    match path_extension(s) {
        Some(e) => Some(lowercase(e)),
        None => if path_components(s).len() == 1 && last_index_of(s, '.') == Some(0int) {
            Some(lowercase(s.skip(1)))
        } else {
            None
        },
    }
}

/// The lower-cased file name of a path.
pub open spec fn lowercase_file_name(s: Seq<char>) -> Option<Seq<char>> {
    match path_file_name(s) {
        Some(n) => Some(lowercase(n)),
        None => None,
    }
}

/// The path that `PathBuf::push` (and so `Path::join`) makes of `base` and
/// `rel`: `rel` when it is absolute, else `base`, a separator when `base` is
/// non-empty and does not end in one, then `rel`.
pub open spec fn path_join(base: Seq<char>, rel: Seq<char>) -> Seq<char> {
    if has_root(rel) {
        rel
    } else if base.len() > 0 && base.last() != '/' {
        base + seq!['/'] + rel
    } else {
        base + rel
    }
}

/// Whether a path starts with another, component by component.
pub open spec fn path_starts_with(path: Seq<char>, base: Seq<char>) -> bool {
    is_prefix_of(path_components(base), path_components(path))
}

/// What `last_index_of` finds: an occurrence with none after it.
pub proof fn lemma_last_index_of(s: Seq<char>, c: char)
    ensures
        match last_index_of(s, c) {
            Some(j) => 0 <= j < s.len() && s[j] == c && forall|k: int|
                j < k < s.len() ==> s[k] != c,
            None => forall|k: int| 0 <= k < s.len() ==> s[k] != c,
        },
    decreases s.len(),
{
    if s.len() > 0 {
        lemma_last_index_of(s.drop_last(), c);
        if s.last() != c {
            assert forall|k: int| 0 <= k < s.len() - 1 implies s[k] == s.drop_last()[k] by {}
        }
    }
}

proof fn lemma_split_on_nonempty(s: Seq<char>, c: char)
    ensures
        split_on(s, c).len() >= 1,
    decreases s.len(),
{
    if s.len() > 0 {
        lemma_split_on_nonempty(s.drop_last(), c);
    }
}

proof fn lemma_split_on_append(p: Seq<char>, t: Seq<char>, c: char)
    requires
        forall|i: int| 0 <= i < t.len() ==> t[i] != c,
    ensures
        split_on(p + t, c) == split_on(p, c).update(
            split_on(p, c).len() - 1,
            split_on(p, c).last() + t,
        ),
    decreases t.len(),
{
    lemma_split_on_nonempty(p, c);
    if t.len() == 0 {
        assert(p + t =~= p);
        assert(split_on(p, c).last() + t =~= split_on(p, c).last());
        assert(split_on(p, c).update(split_on(p, c).len() - 1, split_on(p, c).last())
            =~= split_on(p, c));
    } else {
        let t1 = t.drop_last();
        lemma_split_on_append(p, t1, c);
        assert((p + t).drop_last() =~= p + t1);
        assert((p + t).last() == t.last());
        assert(t[t.len() - 1] != c);
        let sp = split_on(p, c);
        let prev = split_on(p + t1, c);
        assert(prev.last() == sp.last() + t1);
        assert(prev.last().push(t.last()) =~= sp.last() + t);
        assert(prev.update(prev.len() - 1, prev.last().push(t.last())) =~= sp.update(
            sp.len() - 1,
            sp.last() + t,
        ));
    }
}

proof fn lemma_last_index_after(a: Seq<char>, b: Seq<char>, c: char)
    requires
        forall|i: int| 0 <= i < b.len() ==> b[i] != c,
    ensures
        last_index_of(a + seq![c] + b, c) == Some(a.len() as int),
    decreases b.len(),
{
    let s = a + seq![c] + b;
    if b.len() == 0 {
        assert(s.last() == c);
    } else {
        let b1 = b.drop_last();
        lemma_last_index_after(a, b1, c);
        assert(s.drop_last() =~= a + seq![c] + b1);
        assert(s.last() == b[b.len() - 1]);
    }
}

/// Appending `.` and an extension to a path that does not end in a separator
/// gives a path with that extension, when the extension is not empty and holds
/// no `.` or `/`: the synthetic path of a shebang-routed file resolves by the
/// mapped extension.
pub proof fn lemma_appended_extension(path: Seq<char>, ext: Seq<char>)
    requires
        path.len() > 0,
        path.last() != '/',
        ext.len() > 0,
        forall|i: int| 0 <= i < ext.len() ==> ext[i] != '.' && ext[i] != '/',
    ensures
        path_extension(path + seq!['.'] + ext) == Some(ext),
        lowercase_file_extension(path + seq!['.'] + ext) == Some(lowercase(ext)),
{
    let t = seq!['.'] + ext;
    let s = path + seq!['.'] + ext;
    assert(s =~= path + t);
    assert forall|i: int| 0 <= i < t.len() implies t[i] != '/' by {
        if i > 0 {
            assert(t[i] == ext[i - 1]);
        }
    }
    lemma_split_on_append(path, t, '/');
    lemma_split_on_nonempty(path, '/');
    let sp = split_on(path, '/');
    let l = sp.last();
    assert(l.len() > 0) by {
        lemma_split_on_nonempty(path.drop_last(), '/');
        assert(path.drop_last().push(path.last()) =~= path);
    }
    let n = l + t;
    let ss = split_on(s, '/');
    assert(ss == sp.update(sp.len() - 1, n));
    assert(ss.drop_last() =~= sp.drop_last());
    assert(ss.last() == n);
    assert(n.len() >= 3);
    assert(is_named_segment(n)) by {
        if n == seq!['.'] {
            assert(n.len() == 1);
        }
    }
    let named = named_segments(ss);
    assert(named.last() == n);
    let comps = path_components(s);
    assert(comps.last() == n);
    assert(n != seq!['/'] && n != seq!['.'] && n != seq!['.', '.']) by {
        if n == seq!['/'] || n == seq!['.'] || n == seq!['.', '.'] {
            assert(n.len() <= 2);
        }
    }
    assert(path_file_name(s) == Some(n));
    assert(n =~= l + seq!['.'] + ext);
    lemma_last_index_after(l, ext, '.');
    assert(n.skip(l.len() + 1int) =~= ext);
}

/// Appends the characters of `s` to `r`.
pub fn push_str(r: &mut String, s: &str)
    ensures
        final(r)@ == old(r)@ + s@,
{
    let ghost start = r@;
    for c in it: s.chars()
        invariant
            it.seq() == s@,
            r@ == start + it.seq().take(it.index()),
    {
        r.push(c);
        proof {
            assert(it.seq().take(it.index() + 1) =~= it.seq().take(it.index()).push(c));
        }
    }
    proof {
        assert(s@.take(s@.len() as int) =~= s@);
    }
}

/// The named segments of a path, computed in one pass.
fn named_path_segments(cs: &Vec<char>) -> (r: Vec<String>)
    ensures
        string_views(r@) == named_segments(split_on(cs@, '/')),
{
    let mut segs: Vec<String> = Vec::new();
    let mut cur = String::new();
    let mut cur_len: usize = 0;
    let mut cur_is_dot = false;
    let mut i: usize = 0;
    while i < cs.len()
        invariant
            i <= cs@.len(),
            split_on(cs@.take(i as int), '/').len() >= 1,
            string_views(segs@) == named_segments(split_on(cs@.take(i as int), '/').drop_last()),
            cur@ == split_on(cs@.take(i as int), '/').last(),
            cur_len == cur@.len(),
            cur_len <= i,
            cur_is_dot == (cur@ == seq!['.']),
        decreases cs@.len() - i,
    {
        let c = cs[i];
        let ghost p = cs@.take(i as int);
        let ghost p2 = cs@.take(i + 1);
        proof {
            assert(p2.drop_last() =~= p);
            assert(p2.last() == c);
        }
        if c == '/' {
            let keep = cur_len > 0 && !cur_is_dot;
            proof {
                assert(split_on(p2, '/') == split_on(p, '/').push(seq![]));
                assert(split_on(p2, '/').drop_last() =~= split_on(p, '/'));
                assert(split_on(p, '/') =~= split_on(p, '/').drop_last().push(cur@));
            }
            if keep {
                let ghost before = segs@;
                segs.push(cur);
                proof {
                    assert(string_views(segs@) =~= string_views(before).push(
                        split_on(p, '/').last(),
                    ));
                }
            }
            cur = String::new();
            cur_len = 0;
            cur_is_dot = false;
            proof {
                assert(cur@ =~= split_on(p2, '/').last());
            }
        } else {
            let ghost old_cur = cur@;
            cur.push(c);
            cur_is_dot = cur_len == 0 && c == '.';
            cur_len = cur_len + 1;
            proof {
                let prev = split_on(p, '/');
                assert(split_on(p2, '/') == prev.update(prev.len() - 1, prev.last().push(c)));
                assert(split_on(p2, '/').drop_last() =~= prev.drop_last());
                if old_cur.len() == 0 && c == '.' {
                    assert(cur@ =~= seq!['.']);
                }
                if cur@ == seq!['.'] {
                    assert(cur@[cur@.len() - 1] == c);
                }
            }
        }
        i = i + 1;
    }
    let ghost all = split_on(cs@, '/');
    proof {
        assert(cs@.take(cs@.len() as int) =~= cs@);
        assert(all =~= all.drop_last().push(cur@));
    }
    if cur_len > 0 && !cur_is_dot {
        let ghost before = segs@;
        segs.push(cur);
        proof {
            assert(string_views(segs@) =~= string_views(before).push(all.last()));
        }
    }
    segs
}

/// The components of a path, written as text (see `path_components`).
pub fn components_of(path: &str) -> (r: Vec<String>)
    ensures
        string_views(r@) == path_components(path@),
{
    let cs = chars_of(path);
    let named = named_path_segments(&cs);
    let mut r: Vec<String> = Vec::new();
    if cs.len() > 0 && cs[0] == '/' {
        let mut root = String::new();
        root.push('/');
        r.push(root);
    }
    if cs.len() > 0 && cs[0] == '.' && (cs.len() == 1 || cs[1] == '/') {
        let mut dot = String::new();
        dot.push('.');
        r.push(dot);
    }
    let ghost head = string_views(r@);
    proof {
        let h1: Seq<Seq<char>> = if has_root(path@) {
            seq![seq!['/']]
        } else {
            seq![]
        };
        let h2: Seq<Seq<char>> = if has_leading_cur_dir(path@) {
            seq![seq!['.']]
        } else {
            seq![]
        };
        assert(head =~= h1 + h2);
    }
    let mut i: usize = 0;
    while i < named.len()
        invariant
            i <= named@.len(),
            string_views(r@) == head + string_views(named@).take(i as int),
        decreases named@.len() - i,
    {
        let ghost before = r@;
        let seg = named[i].clone();
        r.push(seg);
        proof {
            assert(string_views(r@) =~= string_views(before).push(string_views(named@)[i as int]));
            assert(string_views(named@).take(i + 1) =~= string_views(named@).take(i as int).push(
                string_views(named@)[i as int],
            ));
        }
        i = i + 1;
        proof {
            assert(string_views(r@) =~= head + string_views(named@).take(i as int));
        }
    }
    proof {
        assert(string_views(named@).take(named@.len() as int) =~= string_views(named@));
    }
    r
}

/// The index of the last `c` in `cs`.
pub fn find_last(cs: &[char], c: char) -> (r: Option<usize>)
    ensures
        match r {
            Some(j) => last_index_of(cs@, c) == Some(j as int),
            None => last_index_of(cs@, c) is None,
        },
{
    let mut found: Option<usize> = None;
    let mut i: usize = 0;
    while i < cs.len()
        invariant
            i <= cs@.len(),
            match found {
                Some(j) => last_index_of(cs@.take(i as int), c) == Some(j as int),
                None => last_index_of(cs@.take(i as int), c) is None,
            },
        decreases cs@.len() - i,
    {
        proof {
            assert(cs@.take(i + 1).drop_last() =~= cs@.take(i as int));
        }
        if cs[i] == c {
            found = Some(i);
        }
        i = i + 1;
    }
    proof {
        assert(cs@.take(cs@.len() as int) =~= cs@);
    }
    found
}

/// Whether a component text is the root, `.` or `..`.
fn is_special_component(s: &String) -> (r: bool)
    ensures
        r == (s@ == seq!['/'] || s@ == seq!['.'] || s@ == seq!['.', '.']),
{
    let cs = chars_of(s.as_str());
    let r = (cs.len() == 1 && (cs[0] == '/' || cs[0] == '.')) || (cs.len() == 2 && cs[0] == '.'
        && cs[1] == '.');
    proof {
        if cs@.len() == 1 && cs@[0] == '/' {
            assert(cs@ =~= seq!['/']);
        }
        if cs@.len() == 1 && cs@[0] == '.' {
            assert(cs@ =~= seq!['.']);
        }
        if cs@.len() == 2 && cs@[0] == '.' && cs@[1] == '.' {
            assert(cs@ =~= seq!['.', '.']);
        }
        if s@ == seq!['/'] || s@ == seq!['.'] || s@ == seq!['.', '.'] {
            assert(cs@[0] == s@[0]);
        }
        if s@ == seq!['.', '.'] {
            assert(cs@[1] == s@[1]);
        }
    }
    r
}

/// The file name of a path (its last component when that is a name).
pub fn file_name_of(file_path: &str) -> (r: Option<String>)
    ensures
        match r {
            Some(n) => path_file_name(file_path@) == Some(n@),
            None => path_file_name(file_path@) is None,
        },
{
    let comps = components_of(file_path);
    let n: usize = comps.len();
    if n == 0 {
        return None;
    }
    proof {
        assert(string_views(comps@)[n - 1] == comps@[n - 1]@);
    }
    if is_special_component(&comps[n - 1]) {
        None
    } else {
        Some(comps[n - 1].clone())
    }
}

/// The extension of a path's file name.
pub fn extension_of(file_path: &str) -> (r: Option<String>)
    ensures
        match r {
            Some(e) => path_extension(file_path@) == Some(e@),
            None => path_extension(file_path@) is None,
        },
{
    match file_name_of(file_path) {
        Some(name) => {
            let cs = chars_of(name.as_str());
            proof {
                lemma_last_index_of(cs@, '.');
            }
            match find_last(cs.as_slice(), '.') {
                Some(j) => if j > 0 {
                    assert(j < cs@.len());
                    let e = string_from_chars(&cs[j + 1..cs.len()]);
                    proof {
                        assert(cs@.subrange(j + 1, cs@.len() as int) =~= name@.skip(j + 1));
                    }
                    Some(e)
                } else {
                    None
                },
                None => None,
            }
        },
        None => None,
    }
}

/// The lower-cased extension of a path, if it has one.
///
/// A path of a single component whose only `.` is its first character, such as
/// `.txt`, has the rest of it as its extension.
pub fn get_lowercase_file_extension(file_path: &str) -> (r: Option<String>)
    ensures
        match r {
            Some(e) => lowercase_file_extension(file_path@) == Some(e@),
            None => lowercase_file_extension(file_path@) is None,
        },
{
    match extension_of(file_path) {
        Some(ext) => Some(to_lowercase(ext.as_str())),
        None => {
            let comps = components_of(file_path);
            let cs = chars_of(file_path);
            proof {
                lemma_last_index_of(cs@, '.');
            }
            if comps.len() == 1 {
                match find_last(cs.as_slice(), '.') {
                    Some(j) => if j == 0 {
                        let rest = string_from_chars(&cs[1..cs.len()]);
                        proof {
                            assert(cs@.subrange(1, cs@.len() as int) =~= file_path@.skip(1));
                        }
                        Some(to_lowercase(rest.as_str()))
                    } else {
                        None
                    },
                    None => None,
                }
            } else {
                None
            }
        },
    }
}

/// The lower-cased file name of a path, if it has one.
pub fn get_lowercase_file_name(file_path: &str) -> (r: Option<String>)
    ensures
        match r {
            Some(n) => lowercase_file_name(file_path@) == Some(n@),
            None => lowercase_file_name(file_path@) is None,
        },
{
    match file_name_of(file_path) {
        Some(name) => Some(to_lowercase(name.as_str())),
        None => None,
    }
}

/// Appends `.{ext}` to a path, preserving any existing name.
///
/// This differs from replacing the extension: it is used to build the synthetic
/// `path + mappedExt` path for a shebang-routed extensionless file.
pub fn append_extension(file_path: &str, ext: &str) -> (r: String)
    ensures
        r@ == file_path@ + seq!['.'] + ext@,
{
    let mut r = String::new();
    push_str(&mut r, file_path);
    r.push('.');
    push_str(&mut r, ext);
    proof {
        assert(r@ =~= file_path@ + seq!['.'] + ext@);
    }
    r
}

/// Joins a relative path onto a base path as `Path::join` does.
pub fn join_path(base: &str, rel: &str) -> (r: String)
    ensures
        r@ == path_join(base@, rel@),
{
    let rc = chars_of(rel);
    let bc = chars_of(base);
    let mut r = String::new();
    if rc.len() > 0 && rc[0] == '/' {
        push_str(&mut r, rel);
        proof {
            assert(r@ =~= rel@);
        }
        return r;
    }
    push_str(&mut r, base);
    if bc.len() > 0 && bc[bc.len() - 1] != '/' {
        r.push('/');
    }
    push_str(&mut r, rel);
    proof {
        if base@.len() > 0 && base@.last() != '/' {
            assert(r@ =~= base@ + seq!['/'] + rel@);
        } else {
            assert(r@ =~= base@ + rel@);
        }
    }
    r
}

/// Whether `path` starts with `base`, component by component (as
/// `Path::starts_with` compares).
pub fn starts_with_path(path: &str, base: &str) -> (r: bool)
    ensures
        r == path_starts_with(path@, base@),
{
    let pc = components_of(path);
    let bc = components_of(base);
    if bc.len() > pc.len() {
        return false;
    }
    let mut i: usize = 0;
    while i < bc.len()
        invariant
            i <= bc@.len() <= pc@.len(),
            string_views(pc@) == path_components(path@),
            string_views(bc@) == path_components(base@),
            forall|j: int| 0 <= j < i ==> pc@[j]@ == bc@[j]@,
        decreases bc@.len() - i,
    {
        if pc[i] != bc[i] {
            proof {
                assert(string_views(pc@).take(bc@.len() as int)[i as int] == pc@[i as int]@);
                assert(string_views(bc@)[i as int] == bc@[i as int]@);
            }
            return false;
        }
        i = i + 1;
    }
    proof {
        assert(string_views(pc@).take(bc@.len() as int) =~= string_views(bc@));
    }
    true
}

} // verus!
