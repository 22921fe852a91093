use vstd::prelude::*;

use crate::parser::{lemma_split_concat, lemma_split_without_delimiter, split_fields, views};
use crate::text::{chars_of, push_char, push_chars};

verus! {

/// The separator between the components of a path.
pub const SEPARATOR: char = '/';

/// `s` starts at the root.
pub open spec fn is_absolute(s: Seq<char>) -> bool {
    s.len() > 0 && s[0] == '/'
}

/// The component that names the parent directory.
pub open spec fn parent_part() -> Seq<char> {
    seq!['.', '.']
}

/// The components kept so far, after one more piece of the path: empty
/// pieces and `.` change nothing, `..` drops the last kept component (at the
/// root it stays at the root; in a relative path with nothing to drop it is
/// kept), and any other piece is appended.
pub open spec fn normal_step(stack: Seq<Seq<char>>, part: Seq<char>, absolute: bool) -> Seq<
    Seq<char>,
> {
    if part.len() == 0 || part == seq!['.'] {
        stack
    } else if part == parent_part() {
        if stack.len() > 0 && stack.last() != parent_part() {
            stack.drop_last()
        } else if absolute {
            stack
        } else {
            stack.push(part)
        }
    } else {
        stack.push(part)
    }
}

/// The components that the pieces `parts` leave, taken from left to right.
pub open spec fn normal_parts(parts: Seq<Seq<char>>, absolute: bool) -> Seq<Seq<char>>
    decreases parts.len(),
{
    if parts.len() == 0 {
        seq![]
    } else {
        normal_step(normal_parts(parts.drop_last(), absolute), parts.last(), absolute)
    }
}

/// The components of the path `s`, with `.`, empty pieces and `..` resolved.
pub open spec fn components(s: Seq<char>) -> Seq<Seq<char>> {
    normal_parts(split_fields(s, SEPARATOR), is_absolute(s))
}

/// The components `cs` written one after the other with a `/` between each two.
pub open spec fn joined(cs: Seq<Seq<char>>) -> Seq<char>
    decreases cs.len(),
{
    if cs.len() == 0 {
        seq![]
    } else if cs.len() == 1 {
        cs[0]
    } else {
        joined(cs.drop_last()) + seq![SEPARATOR] + cs.last()
    }
}

/// The text of a path made of the components `cs`: after a `/` when it is
/// absolute, and `.` for a relative path without components.
pub open spec fn path_text(absolute: bool, cs: Seq<Seq<char>>) -> Seq<char> {
    if absolute {
        seq![SEPARATOR] + joined(cs)
    } else if cs.len() == 0 {
        seq!['.']
    } else {
        joined(cs)
    }
}

/// The normal form of the path `s`.
pub open spec fn normalized(s: Seq<char>) -> Seq<char> {
    path_text(is_absolute(s), components(s))
}

/// `path` names `folder` or a directory below it, component by component.
pub open spec fn path_within(path: Seq<char>, folder: Seq<char>) -> bool {
    &&& is_absolute(path) == is_absolute(folder)
    &&& components(folder).len() <= components(path).len()
    &&& components(path).take(components(folder).len() as int) == components(folder)
}

/// Whether `a` and `b` hold the same characters.
fn same_chars(a: &Vec<char>, b: &Vec<char>) -> (r: bool)
    ensures
        r == (a@ == b@),
{
    if a.len() != b.len() {
        return false;
    }
    let mut i: usize = 0;
    while i < a.len()
        invariant
            a@.len() == b@.len(),
            i <= a@.len(),
            forall|j: int| 0 <= j < i ==> a@[j] == b@[j],
        decreases a.len() - i,
    {
        if a[i] != b[i] {
            return false;
        }
        i += 1;
    }
    assert(a@ == b@);
    true
}

/// Adds one more piece of a path to the components kept so far.
fn push_part(stack: &mut Vec<Vec<char>>, part: Vec<char>, absolute: bool)
    ensures
        views(final(stack)@) == normal_step(views(old(stack)@), part@, absolute),
{
    let ghost before = views(stack@);
    let dot = part.len() == 1 && part[0] == '.';
    assert(dot == (part@ == seq!['.'])) by {
        if part@.len() == 1 && part@[0] == '.' {
            assert(part@ == seq!['.']);
        }
    }
    let parent = part.len() == 2 && part[0] == '.' && part[1] == '.';
    assert(parent == (part@ == parent_part())) by {
        if part@.len() == 2 && part@[0] == '.' && part@[1] == '.' {
            assert(part@ == parent_part());
        }
    }
    if part.len() == 0 || dot {
        return;
    }
    if parent {
        let n = stack.len();
        if n > 0 {
            let top = &stack[n - 1];
            let top_parent = top.len() == 2 && top[0] == '.' && top[1] == '.';
            assert(top_parent == (before.last() == parent_part())) by {
                assert(before.last() == top@);
                if top@.len() == 2 && top@[0] == '.' && top@[1] == '.' {
                    assert(top@ == parent_part());
                }
            }
            if !top_parent {
                stack.pop();
                assert(views(stack@) == before.drop_last());
                return;
            }
        }
        if absolute {
            return;
        }
    }
    stack.push(part);
    assert(views(stack@) == before.push(part@));
}

/// The components of `path`, with `.`, empty pieces and `..` resolved.
pub fn path_components(path: &str) -> (parts: Vec<Vec<char>>)
    ensures
        views(parts@) == components(path@),
{
    let cs = chars_of(path);
    let absolute = cs.len() > 0 && cs[0] == '/';
    let mut stack: Vec<Vec<char>> = Vec::new();
    let mut cur: Vec<char> = Vec::new();
    let mut i: usize = 0;
    assert(cs@.take(0) == Seq::<char>::empty());
    assert(split_fields(cs@.take(0), SEPARATOR).drop_last() == Seq::<Seq<char>>::empty());
    while i < cs.len()
        invariant
            i <= cs@.len(),
            absolute == is_absolute(cs@),
            split_fields(cs@.take(i as int), SEPARATOR).len() >= 1,
            split_fields(cs@.take(i as int), SEPARATOR).last() == cur@,
            views(stack@) == normal_parts(
                split_fields(cs@.take(i as int), SEPARATOR).drop_last(),
                absolute,
            ),
        decreases cs.len() - i,
    {
        let c = cs[i];
        let ghost prev = split_fields(cs@.take(i as int), SEPARATOR);
        assert(cs@.take(i + 1).drop_last() == cs@.take(i as int));
        assert(cs@.take(i + 1).last() == c);
        if c == SEPARATOR {
            let part = cur;
            cur = Vec::new();
            push_part(&mut stack, part, absolute);
            let ghost next = split_fields(cs@.take(i + 1), SEPARATOR);
            assert(next == prev.push(seq![]));
            assert(next.drop_last() == prev);
            assert(prev == prev.drop_last().push(prev.last()));
        } else {
            cur.push(c);
            let ghost next = split_fields(cs@.take(i + 1), SEPARATOR);
            assert(next.drop_last() == prev.drop_last());
        }
        i += 1;
    }
    assert(cs@.take(cs@.len() as int) == cs@);
    let ghost all = split_fields(cs@, SEPARATOR);
    assert(all == all.drop_last().push(all.last()));
    push_part(&mut stack, cur, absolute);
    stack
}

/// The path `parts` names, written out as text.
fn path_string(absolute: bool, parts: &Vec<Vec<char>>) -> (s: String)
    ensures
        s@ == path_text(absolute, views(parts@)),
{
    let ghost ps = views(parts@);
    let mut s = String::new();
    if absolute {
        push_char(&mut s, SEPARATOR);
    } else if parts.len() == 0 {
        push_char(&mut s, '.');
        return s;
    }
    let ghost lead = s@;
    let mut i: usize = 0;
    assert(ps.take(0) == Seq::<Seq<char>>::empty());
    assert(lead + joined(ps.take(0)) == lead);
    while i < parts.len()
        invariant
            i <= parts@.len(),
            ps == views(parts@),
            ps.len() == parts@.len(),
            s@ == lead + joined(ps.take(i as int)),
        decreases parts.len() - i,
    {
        let part = &parts[i];
        assert(ps[i as int] == part@);
        let ghost before = s@;
        if i > 0 {
            push_char(&mut s, SEPARATOR);
        }
        push_chars(&mut s, part, 0, part.len());
        assert(part@.subrange(0, part@.len() as int) == part@);
        assert(ps.take(i + 1).drop_last() == ps.take(i as int));
        assert(ps.take(i + 1).last() == part@);
        if i == 0 {
            assert(ps.take(1) == seq![part@]);
        }
        i += 1;
    }
    assert(ps.take(parts@.len() as int) == ps);
    s
}

/// The normal form of `path`: its components after `.`, empty pieces and
/// `..` are resolved, behind a `/` when it is absolute, and `.` for a relative
/// path that resolves to nothing.
pub fn normalize_path(path: &str) -> (out: String)
    ensures
        out@ == normalized(path@),
{
    let cs = chars_of(path);
    let absolute = cs.len() > 0 && cs[0] == '/';
    let parts = path_components(path);
    path_string(absolute, &parts)
}

/// Whether `path` names `folder` or a directory below it, comparing the two
/// component by component.
pub fn is_within(path: &str, folder: &str) -> (b: bool)
    ensures
        b == path_within(path@, folder@),
{
    let pc = chars_of(path);
    let fc = chars_of(folder);
    let path_absolute = pc.len() > 0 && pc[0] == '/';
    let folder_absolute = fc.len() > 0 && fc[0] == '/';
    if path_absolute != folder_absolute {
        return false;
    }
    let p = path_components(path);
    let f = path_components(folder);
    let ghost pv = views(p@);
    let ghost fv = views(f@);
    assert(pv.len() == p@.len() && fv.len() == f@.len());
    if f.len() > p.len() {
        return false;
    }
    let mut i: usize = 0;
    while i < f.len()
        invariant
            i <= f@.len(),
            f@.len() <= p@.len(),
            pv == views(p@),
            fv == views(f@),
            pv == components(path@),
            fv == components(folder@),
            is_absolute(path@) == is_absolute(folder@),
            pv.len() == p@.len(),
            fv.len() == f@.len(),
            forall|j: int| 0 <= j < i ==> pv[j] == fv[j],
        decreases f.len() - i,
    {
        assert(pv[i as int] == p@[i as int]@);
        assert(fv[i as int] == f@[i as int]@);
        if !same_chars(&p[i], &f[i]) {
            assert(pv.take(fv.len() as int)[i as int] == pv[i as int]);
            assert(pv.take(fv.len() as int) != fv);
            return false;
        }
        i += 1;
    }
    assert(pv.take(fv.len() as int) == fv);
    true
}


/// A plain component: not empty, not `.` or `..`, and without a `/`.
pub open spec fn plain_component(x: Seq<char>) -> bool {
    &&& x.len() > 0
    &&& x != seq!['.']
    &&& x != parent_part()
    &&& forall|i: int| 0 <= i < x.len() ==> x[i] != SEPARATOR
}

/// Going one plain component down adds that component: the components of
/// `p/x` are those of `p` followed by `x`.
pub proof fn lemma_components_descend(p: Seq<char>, x: Seq<char>)
    requires
        p.len() > 0,
        plain_component(x),
    ensures
        components(p + seq![SEPARATOR] + x) == components(p).push(x),
        is_absolute(p + seq![SEPARATOR] + x) == is_absolute(p),
{
    let q = p + seq![SEPARATOR] + x;
    assert(q[0] == p[0]);
    lemma_split_concat(p, x, SEPARATOR);
    lemma_split_without_delimiter(x, SEPARATOR);
    let parts = split_fields(p, SEPARATOR);
    assert(split_fields(q, SEPARATOR) == parts.push(x));
    assert(parts.push(x).drop_last() == parts);
    assert(parts.push(x).last() == x);
}

/// Folder matching takes in the whole tree below the folder: a path within
/// a folder stays within it when it goes down one plain component, so every
/// descendant, however deep, is within the folder; and a folder is within
/// itself.
pub proof fn lemma_within_descends(p: Seq<char>, folder: Seq<char>, x: Seq<char>)
    requires
        path_within(p, folder),
        p.len() > 0,
        plain_component(x),
    ensures
        path_within(p + seq![SEPARATOR] + x, folder),
        path_within(folder, folder),
{
    lemma_components_descend(p, x);
    let cp = components(p);
    let k = components(folder).len() as int;
    assert(cp.push(x).take(k) == cp.take(k));
    assert(components(folder).take(k) == components(folder));
}

} // verus!
