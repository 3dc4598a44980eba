//! Unix paths, compared by their components.
//!
//! A path is a byte string. Repeated slashes, a slash at the end and `.` components say nothing,
//! except for a `.` that a relative path starts with.
use crate::text;
use vstd::prelude::*;

verus! {

/// The separator of components, `/`.
pub const SLASH: u8 = 0x2f;

/// The component that stands for the current directory, `.`.
pub const DOT: u8 = 0x2e;

/// Whether a piece between two slashes names something.
pub open spec fn is_name(piece: Seq<u8>) -> bool {
    piece.len() > 0 && piece != seq![DOT]
}

/// The pieces of `path` between slashes, without those that name nothing.
pub open spec fn names(path: Seq<u8>) -> Seq<Seq<u8>>
    decreases path.len(),
    via names_decreases
{
    let i = text::find(path, SLASH);
    let rest = if i < path.len() {
        names(path.skip(i + 1))
    } else {
        Seq::empty()
    };
    if is_name(path.take(i)) {
        seq![path.take(i)] + rest
    } else {
        rest
    }
}

#[via_fn]
proof fn names_decreases(path: Seq<u8>) {
    text::lemma_find_bounds(path, SLASH);
}

/// What `path` starts from: the root directory, the current directory by name, or nothing.
pub open spec fn anchor(path: Seq<u8>) -> Seq<Seq<u8>> {
    if path.len() > 0 && path[0] == SLASH {
        seq![seq![SLASH]]
    } else if path.len() > 0 && path[0] == DOT && (path.len() == 1 || path[1] == SLASH) {
        seq![seq![DOT]]
    } else {
        Seq::empty()
    }
}

/// The components of `path`: two paths are the same when their components are.
pub open spec fn components(path: Seq<u8>) -> Seq<Seq<u8>> {
    anchor(path) + names(path)
}

/// The contents of a list of byte strings.
pub open spec fn contents(list: Seq<Vec<u8>>) -> Seq<Seq<u8>> {
    list.map_values(|v: Vec<u8>| v@)
}

/// The bytes of `s` from `start` up to `end`.
pub fn copy_range(s: &[u8], start: usize, end: usize) -> (r: Vec<u8>)
    requires
        start <= end <= s@.len(),
    ensures
        r@ == s@.subrange(start as int, end as int),
{
    let mut r: Vec<u8> = Vec::new();
    let mut i: usize = start;
    while i < end
        invariant
            start <= i <= end <= s@.len(),
            r@ == s@.subrange(start as int, i as int),
        decreases end - i,
    {
        r.push(s[i]);
        i = i + 1;
    }
    r
}

/// Whether two byte strings are equal.
pub fn bytes_equal(a: &[u8], b: &[u8]) -> (r: bool)
    ensures
        r == (a@ == b@),
{
    if a.len() != b.len() {
        return false;
    }
    let mut i: usize = 0;
    while i < a.len()
        invariant
            a@.len() == b@.len(),
            i <= a@.len(),
            forall|j: int| 0 <= j < i ==> a@[j] == b@[j],
        decreases a.len() - i,
    {
        if a[i] != b[i] {
            return false;
        }
        i = i + 1;
    }
    assert(a@ =~= b@);
    true
}

/// The components of `path`.
pub fn split_path(path: &[u8]) -> (r: Vec<Vec<u8>>)
    ensures
        contents(r@) == components(path@),
{
    let mut r: Vec<Vec<u8>> = Vec::new();
    if path.len() > 0 && path[0] == SLASH {
        r.push(vec![SLASH]);
        assert(r@[0]@ == seq![SLASH]);
    } else if path.len() > 0 && path[0] == DOT && (path.len() == 1 || path[1] == SLASH) {
        r.push(vec![DOT]);
        assert(r@[0]@ == seq![DOT]);
    }
    assert(contents(r@) =~= anchor(path@));
    let mut start: usize = 0;
    let mut done = false;
    assert(path@.skip(0) == path@);
    while !done
        invariant
            start <= path@.len(),
            components(path@) == if done {
                contents(r@)
            } else {
                contents(r@) + names(path@.skip(start as int))
            },
        decreases (if done { 0int } else { path@.len() - start + 1 }),
    {
        let ghost rest = path@.skip(start as int);
        let mut end: usize = start;
        while end < path.len() && path[end] != SLASH
            invariant
                start <= end <= path@.len(),
                forall|j: int| start <= j < end ==> path@[j] != SLASH,
            decreases path.len() - end,
        {
            end = end + 1;
        }
        let ghost before = contents(r@);
        proof {
            assert forall|j: int| 0 <= j < end - start implies rest[j] != SLASH by {
                assert(rest[j] == path@[start + j]);
            }
            text::lemma_find_is(rest, SLASH, end - start);
            assert(rest.take(end - start) == path@.subrange(start as int, end as int));
        }
        if end > start && !(end == start + 1 && path[start] == DOT) {
            let piece = copy_range(path, start, end);
            proof {
                if piece@ == seq![DOT] {
                    assert(piece@.len() == 1);
                    assert(piece@[0] == path@[start as int]);
                }
            }
            r.push(piece);
            assert(is_name(rest.take(end - start)));
            assert(contents(r@) =~= before + seq![rest.take(end - start)]);
        } else {
            assert(!is_name(rest.take(end - start))) by {
                if end > start {
                    assert(rest.take(end - start) =~= seq![DOT]);
                }
            }
        }
        if end < path.len() {
            assert(rest.skip(end - start + 1) == path@.skip(end + 1));
            start = end + 1;
        } else {
            done = true;
        }
        assert(components(path@) =~= if done {
            contents(r@)
        } else {
            contents(r@) + names(path@.skip(start as int))
        });
    }
    r
}

/// Whether two paths have the same components.
pub fn same_path(a: &[u8], b: &[u8]) -> (r: bool)
    ensures
        r == (components(a@) == components(b@)),
{
    same_parts(&split_path(a), &split_path(b))
}

/// Whether `path` is `base` or lies below it.
pub fn starts_with(path: &[u8], base: &[u8]) -> (r: bool)
    ensures
        r == components(base@).is_prefix_of(components(path@)),
{
    let x = split_path(base);
    let y = split_path(path);
    prefix_of(&x, &y)
}

fn prefix_of(x: &Vec<Vec<u8>>, y: &Vec<Vec<u8>>) -> (r: bool)
    ensures
        r == contents(x@).is_prefix_of(contents(y@)),
        x@.len() == y@.len() ==> r == (contents(x@) == contents(y@)),
{
    let ghost cx = contents(x@);
    let ghost cy = contents(y@);
    if x.len() > y.len() {
        return false;
    }
    let mut i: usize = 0;
    while i < x.len()
        invariant
            cx == contents(x@),
            cy == contents(y@),
            x@.len() <= y@.len(),
            i <= x@.len(),
            forall|j: int| 0 <= j < i ==> cx[j] == cy[j],
        decreases x.len() - i,
    {
        if !bytes_equal(x[i].as_slice(), y[i].as_slice()) {
            assert(cx[i as int] != cy[i as int]);
            assert(cy.subrange(0, cx.len() as int)[i as int] == cy[i as int]);
            return false;
        }
        i = i + 1;
    }
    assert(cx =~= cy.subrange(0, cx.len() as int));
    assert(x@.len() == y@.len() ==> cx =~= cy);
    true
}

/// Whether a path has a parent: neither the root directory nor the empty path has one.
pub open spec fn has_parent(path: Seq<u8>) -> bool {
    components(path).len() > 0 && components(path) != seq![seq![SLASH]]
}

/// Whether `dir` is the parent of `path`: the shortest beginning of it that has all its
/// components but the last.
pub open spec fn is_parent(dir: Seq<u8>, path: Seq<u8>) -> bool {
    &&& has_parent(path)
    &&& dir.is_prefix_of(path)
    &&& components(dir) == components(path).drop_last()
    &&& forall|n: int| 0 <= n < dir.len() ==> components(#[trigger] path.take(n)) != components(dir)
}

/// The length of a beginning of `path` that has all its names but the last.
proof fn lemma_shorter(path: Seq<u8>) -> (n: int)
    requires
        names(path).len() > 0,
    ensures
        0 <= n <= path.len(),
        n == 0 || n > text::find(path, SLASH),
        n == 0 ==> is_name(path.take(text::find(path, SLASH))),
        names(path.take(n)) == names(path).drop_last(),
    decreases path.len(),
{
    let i = text::find(path, SLASH);
    text::lemma_find_bounds(path, SLASH);
    let rest = path.skip(i + 1);
    if i < path.len() && names(rest).len() > 0 {
        let m = lemma_shorter(rest);
        let n = i + 1 + m;
        let front = path.take(n);
        text::lemma_find_is(front, SLASH, i);
        assert(front.take(i) =~= path.take(i));
        assert(front.skip(i + 1) =~= rest.take(m));
        assert(names(front) =~= names(path).drop_last());
        n
    } else {
        assert(names(path) =~= seq![path.take(i)]);
        assert(path.take(0) =~= Seq::empty());
        assert(names(path.take(0)) =~= Seq::empty());
        assert(names(path).drop_last() =~= Seq::empty());
        0
    }
}

/// Some beginning of a path with a parent has all its components but the last.
proof fn lemma_has_parent(path: Seq<u8>) -> (n: int)
    requires
        has_parent(path),
    ensures
        0 <= n <= path.len(),
        components(path.take(n)) == components(path).drop_last(),
{
    if names(path).len() == 0 {
        assert(components(path) =~= anchor(path));
        assert(path.take(0) =~= Seq::empty());
        assert(names(path.take(0)) =~= Seq::empty());
        assert(components(path.take(0)) =~= components(path).drop_last());
        0
    } else {
        let i = text::find(path, SLASH);
        text::lemma_find_bounds(path, SLASH);
        let n = lemma_shorter(path);
        let front = path.take(n);
        if path.len() > 0 && path[0] == SLASH {
            text::lemma_find_is(path, SLASH, 0);
        } else if path.len() > 1 && path[0] == DOT && path[1] == SLASH {
            text::lemma_find_is(path, SLASH, 1);
            assert(path.take(1) =~= seq![DOT]);
        } else if path.len() == 1 && path[0] == DOT {
            text::lemma_find_is(path, SLASH, 1);
            assert(path.take(1) =~= seq![DOT]);
        }
        assert(anchor(front) == anchor(path));
        assert(components(front) =~= components(path).drop_last());
        n
    }
}

/// The directory that a path stands in.
pub fn parent(path: &[u8]) -> (r: Option<Vec<u8>>)
    ensures
        match r {
            Some(dir) => is_parent(dir@, path@),
            None => !has_parent(path@),
        },
{
    let mut parts = split_path(path);
    let ghost all = components(path@);
    assert(all.len() == parts@.len());
    if parts.len() == 0 {
        return None;
    }
    if parts.len() == 1 && parts[0].len() == 1 && parts[0][0] == SLASH {
        assert(parts@[0]@ =~= seq![SLASH]);
        assert(all =~= seq![seq![SLASH]]) by {
            assert(all[0] == parts@[0]@);
        }
        return None;
    }
    proof {
        if all == seq![seq![SLASH]] {
            assert(all[0] == parts@[0]@);
            assert(seq![seq![SLASH]][0] == seq![SLASH]);
        }
    }
    let _last = parts.pop();
    assert(contents(parts@) =~= all.drop_last());
    let ghost end = lemma_has_parent(path@);
    let mut n: usize = 0;
    while !same_parts(&split_path(vstd::slice::slice_subrange(path, 0, n)), &parts)
        invariant
            n <= end <= path@.len(),
            contents(parts@) == all.drop_last(),
            components(path@.take(end)) == all.drop_last(),
            forall|m: int| 0 <= m < n ==> components(#[trigger] path@.take(m)) != all.drop_last(),
        decreases path.len() - n,
    {
        assert(path@.subrange(0, n as int) =~= path@.take(n as int));
        assert(path.len() <= usize::MAX);
        n = n + 1;
    }
    let dir = copy_range(path, 0, n);
    assert(dir@ =~= path@.take(n as int));
    Some(dir)
}

fn same_parts(x: &Vec<Vec<u8>>, y: &Vec<Vec<u8>>) -> (r: bool)
    ensures
        r == (contents(x@) == contents(y@)),
{
    assert(contents(x@).len() == x@.len() && contents(y@).len() == y@.len());
    x.len() == y.len() && prefix_of(x, y)
}

/// A slash between two paths: the names are those of the first and of the second.
proof fn lemma_names_join(a: Seq<u8>, b: Seq<u8>)
    ensures
        names(a.push(SLASH) + b) == names(a) + names(b),
    decreases a.len(),
{
    let i = text::find(a, SLASH);
    text::lemma_find_bounds(a, SLASH);
    let s = a.push(SLASH) + b;
    assert forall|j: int| 0 <= j < i implies s[j] != SLASH by {
        assert(s[j] == a[j]);
    }
    text::lemma_find_is(s, SLASH, i);
    assert(s.take(i) =~= a.take(i));
    if i < a.len() {
        let rest = a.skip(i + 1);
        assert(s.skip(i + 1) =~= rest.push(SLASH) + b);
        lemma_names_join(rest, b);
    } else {
        assert(s.skip(i + 1) =~= b);
    }
    assert(names(s) =~= names(a) + names(b));
}

/// The components of a path, from its end on: a name is one more component, while nothing and
/// `.` add none. The empty path has none, and the root directory and the current directory have
/// one each.
pub proof fn law_components(path: Seq<u8>, name: Seq<u8>)
    requires
        name.len() > 0,
        !name.contains(0x2f),
        name != seq![0x2eu8],
    ensures
        components(Seq::<u8>::empty()) == Seq::<Seq<u8>>::empty(),
        components(seq![0x2fu8]) == seq![seq![0x2fu8]],
        components(seq![0x2eu8]) == seq![seq![0x2eu8]],
        components(seq![0x2fu8, 0x2eu8]) == seq![seq![0x2fu8]],
        components(name) == seq![name],
        components(seq![0x2fu8] + name) == seq![seq![0x2fu8], name],
        path.len() > 0 ==> {
            &&& components(path + seq![0x2fu8] + name) == components(path).push(name)
            &&& components(path + seq![0x2fu8]) == components(path)
            &&& components(path + seq![0x2fu8, 0x2eu8]) == components(path)
        },
{
    let empty = Seq::<u8>::empty();
    let dot = seq![0x2eu8];
    let root = seq![0x2fu8];
    text::lemma_find_is(empty, SLASH, 0);
    assert(empty.take(0) =~= empty);
    assert(names(empty) =~= Seq::empty());
    assert(components(empty) =~= Seq::empty());
    text::lemma_find_is(dot, SLASH, 1);
    assert(dot.take(1) =~= dot);
    assert(names(dot) =~= Seq::empty());
    assert(components(dot) =~= seq![dot]);
    assert forall|j: int| 0 <= j < name.len() implies name[j] != SLASH by {
        assert(name.contains(name[j]));
    }
    text::lemma_find_is(name, SLASH, name.len() as int);
    assert(name.take(name.len() as int) =~= name);
    assert(names(name) =~= seq![name]);
    assert(anchor(name) =~= Seq::empty()) by {
        if name.len() == 1 && name[0] == DOT {
            assert(name =~= dot);
        }
    }
    assert(components(name) =~= seq![name]);
    lemma_names_join(empty, empty);
    assert(root =~= empty.push(SLASH) + empty);
    assert(components(root) =~= seq![root]);
    lemma_names_join(empty, dot);
    assert(seq![0x2fu8, 0x2eu8] =~= empty.push(SLASH) + dot);
    assert(components(seq![0x2fu8, 0x2eu8]) =~= seq![root]);
    lemma_names_join(empty, name);
    assert(root + name =~= empty.push(SLASH) + name);
    assert(components(root + name) =~= seq![root, name]);
    if path.len() > 0 {
        lemma_names_join(path, name);
        lemma_names_join(path, empty);
        lemma_names_join(path, dot);
        assert(path + root + name =~= path.push(SLASH) + name);
        assert(path + root =~= path.push(SLASH) + empty);
        assert(path + seq![0x2fu8, 0x2eu8] =~= path.push(SLASH) + dot);
        assert(components(path + root + name) =~= components(path).push(name));
        assert(components(path + root) =~= components(path));
        assert(components(path + seq![0x2fu8, 0x2eu8]) =~= components(path));
    }
}

/// The parent of a path that ends with a name is what comes before the name, by components, and
/// is a beginning of the path; no beginning of it is shorter. A name alone stands in the empty
/// path, and what stands in the root directory has that for a parent. The root directory and the
/// empty path have none.
pub proof fn law_parent(path: Seq<u8>, name: Seq<u8>, dir: Seq<u8>)
    requires
        name.len() > 0,
        !name.contains(0x2f),
        name != seq![0x2eu8],
    ensures
        !has_parent(Seq::<u8>::empty()),
        !has_parent(seq![0x2fu8]),
        has_parent(path + seq![0x2fu8] + name),
        has_parent(name),
        is_parent(dir, name) ==> dir.len() == 0,
        is_parent(dir, seq![0x2fu8] + name) ==> dir == seq![0x2fu8],
        is_parent(dir, path + seq![0x2fu8] + name) && path.len() > 0 ==> {
            let whole = path + seq![0x2fu8] + name;
            &&& components(dir) == components(path)
            &&& dir == whole.take(dir.len() as int)
            &&& dir.len() <= path.len()
            &&& forall|n: int|
                0 <= n < dir.len() ==> components(#[trigger] whole.take(n)) != components(path)
        },
{
    law_components(path, name);
    let root = seq![0x2fu8];
    let whole = path + root + name;
    if path.len() == 0 {
        assert(whole =~= root + name);
        assert(components(whole).len() == 2);
    } else {
        assert(components(whole).last() == name);
        assert(name[0] != 0x2f) by {
            assert(name.contains(name[0]));
        }
        if components(whole) == seq![root] {
            assert(seq![root].last() == root);
        }
    }
    assert(name[0] != 0x2f) by {
        assert(name.contains(name[0]));
    }
    if components(name) == seq![root] {
        assert(seq![name][0] == seq![root][0]);
    }
    if is_parent(dir, name) {
        assert(components(name).drop_last() =~= Seq::empty());
        assert(name.take(0) =~= Seq::empty());
        if dir.len() > 0 {
            assert(components(name.take(0)) != components(dir));
        }
    }
    if is_parent(dir, root + name) {
        let one = root + name;
        assert(components(one).drop_last() =~= seq![root]);
        assert(one.take(1) =~= root);
        assert(dir =~= one.take(dir.len() as int));
        if dir.len() > 1 {
            assert(components(one.take(1)) != components(dir));
        }
        if dir.len() == 0 {
            assert(dir =~= Seq::empty());
        }
        assert(dir =~= root);
    }
    if is_parent(dir, whole) && path.len() > 0 {
        assert(components(whole).drop_last() =~= components(path));
        assert(whole.take(path.len() as int) =~= path);
        assert(dir =~= whole.take(dir.len() as int));
        if dir.len() > path.len() {
            assert(components(whole.take(path.len() as int)) != components(dir));
        }
    }
}

/// A path stands in its parent: the last component is all that sets them apart, and the parent is
/// the shortest beginning of the path of which that is so. Every path with a component has a
/// parent, but for the root directory.
pub proof fn law_stands_in(dir: Seq<u8>, path: Seq<u8>)
    ensures
        has_parent(path) <==> components(path).len() > 1 || (components(path).len() == 1
            && components(path)[0] != seq![0x2fu8]),
        is_parent(dir, path) ==> {
            &&& has_parent(path)
            &&& dir.len() <= path.len()
            &&& dir == path.take(dir.len() as int)
            &&& components(dir).push(components(path).last()) == components(path)
            &&& forall|n: int|
                0 <= n < dir.len() ==> components(#[trigger] path.take(n)).push(
                    components(path).last(),
                ) != components(path)
        },
{
    if components(path).len() == 1 && components(path)[0] == seq![0x2fu8] {
        assert(components(path) =~= seq![seq![SLASH]]);
    }
    if is_parent(dir, path) {
        let all = components(path);
        assert(dir =~= path.take(dir.len() as int));
        assert(components(dir).push(all.last()) =~= all);
        assert forall|n: int| 0 <= n < dir.len() implies components(#[trigger] path.take(n)).push(
            all.last(),
        ) != all by {
            if components(path.take(n)).push(all.last()) == all {
                assert(components(path.take(n)).push(all.last()).drop_last() =~= components(
                    path.take(n),
                ));
            }
        }
    }
}

/// Whatever stands behind a path and a slash, the path's components come first.
pub proof fn lemma_components_below(path: Seq<u8>, rest: Seq<u8>)
    requires
        path.len() > 0,
    ensures
        components(path).is_prefix_of(components(path.push(SLASH) + rest)),
{
    let s = path.push(SLASH) + rest;
    lemma_names_join(path, rest);
    assert(anchor(s) == anchor(path));
    assert(components(s) =~= components(path) + names(rest));
    assert(components(path) =~= components(s).subrange(0, components(path).len() as int));
}

/// The contents of a list of byte strings are theirs, in order.
pub proof fn law_contents(list: Seq<Vec<u8>>)
    ensures
        contents(list).len() == list.len(),
        forall|i: int| 0 <= i < list.len() ==> #[trigger] contents(list)[i] == list[i]@,
{
}

} // verus!
