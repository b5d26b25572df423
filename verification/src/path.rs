//! Entry names of an archive as byte strings, and their resolution into
//! path components that stay below the directory they are joined to.

use vstd::prelude::*;

verus! {

/// The byte `/`, which separates the components of an entry name.
pub const SLASH: u8 = 47;

/// The byte `.`.
pub const DOT: u8 = 46;

/// The components of `name`: the maximal runs of bytes between slashes.
/// A name without a slash is one component; an empty name is one empty
/// component.
pub open spec fn split(name: Seq<u8>) -> Seq<Seq<u8>>
    decreases name.len(),
{
    if name.len() == 0 {
        seq![Seq::<u8>::empty()]
    } else {
        let init = split(name.drop_last());
        if name.last() == SLASH {
            init.push(Seq::<u8>::empty())
        } else {
            init.drop_last().push(init.last().push(name.last()))
        }
    }
}

/// The component `.`, which stands for the directory it occurs in.
pub open spec fn is_current(c: Seq<u8>) -> bool {
    c.len() == 1 && c[0] == DOT
}

/// The component `..`, which stands for the parent directory.
pub open spec fn is_parent(c: Seq<u8>) -> bool {
    c.len() == 2 && c[0] == DOT && c[1] == DOT
}

/// A component that names a file or directory and nothing else: not empty,
/// neither `.` nor `..`, free of slashes and NUL bytes.
pub open spec fn is_plain(c: Seq<u8>) -> bool {
    &&& c.len() > 0
    &&& !is_current(c)
    &&& !is_parent(c)
    &&& forall|k: int| 0 <= k < c.len() ==> c[k] != SLASH && c[k] != 0u8
}

/// Every component of `p` is plain, so joining `p` to a directory yields a
/// path inside that directory.
pub open spec fn all_plain(p: Seq<Seq<u8>>) -> bool {
    forall|i: int| 0 <= i < p.len() ==> is_plain(#[trigger] p[i])
}

/// Lexical resolution of a component list: empty components and `.` are
/// dropped, `..` removes the component before it. `None` when a `..` has
/// nothing left to remove, that is when the path would leave its root.
pub open spec fn resolve(parts: Seq<Seq<u8>>) -> Option<Seq<Seq<u8>>>
    decreases parts.len(),
{
    if parts.len() == 0 {
        Some(Seq::<Seq<u8>>::empty())
    } else {
        match resolve(parts.drop_last()) {
            None => None,
            Some(stack) => {
                let c = parts.last();
                if c.len() == 0 || is_current(c) {
                    Some(stack)
                } else if is_parent(c) {
                    if stack.len() == 0 {
                        None
                    } else {
                        Some(stack.drop_last())
                    }
                } else {
                    Some(stack.push(c))
                }
            },
        }
    }
}

/// The name holds a NUL byte.
pub open spec fn has_nul(name: Seq<u8>) -> bool {
    exists|k: int| 0 <= k < name.len() && name[k] == 0u8
}

/// The name starts at the filesystem root.
pub open spec fn is_absolute(name: Seq<u8>) -> bool {
    name.len() > 0 && name[0] == SLASH
}

/// The path that an entry name resolves to below the directory it is
/// extracted into, or `None` for a name that is absolute, holds a NUL byte
/// or climbs above that directory.
pub open spec fn contained_path(name: Seq<u8>) -> Option<Seq<Seq<u8>>> {
    if has_nul(name) || is_absolute(name) {
        None
    } else {
        resolve(split(name))
    }
}

/// The views of the components of a path held in vectors.
pub open spec fn components(p: Seq<Vec<u8>>) -> Seq<Seq<u8>> {
    Seq::new(p.len(), |i: int| p[i]@)
}

/// No component that `split` returns holds a slash, and each holds only
/// bytes of the name.
pub proof fn lemma_split_bytes(name: Seq<u8>)
    ensures
        split(name).len() >= 1,
        forall|i: int, k: int|
            0 <= i < split(name).len() && 0 <= k < split(name)[i].len() ==> {
                &&& #[trigger] split(name)[i][k] != SLASH
                &&& name.contains(split(name)[i][k])
            },
    decreases name.len(),
{
    if name.len() > 0 {
        let front = name.drop_last();
        lemma_split_bytes(front);
        let init = split(front);
        assert forall|i: int, k: int|
            0 <= i < split(name).len() && 0 <= k < split(name)[i].len() implies {
                &&& #[trigger] split(name)[i][k] != SLASH
                &&& name.contains(split(name)[i][k])
            } by {
            let b = split(name)[i][k];
            if name.last() != SLASH && i == init.len() - 1 && k == init.last().len() {
                assert(b == name[name.len() - 1]);
            } else {
                if name.last() == SLASH {
                    assert(split(name)[i] == init[i]);
                } else if i == init.len() - 1 {
                    assert(b == init[i][k]);
                } else {
                    assert(split(name)[i] == init[i]);
                }
                assert(init[i][k] != SLASH);
                assert(front.contains(init[i][k]));
                let j = choose|j: int| 0 <= j < front.len() && front[j] == b;
                assert(name[j] == b);
            }
        }
    }
}

/// What `resolve` keeps is plain, provided that no component it was given
/// holds a slash or a NUL byte.
pub proof fn lemma_resolve_plain(parts: Seq<Seq<u8>>)
    requires
        forall|i: int, k: int|
            0 <= i < parts.len() && 0 <= k < parts[i].len() ==> #[trigger] parts[i][k] != SLASH
                && parts[i][k] != 0u8,
    ensures
        resolve(parts) matches Some(p) ==> all_plain(p),
    decreases parts.len(),
{
    if parts.len() > 0 {
        let front = parts.drop_last();
        assert forall|i: int, k: int|
            0 <= i < front.len() && 0 <= k < front[i].len() implies #[trigger] front[i][k] != SLASH
            && front[i][k] != 0u8 by {
            assert(front[i][k] == parts[i][k]);
        }
        lemma_resolve_plain(front);
        let c = parts.last();
        assert(forall|k: int| 0 <= k < c.len() ==> c[k] == parts[parts.len() - 1][k]);
    }
}

/// A contained path consists of plain components only: joined to a
/// directory it cannot name anything outside that directory.
pub proof fn lemma_contained_is_plain(name: Seq<u8>)
    ensures
        contained_path(name) matches Some(p) ==> all_plain(p),
{
    if !has_nul(name) && !is_absolute(name) {
        lemma_split_bytes(name);
        let parts = split(name);
        assert forall|i: int, k: int|
            0 <= i < parts.len() && 0 <= k < parts[i].len() implies #[trigger] parts[i][k] != SLASH
            && parts[i][k] != 0u8 by {
            let b = parts[i][k];
            assert(name.contains(b));
            if b == 0u8 {
                let j = choose|j: int| 0 <= j < name.len() && name[j] == b;
                assert(has_nul(name));
            }
        }
        lemma_resolve_plain(parts);
    }
}

/// A copy of a byte string.
pub fn copy_bytes(src: &Vec<u8>) -> (out: Vec<u8>)
    ensures
        out@ == src@,
{
    let mut out: Vec<u8> = Vec::new();
    let mut i: usize = 0;
    while i < src.len()
        invariant
            i <= src.len(),
            out@ == src@.take(i as int),
        decreases src.len() - i,
    {
        out.push(src[i]);
        i += 1;
        assert(src@.take(i as int) =~= src@.take(i - 1).push(src@[i - 1]));
    }
    assert(src@.take(src.len() as int) =~= src@);
    out
}

/// Splits an entry name at its slashes.
pub fn split_components(name: &Vec<u8>) -> (parts: Vec<Vec<u8>>)
    ensures
        components(parts@) == split(name@),
{
    let mut parts: Vec<Vec<u8>> = Vec::new();
    let mut cur: Vec<u8> = Vec::new();
    let mut i: usize = 0;
    while i < name.len()
        invariant
            i <= name.len(),
            components(parts@).push(cur@) == split(name@.take(i as int)),
        decreases name.len() - i,
    {
        let b: u8 = name[i];
        let ghost before = name@.take(i as int);
        let ghost old_parts = components(parts@);
        let ghost old_cur = cur@;
        if b == SLASH {
            parts.push(cur);
            cur = Vec::new();
            assert(components(parts@) =~= old_parts.push(old_cur));
        } else {
            cur.push(b);
            assert(old_parts.push(old_cur).drop_last() =~= old_parts);
        }
        i += 1;
        assert(name@.take(i as int).drop_last() =~= before);
        assert(name@.take(i as int).last() == b);
    }
    assert(name@.take(name.len() as int) =~= name@);
    let ghost done = components(parts@);
    parts.push(cur);
    assert(components(parts@) =~= done.push(cur@));
    parts
}

/// Whether the name holds a NUL byte.
pub fn contains_nul(name: &Vec<u8>) -> (found: bool)
    ensures
        found == has_nul(name@),
{
    let mut i: usize = 0;
    while i < name.len()
        invariant
            i <= name.len(),
            forall|k: int| 0 <= k < i ==> name@[k] != 0u8,
        decreases name.len() - i,
    {
        if name[i] == 0 {
            return true;
        }
        i += 1;
    }
    false
}

/// Resolves a component list lexically; see [`resolve`].
pub fn resolve_components(parts: &Vec<Vec<u8>>) -> (out: Option<Vec<Vec<u8>>>)
    ensures
        match out {
            Some(p) => resolve(components(parts@)) == Some(components(p@)),
            None => resolve(components(parts@)) is None,
        },
{
    let mut stack: Vec<Vec<u8>> = Vec::new();
    let mut i: usize = 0;
    let ghost all = components(parts@);
    while i < parts.len()
        invariant
            i <= parts.len(),
            all == components(parts@),
            resolve(all.take(i as int)) == Some(components(stack@)),
        decreases parts.len() - i,
    {
        let c = &parts[i];
        let ghost before = components(stack@);
        assert(all.take(i + 1).drop_last() =~= all.take(i as int));
        assert(all.take(i + 1).last() == c@);
        if c.len() == 0 || (c.len() == 1 && c[0] == DOT) {
        } else if c.len() == 2 && c[0] == DOT && c[1] == DOT {
            if stack.len() == 0 {
                proof {
                    lemma_resolve_none_extends(all, i + 1);
                }
                return None;
            }
            stack.pop();
            assert(components(stack@) =~= before.drop_last());
        } else {
            stack.push(copy_bytes(c));
            assert(components(stack@) =~= before.push(c@));
        }
        i += 1;
    }
    assert(all.take(parts.len() as int) =~= all);
    Some(stack)
}

/// Once a prefix of a component list leaves its root, so does the whole.
pub proof fn lemma_resolve_none_extends(parts: Seq<Seq<u8>>, n: int)
    requires
        0 <= n <= parts.len(),
        resolve(parts.take(n)) is None,
    ensures
        resolve(parts) is None,
    decreases parts.len() - n,
{
    if n < parts.len() {
        assert(parts.take(n + 1).drop_last() =~= parts.take(n));
        lemma_resolve_none_extends(parts, n + 1);
    } else {
        assert(parts.take(n) =~= parts);
    }
}

/// Resolves an entry name to the path it is extracted to below the
/// destination directory, or refuses it.
pub fn contained_components(name: &Vec<u8>) -> (out: Option<Vec<Vec<u8>>>)
    ensures
        match out {
            Some(p) => contained_path(name@) == Some(components(p@)) && all_plain(components(p@)),
            None => contained_path(name@) is None,
        },
{
    if contains_nul(name) {
        return None;
    }
    if name.len() > 0 && name[0] == SLASH {
        return None;
    }
    let parts = split_components(name);
    proof {
        lemma_contained_is_plain(name@);
    }
    resolve_components(&parts)
}

/// The byte `b` stands in some component of `parts`.
pub open spec fn occurs(parts: Seq<Seq<u8>>, b: u8) -> bool {
    exists|i: int, j: int| 0 <= i < parts.len() && 0 <= j < parts[i].len() && parts[i][j] == b
}

/// Every byte of a name but the slashes stands in one of its components.
pub proof fn lemma_split_covers(name: Seq<u8>, k: int)
    requires
        0 <= k < name.len(),
        name[k] != SLASH,
    ensures
        occurs(split(name), name[k]),
    decreases name.len(),
{
    let front = name.drop_last();
    let init = split(front);
    let whole = split(name);
    lemma_split_bytes(front);
    if k == name.len() - 1 {
        let i = whole.len() - 1;
        let j = whole[i].len() - 1;
        assert(whole[i][j] == name[k]);
    } else {
        lemma_split_covers(front, k);
        let (i, j) = choose|i: int, j: int|
            0 <= i < init.len() && 0 <= j < init[i].len() && init[i][j] == front[k];
        if name.last() == SLASH {
            assert(whole[i][j] == name[k]);
        } else if i == init.len() - 1 {
            assert(whole[i] == init[i].push(name.last()));
            assert(whole[i][j] == name[k]);
        } else {
            assert(whole[i][j] == name[k]);
        }
    }
}

/// The first component of an absolute name is empty.
pub proof fn lemma_split_absolute(name: Seq<u8>)
    requires
        is_absolute(name),
    ensures
        split(name).len() >= 2,
        split(name)[0].len() == 0,
    decreases name.len(),
{
    let front = name.drop_last();
    if front.len() == 0 {
        assert(split(front) =~= seq![Seq::<u8>::empty()]);
    } else {
        assert(front[0] == name[0]);
        lemma_split_absolute(front);
    }
}

/// Resolution leaves a list of plain components as it is.
pub proof fn lemma_resolve_plain_identity(parts: Seq<Seq<u8>>)
    requires
        all_plain(parts),
    ensures
        resolve(parts) == Some(parts),
    decreases parts.len(),
{
    if parts.len() == 0 {
        assert(parts =~= Seq::<Seq<u8>>::empty());
    } else {
        let front = parts.drop_last();
        assert forall|i: int| 0 <= i < front.len() implies is_plain(#[trigger] front[i]) by {
            assert(front[i] == parts[i]);
        }
        lemma_resolve_plain_identity(front);
        assert(is_plain(parts[parts.len() - 1]));
        assert(front.push(parts.last()) =~= parts);
    }
}

/// A name whose components are all plain holds no NUL byte and is not
/// absolute.
pub proof fn lemma_plain_name_is_clean(name: Seq<u8>)
    requires
        all_plain(split(name)),
    ensures
        !has_nul(name),
        !is_absolute(name),
{
    if has_nul(name) {
        let k = choose|k: int| 0 <= k < name.len() && name[k] == 0u8;
        lemma_split_covers(name, k);
        let parts = split(name);
        let (i, j) = choose|i: int, j: int|
            0 <= i < parts.len() && 0 <= j < parts[i].len() && parts[i][j] == name[k];
        assert(is_plain(parts[i]));
    }
    if is_absolute(name) {
        lemma_split_absolute(name);
        assert(is_plain(split(name)[0]));
    }
}

} // verus!
