//! Turning what a directory holds into the lists that are shown: the
//! installed mods, and the folders below a root.

use vstd::prelude::*;
use vstd::string::StringExecFns;

verus! {

/// One immediate child of the `Mods` folder, as the caller found it.
#[derive(Clone, Debug, PartialEq, Eq)]
pub struct DirChild {
    /// The child's file name, or `None` where it is not valid Unicode.
    pub name: Option<String>,
    /// The child is a directory.
    pub is_dir: bool,
}

/// One entry met while walking a directory tree.
#[derive(Clone, Debug, PartialEq, Eq)]
pub struct TreeEntry {
    /// The entry's path below the root of the walk, one component per
    /// element. Empty for the root itself.
    pub relative: Vec<String>,
    /// The entry is a directory.
    pub is_dir: bool,
}

/// The views of a list of strings, in order.
pub open spec fn texts(v: Seq<String>) -> Seq<Seq<char>> {
    Seq::new(v.len(), |i: int| v[i]@)
}

/// The child counts as an installed mod: a directory with a readable name.
pub open spec fn is_mod(c: DirChild) -> bool {
    c.is_dir && c.name is Some
}

/// The names of the installed mods among `children`, in the order in which
/// the children were enumerated.
pub open spec fn mod_names(children: Seq<DirChild>) -> Seq<Seq<char>>
    decreases children.len(),
{
    if children.len() == 0 {
        Seq::<Seq<char>>::empty()
    } else {
        let front = mod_names(children.drop_last());
        if is_mod(children.last()) {
            front.push(children.last().name->0@)
        } else {
            front
        }
    }
}

/// `mod_names` holds a name exactly if some child is a directory of that
/// name: files directly inside `Mods` never show, and no folder is missed.
pub proof fn lemma_mod_names_exact(children: Seq<DirChild>, name: Seq<char>)
    ensures
        mod_names(children).contains(name) <==> exists|i: int|
            0 <= i < children.len() && is_mod(#[trigger] children[i]) && children[i].name->0@
                == name,
    decreases children.len(),
{
    if children.len() > 0 {
        let front = children.drop_last();
        let last = children.last();
        lemma_mod_names_exact(front, name);
        let names = mod_names(children);
        if names.contains(name) {
            let j = choose|j: int| 0 <= j < names.len() && names[j] == name;
            if is_mod(last) && j == names.len() - 1 {
                assert(is_mod(children[children.len() - 1]));
            } else {
                assert(mod_names(front)[j] == name);
                assert(mod_names(front).contains(name));
                let i = choose|i: int|
                    0 <= i < front.len() && is_mod(#[trigger] front[i]) && front[i].name->0@
                        == name;
                assert(children[i] == front[i]);
            }
        }
        if exists|i: int|
            0 <= i < children.len() && is_mod(#[trigger] children[i]) && children[i].name->0@
                == name {
            let i = choose|i: int|
                0 <= i < children.len() && is_mod(#[trigger] children[i]) && children[i].name->0@
                    == name;
            if i == children.len() - 1 {
                assert(names == mod_names(front).push(name));
                assert(names[names.len() - 1] == name);
            } else {
                assert(front[i] == children[i]);
                assert(mod_names(front).contains(name));
                let j = choose|j: int| 0 <= j < mod_names(front).len() && mod_names(front)[j] == name;
                assert(names[j] == name);
            }
        }
    }
}

/// Lists the installed mods. `children` holds the immediate children of the
/// `Mods` folder, or is `None` where that folder does not exist or is no
/// directory: the list is then empty. Else the list names every child that
/// is a directory, in enumeration order, and nothing else.
pub fn list_installed_mods(children: Option<&Vec<DirChild>>) -> (mods: Vec<String>)
    ensures
        texts(mods@) == (match children {
            Some(c) => mod_names(c@),
            None => Seq::<Seq<char>>::empty(),
        }),
{
    let mut mods: Vec<String> = Vec::new();
    assert(texts(mods@) =~= Seq::<Seq<char>>::empty());
    match children {
        None => mods,
        Some(c) => {
            let mut i: usize = 0;
            assert(c@.take(0) =~= Seq::<DirChild>::empty());
            while i < c.len()
                invariant
                    i <= c.len(),
                    texts(mods@) == mod_names(c@.take(i as int)),
                decreases c.len() - i,
            {
                let child = &c[i];
                let ghost before = texts(mods@);
                assert(c@.take(i + 1).drop_last() =~= c@.take(i as int));
                assert(c@.take(i + 1).last() == *child);
                if child.is_dir {
                    match &child.name {
                        Some(name) => {
                            mods.push(name.clone());
                            assert(texts(mods@) =~= before.push(name@));
                        },
                        None => {},
                    }
                }
                i += 1;
            }
            assert(c@.take(c.len() as int) =~= c@);
            mods
        },
    }
}

/// The components joined by `/`, the separator used on every host.
pub open spec fn joined(parts: Seq<Seq<char>>) -> Seq<char>
    decreases parts.len(),
{
    if parts.len() == 0 {
        Seq::<char>::empty()
    } else if parts.len() == 1 {
        parts[0]
    } else {
        joined(parts.drop_last()) + seq!['/'] + parts.last()
    }
}

/// The entry is listed: a directory other than the root of the walk.
pub open spec fn is_listed(e: TreeEntry) -> bool {
    e.is_dir && e.relative@.len() > 0
}

/// The relative paths of the directories among `walk`, in walk order.
pub open spec fn dir_paths(walk: Seq<TreeEntry>) -> Seq<Seq<char>>
    decreases walk.len(),
{
    if walk.len() == 0 {
        Seq::<Seq<char>>::empty()
    } else {
        let front = dir_paths(walk.drop_last());
        if is_listed(walk.last()) {
            front.push(joined(texts(walk.last().relative@)))
        } else {
            front
        }
    }
}

/// Joins path components with `/`.
pub fn join_components(parts: &Vec<String>) -> (out: String)
    ensures
        out@ == joined(texts(parts@)),
{
    let mut out = String::new();
    let ghost all = texts(parts@);
    let mut i: usize = 0;
    assert(all.take(0) =~= Seq::<Seq<char>>::empty());
    while i < parts.len()
        invariant
            i <= parts.len(),
            all == texts(parts@),
            out@ == joined(all.take(i as int)),
        decreases parts.len() - i,
    {
        assert(all.take(i + 1).drop_last() =~= all.take(i as int));
        assert(all.take(i + 1).last() == parts@[i as int]@);
        if i > 0 {
            proof {
                reveal_strlit("/");
            }
            out.append("/");
            assert("/"@ =~= seq!['/']);
        } else {
            assert(all.take(1)[0] == parts@[0]@);
        }
        out.append(parts[i].as_str());
        i += 1;
        assert(out@ =~= joined(all.take(i as int)));
    }
    assert(all.take(parts.len() as int) =~= all);
    out
}

/// Lists the folders below a root. `walk` holds every entry of the subtree,
/// each visited once, or is `None` where the root does not exist: the list
/// is then empty. Else the list holds the relative path of every directory
/// but the root itself, components joined by `/`, in walk order; files are
/// left out.
pub fn list_all_files_and_dirs(walk: Option<&Vec<TreeEntry>>) -> (dirs: Vec<String>)
    ensures
        texts(dirs@) == (match walk {
            Some(w) => dir_paths(w@),
            None => Seq::<Seq<char>>::empty(),
        }),
{
    let mut dirs: Vec<String> = Vec::new();
    assert(texts(dirs@) =~= Seq::<Seq<char>>::empty());
    match walk {
        None => dirs,
        Some(w) => {
            let mut i: usize = 0;
            assert(w@.take(0) =~= Seq::<TreeEntry>::empty());
            while i < w.len()
                invariant
                    i <= w.len(),
                    texts(dirs@) == dir_paths(w@.take(i as int)),
                decreases w.len() - i,
            {
                let entry = &w[i];
                let ghost before = texts(dirs@);
                assert(w@.take(i + 1).drop_last() =~= w@.take(i as int));
                assert(w@.take(i + 1).last() == *entry);
                if entry.is_dir && entry.relative.len() > 0 {
                    let path = join_components(&entry.relative);
                    dirs.push(path);
                    assert(texts(dirs@) =~= before.push(path@));
                }
                i += 1;
            }
            assert(w@.take(w.len() as int) =~= w@);
            dirs
        },
    }
}

/// The test that picks the installed mods among the children.
pub open spec fn mod_filter() -> spec_fn(DirChild) -> bool {
    |c: DirChild| is_mod(c)
}

/// The name of a child that has one.
pub open spec fn mod_label() -> spec_fn(DirChild) -> Seq<char> {
    |c: DirChild| c.name->0@
}

/// The list of mods is the list of children that are folders, each by its
/// bare name as the caller found it: as many names as there are folders.
pub proof fn law_mod_names_are_the_folders(children: Seq<DirChild>)
    ensures
        mod_names(children) == children.filter(mod_filter()).map_values(mod_label()),
        mod_names(children).len() == children.filter(mod_filter()).len(),
    decreases children.len(),
{
    reveal(Seq::filter);
    if children.len() == 0 {
        assert(mod_names(children) =~= children.filter(mod_filter()).map_values(mod_label()));
    } else {
        let front = children.drop_last();
        law_mod_names_are_the_folders(front);
        let kept = front.filter(mod_filter());
        if is_mod(children.last()) {
            assert(children.filter(mod_filter()) == kept.push(children.last()));
            assert(kept.push(children.last()).map_values(mod_label()) =~= kept.map_values(
                mod_label(),
            ).push(children.last().name->0@));
        } else {
            assert(children.filter(mod_filter()) == kept);
        }
    }
}

/// Folders with different names give a list without repeats.
pub proof fn law_mod_names_distinct(children: Seq<DirChild>)
    requires
        forall|i: int, j: int|
            #![trigger children[i], children[j]]
            0 <= i < j < children.len() && is_mod(children[i]) && is_mod(children[j])
                ==> children[i].name->0@ != children[j].name->0@,
    ensures
        mod_names(children).no_duplicates(),
    decreases children.len(),
{
    if children.len() > 0 {
        let front = children.drop_last();
        let last = children.last();
        assert forall|i: int, j: int|
            #![trigger front[i], front[j]]
            0 <= i < j < front.len() && is_mod(front[i]) && is_mod(front[j]) implies front[i].name->0@
            != front[j].name->0@ by {
            assert(front[i] == children[i] && front[j] == children[j]);
        }
        law_mod_names_distinct(front);
        let names = mod_names(front);
        if is_mod(last) {
            let label = last.name->0@;
            lemma_mod_names_exact(front, label);
            if names.contains(label) {
                let i = choose|i: int|
                    0 <= i < front.len() && is_mod(#[trigger] front[i]) && front[i].name->0@
                        == label;
                assert(front[i] == children[i]);
                assert(children[children.len() - 1] == last);
                assert(false);
            }
            assert forall|x: int, y: int|
                0 <= x < names.push(label).len() && 0 <= y < names.push(label).len() && x
                    != y implies names.push(label)[x] != names.push(label)[y] by {
                if x == names.len() {
                    if names[y] == label {
                        assert(names.contains(label));
                    }
                } else if y == names.len() {
                    if names[x] == label {
                        assert(names.contains(label));
                    }
                }
            }
        }
    }
}

/// The test that picks the listed folders among the entries of a walk.
pub open spec fn listed_filter() -> spec_fn(TreeEntry) -> bool {
    |e: TreeEntry| is_listed(e)
}

/// The relative path of an entry, components joined by `/`.
pub open spec fn path_label() -> spec_fn(TreeEntry) -> Seq<char> {
    |e: TreeEntry| joined(texts(e.relative@))
}

/// `dir_paths` holds a path exactly if the walk met a directory other than
/// the root at that path: none is left out, and no file shows.
pub proof fn lemma_dir_paths_exact(walk: Seq<TreeEntry>, path: Seq<char>)
    ensures
        dir_paths(walk).contains(path) <==> exists|i: int|
            0 <= i < walk.len() && is_listed(#[trigger] walk[i]) && joined(
                texts(walk[i].relative@),
            ) == path,
    decreases walk.len(),
{
    if walk.len() > 0 {
        let front = walk.drop_last();
        let last = walk.last();
        lemma_dir_paths_exact(front, path);
        let paths = dir_paths(walk);
        if paths.contains(path) {
            let j = choose|j: int| 0 <= j < paths.len() && paths[j] == path;
            if is_listed(last) && j == paths.len() - 1 {
                assert(is_listed(walk[walk.len() - 1]));
            } else {
                assert(dir_paths(front)[j] == path);
                assert(dir_paths(front).contains(path));
                let i = choose|i: int|
                    0 <= i < front.len() && is_listed(#[trigger] front[i]) && joined(
                        texts(front[i].relative@),
                    ) == path;
                assert(walk[i] == front[i]);
            }
        }
        if exists|i: int|
            0 <= i < walk.len() && is_listed(#[trigger] walk[i]) && joined(
                texts(walk[i].relative@),
            ) == path {
            let i = choose|i: int|
                0 <= i < walk.len() && is_listed(#[trigger] walk[i]) && joined(
                    texts(walk[i].relative@),
                ) == path;
            if i == walk.len() - 1 {
                assert(paths == dir_paths(front).push(path));
                assert(paths[paths.len() - 1] == path);
            } else {
                assert(front[i] == walk[i]);
                assert(dir_paths(front).contains(path));
                let j = choose|j: int|
                    0 <= j < dir_paths(front).len() && dir_paths(front)[j] == path;
                assert(paths[j] == path);
            }
        }
    }
}

/// The list of folders is the list of directories that the walk met, the
/// root left out, each by its relative path: as many paths as directories.
pub proof fn law_dir_paths_are_the_directories(walk: Seq<TreeEntry>)
    ensures
        dir_paths(walk) == walk.filter(listed_filter()).map_values(path_label()),
        dir_paths(walk).len() == walk.filter(listed_filter()).len(),
    decreases walk.len(),
{
    reveal(Seq::filter);
    if walk.len() == 0 {
        assert(dir_paths(walk) =~= walk.filter(listed_filter()).map_values(path_label()));
    } else {
        let front = walk.drop_last();
        law_dir_paths_are_the_directories(front);
        let kept = front.filter(listed_filter());
        if is_listed(walk.last()) {
            assert(walk.filter(listed_filter()) == kept.push(walk.last()));
            assert(kept.push(walk.last()).map_values(path_label()) =~= kept.map_values(
                path_label(),
            ).push(joined(texts(walk.last().relative@))));
        } else {
            assert(walk.filter(listed_filter()) == kept);
        }
    }
}

/// A walk that meets every directory at a path of its own gives a list
/// without repeats.
pub proof fn law_dir_paths_distinct(walk: Seq<TreeEntry>)
    requires
        forall|i: int, j: int|
            #![trigger walk[i], walk[j]]
            0 <= i < j < walk.len() && is_listed(walk[i]) && is_listed(walk[j]) ==> joined(
                texts(walk[i].relative@),
            ) != joined(texts(walk[j].relative@)),
    ensures
        dir_paths(walk).no_duplicates(),
    decreases walk.len(),
{
    if walk.len() > 0 {
        let front = walk.drop_last();
        let last = walk.last();
        assert forall|i: int, j: int|
            #![trigger front[i], front[j]]
            0 <= i < j < front.len() && is_listed(front[i]) && is_listed(front[j]) implies joined(
            texts(front[i].relative@),
        ) != joined(texts(front[j].relative@)) by {
            assert(front[i] == walk[i] && front[j] == walk[j]);
        }
        law_dir_paths_distinct(front);
        let paths = dir_paths(front);
        if is_listed(last) {
            let label = joined(texts(last.relative@));
            lemma_dir_paths_exact(front, label);
            if paths.contains(label) {
                let i = choose|i: int|
                    0 <= i < front.len() && is_listed(#[trigger] front[i]) && joined(
                        texts(front[i].relative@),
                    ) == label;
                assert(front[i] == walk[i]);
                assert(walk[walk.len() - 1] == last);
                assert(false);
            }
            assert forall|x: int, y: int|
                0 <= x < paths.push(label).len() && 0 <= y < paths.push(label).len() && x
                    != y implies paths.push(label)[x] != paths.push(label)[y] by {
                if x == paths.len() {
                    if paths[y] == label {
                        assert(paths.contains(label));
                    }
                } else if y == paths.len() {
                    if paths[x] == label {
                        assert(paths.contains(label));
                    }
                }
            }
        }
    }
}

/// The parts of a text between its slashes: what `joined` put together.
pub open spec fn parted(text: Seq<char>) -> Seq<Seq<char>>
    decreases text.len(),
{
    if text.len() == 0 {
        seq![Seq::<char>::empty()]
    } else {
        let init = parted(text.drop_last());
        if text.last() == '/' {
            init.push(Seq::<char>::empty())
        } else {
            init.drop_last().push(init.last().push(text.last()))
        }
    }
}

/// The text holds no slash.
pub open spec fn slash_free(text: Seq<char>) -> bool {
    forall|k: int| 0 <= k < text.len() ==> text[k] != '/'
}

/// The components are those of a path: at least one, none with a slash.
pub open spec fn is_path(parts: Seq<Seq<char>>) -> bool {
    parts.len() >= 1 && forall|i: int| 0 <= i < parts.len() ==> slash_free(#[trigger] parts[i])
}

/// A text without slashes is one part.
pub proof fn lemma_parted_single(text: Seq<char>)
    requires
        slash_free(text),
    ensures
        parted(text) == seq![text],
    decreases text.len(),
{
    if text.len() > 0 {
        let front = text.drop_last();
        lemma_parted_single(front);
        assert(seq![front].drop_last().push(front.push(text.last())) =~= seq![text]) by {
            assert(front.push(text.last()) =~= text);
        }
    } else {
        assert(text =~= Seq::<char>::empty());
    }
}

/// A slash and a text without slashes add one part.
pub proof fn lemma_parted_append(head: Seq<char>, tail: Seq<char>)
    requires
        slash_free(tail),
    ensures
        parted(head + seq!['/'] + tail) == parted(head).push(tail),
    decreases tail.len(),
{
    let whole = head + seq!['/'] + tail;
    if tail.len() == 0 {
        assert(whole.drop_last() =~= head);
        assert(tail =~= Seq::<char>::empty());
    } else {
        let front = tail.drop_last();
        lemma_parted_append(head, front);
        assert(whole.drop_last() =~= head + seq!['/'] + front);
        assert(whole.last() == tail.last());
        assert(front.push(tail.last()) =~= tail);
        assert(parted(head).push(front).drop_last() =~= parted(head));
    }
}

/// Parting what was joined gives the components back.
pub proof fn lemma_parted_joined(parts: Seq<Seq<char>>)
    requires
        is_path(parts),
    ensures
        parted(joined(parts)) == parts,
    decreases parts.len(),
{
    if parts.len() == 1 {
        lemma_parted_single(parts[0]);
        assert(seq![parts[0]] =~= parts);
    } else {
        let front = parts.drop_last();
        assert forall|i: int| 0 <= i < front.len() implies slash_free(#[trigger] front[i]) by {
            assert(front[i] == parts[i]);
        }
        lemma_parted_joined(front);
        assert(slash_free(parts[parts.len() - 1]));
        lemma_parted_append(joined(front), parts.last());
        assert(front.push(parts.last()) =~= parts);
    }
}

/// Different paths are joined to different texts.
pub proof fn law_joined_is_injective(a: Seq<Seq<char>>, b: Seq<Seq<char>>)
    requires
        is_path(a),
        is_path(b),
        joined(a) == joined(b),
    ensures
        a == b,
{
    lemma_parted_joined(a);
    lemma_parted_joined(b);
}

/// A walk that meets every directory once, at a path of its own, gives a
/// list in which every directory stands once.
pub proof fn law_walk_without_repeats(walk: Seq<TreeEntry>)
    requires
        forall|i: int|
            0 <= i < walk.len() && is_listed(#[trigger] walk[i]) ==> is_path(
                texts(walk[i].relative@),
            ),
        forall|i: int, j: int|
            #![trigger walk[i], walk[j]]
            0 <= i < j < walk.len() && is_listed(walk[i]) && is_listed(walk[j]) ==> texts(
                walk[i].relative@,
            ) != texts(walk[j].relative@),
    ensures
        dir_paths(walk).no_duplicates(),
{
    assert forall|i: int, j: int|
        #![trigger walk[i], walk[j]]
        0 <= i < j < walk.len() && is_listed(walk[i]) && is_listed(walk[j]) implies joined(
        texts(walk[i].relative@),
    ) != joined(texts(walk[j].relative@)) by {
        if joined(texts(walk[i].relative@)) == joined(texts(walk[j].relative@)) {
            law_joined_is_injective(texts(walk[i].relative@), texts(walk[j].relative@));
        }
    }
    law_dir_paths_distinct(walk);
}

} // verus!
