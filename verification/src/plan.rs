//! From entry names to destinations, and from the entries of an archive in
//! memory to the steps that install them.

use vstd::prelude::*;
use crate::model::ArchiveEntry;
use crate::model::EntryView;
use crate::model::Step;
use crate::model::StepView;
use crate::model::entries_view;
use crate::model::steps_view;
use crate::path::all_plain;
use crate::path::components;
use crate::path::contained_components;
use crate::path::contained_path;
use crate::path::contains_nul;
use crate::path::copy_bytes;
use crate::path::has_nul;
use crate::path::is_absolute;
use crate::path::lemma_resolve_plain;
use crate::path::lemma_split_bytes;
use crate::path::resolve;
use crate::path::resolve_components;
use crate::path::split;
use crate::path::split_components;
use crate::path::SLASH;

verus! {

/// Which of the two installations is planned.
#[derive(Clone, Copy, Debug)]
pub enum Rule {
    /// The loader package: only what lies under the top-level folder
    /// `UE4SS` is installed, with that folder stripped.
    Loader,
    /// A mod archive: every entry is installed under `Mods`, path unchanged.
    Mods,
}

/// Lower-case form of an ASCII letter; any other byte unchanged.
pub open spec fn ascii_lower(b: u8) -> u8 {
    if 65 <= b <= 90 {
        (b + 32) as u8
    } else {
        b
    }
}

/// The bytes of `ue4ss`.
pub open spec fn loader_root() -> Seq<u8> {
    seq![117u8, 101u8, 52u8, 115u8, 115u8]
}

/// The bytes of `Mods`.
pub open spec fn mods_folder() -> Seq<u8> {
    seq![77u8, 111u8, 100u8, 115u8]
}

/// The component is `UE4SS`, in any mix of upper and lower case.
pub open spec fn is_loader_root(c: Seq<u8>) -> bool {
    &&& c.len() == 5
    &&& forall|k: int| 0 <= k < 5 ==> ascii_lower(c[k]) == loader_root()[k]
}

/// Where the loader installation puts an entry, relative to the target
/// directory. The entry's own first component, as the name is written, has
/// to be `UE4SS`; what follows it is resolved by itself and has to stay
/// below the target directory and name something. `None`: the entry is
/// skipped.
pub open spec fn loader_path(name: Seq<u8>) -> Option<Seq<Seq<u8>>> {
    if has_nul(name) || is_absolute(name) || !is_loader_root(split(name)[0]) {
        None
    } else {
        match resolve(split(name).skip(1)) {
            Some(rest) => if rest.len() >= 1 {
                Some(rest)
            } else {
                None
            },
            None => None,
        }
    }
}

/// Where a mod installation puts an entry, relative to the target
/// directory: `Mods`, then the contained path. `None`: the entry is skipped.
pub open spec fn mods_path(name: Seq<u8>) -> Option<Seq<Seq<u8>>> {
    match contained_path(name) {
        Some(p) => Some(seq![mods_folder()] + p),
        None => None,
    }
}

/// The destination of an entry under a rule.
pub open spec fn destination(rule: Rule, name: Seq<u8>) -> Option<Seq<Seq<u8>>> {
    match rule {
        Rule::Loader => loader_path(name),
        Rule::Mods => mods_path(name),
    }
}

/// The step that installs one entry, if it is installed at all.
pub open spec fn step_for(rule: Rule, e: EntryView) -> Option<StepView> {
    match destination(rule, e.name) {
        Some(path) => Some(
            if e.is_dir {
                StepView::CreateDir { path }
            } else {
                StepView::WriteFile { path, data: e.data }
            },
        ),
        None => None,
    }
}

/// The steps that install a list of entries: one per installed entry, in
/// archive order.
pub open spec fn planned(rule: Rule, entries: Seq<EntryView>) -> Seq<StepView>
    decreases entries.len(),
{
    if entries.len() == 0 {
        Seq::<StepView>::empty()
    } else {
        let front = planned(rule, entries.drop_last());
        match step_for(rule, entries.last()) {
            Some(s) => front.push(s),
            None => front,
        }
    }
}

/// Whether a component is `UE4SS` in any case.
pub fn names_loader_root(c: &Vec<u8>) -> (yes: bool)
    ensures
        yes == is_loader_root(c@),
{
    if c.len() != 5 {
        return false;
    }
    let expected: [u8; 5] = [117, 101, 52, 115, 115];
    let mut k: usize = 0;
    while k < 5
        invariant
            k <= 5,
            c@.len() == 5,
            expected@ == loader_root(),
            forall|j: int| 0 <= j < k ==> ascii_lower(c@[j]) == loader_root()[j],
        decreases 5 - k,
    {
        let b: u8 = c[k];
        let low: u8 = if 65 <= b && b <= 90 {
            b + 32
        } else {
            b
        };
        if low != expected[k] {
            assert(ascii_lower(c@[k as int]) != loader_root()[k as int]);
            return false;
        }
        k += 1;
    }
    true
}

/// The folder name `Mods`.
pub fn mods_folder_name() -> (name: Vec<u8>)
    ensures
        name@ == mods_folder(),
{
    let mut name: Vec<u8> = Vec::new();
    name.push(77);
    name.push(111);
    name.push(100);
    name.push(115);
    assert(name@ =~= mods_folder());
    name
}

/// A loader destination consists of plain components only.
pub proof fn lemma_loader_path_plain(name: Seq<u8>)
    ensures
        loader_path(name) matches Some(p) ==> all_plain(p),
{
    if !has_nul(name) {
        lemma_split_bytes(name);
        let parts = split(name);
        let tail = parts.skip(1);
        assert forall|i: int, k: int|
            0 <= i < tail.len() && 0 <= k < tail[i].len() implies #[trigger] tail[i][k] != SLASH
            && tail[i][k] != 0u8 by {
            let b = parts[i + 1][k];
            assert(tail[i][k] == b);
            assert(name.contains(b));
            if b == 0u8 {
                let j = choose|j: int| 0 <= j < name.len() && name[j] == b;
                assert(has_nul(name));
            }
        }
        lemma_resolve_plain(tail);
    }
}

/// Destination of a loader entry; see [`loader_path`].
pub fn loader_destination(name: &Vec<u8>) -> (out: Option<Vec<Vec<u8>>>)
    ensures
        match out {
            Some(p) => loader_path(name@) == Some(components(p@)) && all_plain(components(p@)),
            None => loader_path(name@) is None,
        },
{
    if contains_nul(name) {
        return None;
    }
    if name.len() > 0 && name[0] == SLASH {
        return None;
    }
    let full = split_components(name);
    proof {
        lemma_split_bytes(name@);
        lemma_loader_path_plain(name@);
    }
    let ghost whole = components(full@);
    assert(whole[0] == full@[0]@);
    if !names_loader_root(&full[0]) {
        return None;
    }
    let mut rest: Vec<Vec<u8>> = Vec::new();
    let mut i: usize = 1;
    assert(components(rest@) =~= whole.subrange(1, 1));
    while i < full.len()
        invariant
            1 <= i <= full.len(),
            whole == components(full@),
            components(rest@) == whole.subrange(1, i as int),
        decreases full.len() - i,
    {
        let ghost before = components(rest@);
        rest.push(copy_bytes(&full[i]));
        i += 1;
        assert(components(rest@) =~= before.push(whole[i - 1]));
        assert(whole.subrange(1, i as int) =~= whole.subrange(1, i - 1).push(whole[i - 1]));
    }
    assert(whole.subrange(1, full.len() as int) =~= whole.skip(1));
    match resolve_components(&rest) {
        None => None,
        Some(p) => {
            if p.len() == 0 {
                None
            } else {
                Some(p)
            }
        },
    }
}

/// Destination of a mod entry; see [`mods_path`].
pub fn mod_destination(name: &Vec<u8>) -> (out: Option<Vec<Vec<u8>>>)
    ensures
        match out {
            Some(p) => mods_path(name@) == Some(components(p@)) && all_plain(components(p@)),
            None => mods_path(name@) is None,
        },
{
    match contained_components(name) {
        None => None,
        Some(inner) => {
            let ghost tail = components(inner@);
            let mut full: Vec<Vec<u8>> = Vec::new();
            full.push(mods_folder_name());
            assert(components(full@) =~= seq![mods_folder()]);
            let mut i: usize = 0;
            while i < inner.len()
                invariant
                    i <= inner.len(),
                    tail == components(inner@),
                    components(full@) == seq![mods_folder()] + tail.take(i as int),
                decreases inner.len() - i,
            {
                let ghost before = components(full@);
                full.push(copy_bytes(&inner[i]));
                i += 1;
                assert(components(full@) =~= before.push(tail[i - 1]));
                assert(tail.take(i as int) =~= tail.take(i - 1).push(tail[i - 1]));
                assert(seq![mods_folder()] + tail.take(i as int) =~= (seq![mods_folder()]
                    + tail.take(i - 1)).push(tail[i - 1]));
            }
            assert(tail.take(inner.len() as int) =~= tail);
            proof {
                lemma_mods_folder_plain();
                let whole = seq![mods_folder()] + tail;
                assert forall|j: int| 0 <= j < whole.len() implies crate::path::is_plain(
                    #[trigger] whole[j],
                ) by {
                    if j > 0 {
                        assert(whole[j] == tail[j - 1]);
                    }
                }
            }
            Some(full)
        },
    }
}

/// `Mods` is a plain component.
pub proof fn lemma_mods_folder_plain()
    ensures
        crate::path::is_plain(mods_folder()),
{
}

/// Destination of an entry under a rule; see [`destination`].
pub fn entry_destination(rule: Rule, name: &Vec<u8>) -> (out: Option<Vec<Vec<u8>>>)
    ensures
        match out {
            Some(p) => destination(rule, name@) == Some(components(p@)) && all_plain(
                components(p@),
            ),
            None => destination(rule, name@) is None,
        },
{
    match rule {
        Rule::Loader => loader_destination(name),
        Rule::Mods => mod_destination(name),
    }
}

/// How the machine that installs reads an entry name.
#[derive(Clone, Copy, Debug)]
pub enum Host {
    /// Only `/` separates components; `\` is a byte of a file name.
    Posix,
    /// `\` separates components as `/` does.
    Windows,
}

/// The byte `\`.
pub const BACKSLASH: u8 = 92;

/// An entry name as the host reads it: on Windows every `\` stands for a
/// `/`; elsewhere the name is read as it is written.
pub open spec fn host_name(host: Host, name: Seq<u8>) -> Seq<u8> {
    match host {
        Host::Posix => name,
        Host::Windows => Seq::new(
            name.len(),
            |i: int|
                if name[i] == BACKSLASH {
                    SLASH
                } else {
                    name[i]
                },
        ),
    }
}

/// The name as the host reads it; see [`host_name`].
pub fn host_bytes(host: Host, name: &Vec<u8>) -> (out: Vec<u8>)
    ensures
        out@ == host_name(host, name@),
{
    let mut out: Vec<u8> = Vec::new();
    let mut i: usize = 0;
    while i < name.len()
        invariant
            i <= name.len(),
            out@.len() == i,
            forall|k: int| 0 <= k < i ==> out@[k] == host_name(host, name@)[k],
        decreases name.len() - i,
    {
        let b: u8 = name[i];
        let read: u8 = match host {
            Host::Posix => b,
            Host::Windows => if b == BACKSLASH {
                SLASH
            } else {
                b
            },
        };
        out.push(read);
        i += 1;
    }
    assert(out@ =~= host_name(host, name@));
    out
}

/// The destination of an entry whose name the archive reader has vetted:
/// none where it refused the name, else what the rule gives for the name
/// as the host reads it.
pub open spec fn target(rule: Rule, host: Host, enclosed: Option<Seq<u8>>) -> Option<
    Seq<Seq<u8>>,
> {
    match enclosed {
        Some(name) => destination(rule, host_name(host, name)),
        None => None,
    }
}

/// What is to be done with one entry.
#[derive(Clone, Debug, PartialEq, Eq)]
pub enum Placement {
    /// Nothing: the entry is not installed.
    Skip,
    /// A directory is created at `path`.
    Dir { path: Vec<Vec<u8>> },
    /// The entry's bytes are written to the file at `path`.
    File { path: Vec<Vec<u8>> },
}

/// Decides what is to be done with one entry, from its vetted name and its
/// kind. Every installation, from an archive file or from entries held in
/// memory, takes this decision entry by entry.
pub fn place(rule: Rule, host: Host, enclosed: Option<&Vec<u8>>, is_dir: bool) -> (out: Placement)
    ensures
        match out {
            Placement::Skip => target(rule, host, enclosed_view(enclosed)) is None,
            Placement::Dir { path } => is_dir && target(rule, host, enclosed_view(enclosed)) == Some(
                components(path@),
            ) && all_plain(components(path@)),
            Placement::File { path } => !is_dir && target(rule, host, enclosed_view(enclosed)) == Some(
                components(path@),
            ) && all_plain(components(path@)),
        },
{
    match enclosed {
        None => Placement::Skip,
        Some(name) => match entry_destination(rule, &host_bytes(host, name)) {
            None => Placement::Skip,
            Some(path) => if is_dir {
                Placement::Dir { path }
            } else {
                Placement::File { path }
            },
        },
    }
}

/// The bytes of a vetted name, if there is one.
pub open spec fn enclosed_view(enclosed: Option<&Vec<u8>>) -> Option<Seq<u8>> {
    match enclosed {
        Some(name) => Some(name@),
        None => None,
    }
}

/// The steps that install the entries of an archive held in memory, whose
/// names are written with `/`.
pub fn plan(rule: Rule, entries: &Vec<ArchiveEntry>) -> (steps: Vec<Step>)
    ensures
        steps_view(steps@) == planned(rule, entries_view(entries@)),
{
    let mut steps: Vec<Step> = Vec::new();
    let ghost all = entries_view(entries@);
    let mut i: usize = 0;
    assert(steps_view(steps@) =~= planned(rule, all.take(0)));
    while i < entries.len()
        invariant
            i <= entries.len(),
            all == entries_view(entries@),
            steps_view(steps@) == planned(rule, all.take(i as int)),
        decreases entries.len() - i,
    {
        let e = &entries[i];
        let ghost before = steps_view(steps@);
        assert(all.take(i + 1).drop_last() =~= all.take(i as int));
        assert(all.take(i + 1).last() == e@);
        match place(rule, Host::Posix, Some(&e.name), e.is_dir) {
            Placement::Skip => {},
            Placement::Dir { path } => {
                let step = Step::CreateDir { path };
                steps.push(step);
                assert(steps_view(steps@) =~= before.push(step@));
            },
            Placement::File { path } => {
                let step = Step::WriteFile { path, data: copy_bytes(&e.data) };
                steps.push(step);
                assert(steps_view(steps@) =~= before.push(step@));
            },
        }
        i += 1;
    }
    assert(all.take(entries.len() as int) =~= all);
    steps
}

/// The steps of a loader installation from entries held in memory.
pub fn plan_loader(entries: &Vec<ArchiveEntry>) -> (steps: Vec<Step>)
    ensures
        steps_view(steps@) == planned(Rule::Loader, entries_view(entries@)),
{
    plan(Rule::Loader, entries)
}

/// The steps of a mod installation from entries held in memory.
pub fn plan_mod(entries: &Vec<ArchiveEntry>) -> (steps: Vec<Step>)
    ensures
        steps_view(steps@) == planned(Rule::Mods, entries_view(entries@)),
{
    plan(Rule::Mods, entries)
}

} // verus!
