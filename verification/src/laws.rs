//! What holds of every plan, whatever the archive.

use vstd::prelude::*;
use crate::archive::archive_head;
use crate::archive::archive_payload;
use crate::install::extraction;
use crate::model::EntryView;
use crate::model::ReportView;
use crate::model::StepView;
use crate::path::all_plain;
use crate::path::contained_path;
use crate::path::has_nul;
use crate::path::lemma_contained_is_plain;
use crate::path::lemma_split_absolute;
use crate::path::lemma_split_covers;
use crate::path::is_absolute;
use crate::path::resolve;
use crate::path::lemma_plain_name_is_clean;
use crate::path::lemma_resolve_plain_identity;
use crate::path::split;
use crate::path::SLASH;
use crate::plan::host_name;
use crate::plan::is_loader_root;
use crate::plan::Host;
use crate::plan::lemma_mods_folder_plain;
use crate::plan::ascii_lower;
use crate::plan::lemma_loader_path_plain;
use crate::plan::loader_path;
use crate::plan::loader_root;
use crate::plan::mods_folder;
use crate::plan::mods_path;
use crate::plan::planned;
use crate::plan::step_for;
use crate::plan::Rule;

verus! {

/// The step that carries an entry to `path`: same kind, same bytes.
pub open spec fn carried(e: EntryView, path: Seq<Seq<u8>>) -> StepView {
    if e.is_dir {
        StepView::CreateDir { path }
    } else {
        StepView::WriteFile { path, data: e.data }
    }
}

/// The plan of two lists of entries in a row is the two plans in a row.
pub proof fn lemma_planned_concat(rule: Rule, a: Seq<EntryView>, b: Seq<EntryView>)
    ensures
        planned(rule, a + b) == planned(rule, a) + planned(rule, b),
    decreases b.len(),
{
    if b.len() == 0 {
        assert(a + b =~= a);
        assert(planned(rule, a) + planned(rule, b) =~= planned(rule, a));
    } else {
        assert((a + b).drop_last() =~= a + b.drop_last());
        assert((a + b).last() == b.last());
        lemma_planned_concat(rule, a, b.drop_last());
        assert(planned(rule, a + b) =~= planned(rule, a) + planned(rule, b));
    }
}

/// Where every entry is installed, the plan has one step per entry, in
/// archive order.
pub proof fn lemma_planned_all(rule: Rule, entries: Seq<EntryView>)
    requires
        forall|i: int| 0 <= i < entries.len() ==> step_for(rule, #[trigger] entries[i]) is Some,
    ensures
        planned(rule, entries).len() == entries.len(),
        forall|i: int|
            0 <= i < entries.len() ==> Some(#[trigger] planned(rule, entries)[i]) == step_for(
                rule,
                entries[i],
            ),
    decreases entries.len(),
{
    if entries.len() > 0 {
        let front = entries.drop_last();
        assert forall|i: int| 0 <= i < front.len() implies step_for(
            rule,
            #[trigger] front[i],
        ) is Some by {
            assert(front[i] == entries[i]);
        }
        lemma_planned_all(rule, front);
        assert(step_for(rule, entries[entries.len() - 1]) is Some);
        assert forall|i: int| 0 <= i < entries.len() implies Some(
            #[trigger] planned(rule, entries)[i],
        ) == step_for(rule, entries[i]) by {
            if i < front.len() {
                assert(planned(rule, entries)[i] == planned(rule, front)[i]);
                assert(front[i] == entries[i]);
            }
        }
    }
}

/// An entry that is not installed can be taken out of the archive, or put
/// into it anywhere, without changing the plan.
pub proof fn lemma_skipped_entry(rule: Rule, a: Seq<EntryView>, e: EntryView, b: Seq<EntryView>)
    requires
        step_for(rule, e) is None,
    ensures
        planned(rule, a.push(e) + b) == planned(rule, a + b),
{
    assert(a.push(e).drop_last() =~= a);
    lemma_planned_concat(rule, a.push(e), b);
    lemma_planned_concat(rule, a, b);
}

/// An entry that is installed stands in the plan where it stands in the
/// archive: its step follows the steps of the entries before it and comes
/// before those of the entries after it.
pub proof fn law_installed_entry_in_place(
    rule: Rule,
    a: Seq<EntryView>,
    e: EntryView,
    b: Seq<EntryView>,
)
    requires
        step_for(rule, e) is Some,
    ensures
        planned(rule, a.push(e) + b) == planned(rule, a).push(step_for(rule, e)->0) + planned(
            rule,
            b,
        ),
{
    assert(a.push(e).drop_last() =~= a);
    lemma_planned_concat(rule, a.push(e), b);
}

/// No byte of a component that reads `UE4SS` is a NUL byte.
proof fn lemma_loader_root_has_no_nul(c: Seq<u8>, j: int)
    requires
        is_loader_root(c),
        0 <= j < c.len(),
    ensures
        c[j] != 0u8,
{
    assert(ascii_lower(c[j]) == loader_root()[j]);
    assert(loader_root()[0] == 117u8 && loader_root()[1] == 101u8 && loader_root()[2] == 52u8
        && loader_root()[3] == 115u8 && loader_root()[4] == 115u8);
}

/// A file below `UE4SS` whose further components are plain loses exactly
/// that one leading component: the rest of its path is kept as it is.
pub proof fn law_loader_strips_root(name: Seq<u8>)
    requires
        split(name).len() >= 2,
        is_loader_root(split(name)[0]),
        all_plain(split(name).skip(1)),
    ensures
        loader_path(name) == Some(split(name).skip(1)),
{
    let parts = split(name);
    let tail = parts.skip(1);
    if is_absolute(name) {
        lemma_split_absolute(name);
    }
    if has_nul(name) {
        let k = choose|k: int| 0 <= k < name.len() && name[k] == 0u8;
        lemma_split_covers(name, k);
        let (i, j) = choose|i: int, j: int|
            0 <= i < parts.len() && 0 <= j < parts[i].len() && parts[i][j] == name[k];
        if i == 0 {
            lemma_loader_root_has_no_nul(parts[0], j);
        } else {
            assert(tail[i - 1] == parts[i]);
            assert(crate::path::is_plain(tail[i - 1]));
        }
    }
    lemma_resolve_plain_identity(tail);
}

/// A directory below `UE4SS`, written with its closing slash, loses exactly
/// that one leading component too.
pub proof fn law_loader_strips_root_of_dir(name: Seq<u8>)
    requires
        name.len() > 0,
        name.last() == SLASH,
        split(name.drop_last()).len() >= 2,
        is_loader_root(split(name.drop_last())[0]),
        all_plain(split(name.drop_last()).skip(1)),
    ensures
        loader_path(name) == Some(split(name.drop_last()).skip(1)),
{
    let stem = name.drop_last();
    law_loader_strips_root(stem);
    assert(stem.len() > 0);
    assert(stem[0] == name[0]);
    if has_nul(name) {
        let k = choose|k: int| 0 <= k < name.len() && name[k] == 0u8;
        assert(stem[k] == 0u8);
    }
    let tail = split(stem).skip(1);
    assert(split(name) == split(stem).push(Seq::<u8>::empty()));
    assert(split(name).skip(1) =~= tail.push(Seq::<u8>::empty()));
    assert(tail.push(Seq::<u8>::empty()).drop_last() =~= tail);
    lemma_resolve_plain_identity(tail);
}

/// The folder `UE4SS` itself, with or without a closing slash, is not
/// installed: nothing is left of its path after the strip.
pub proof fn law_loader_skips_root_folder(name: Seq<u8>)
    requires
        split(name).len() == 1 || (split(name).len() == 2 && split(name)[1].len() == 0),
    ensures
        loader_path(name) is None,
{
    let tail = split(name).skip(1);
    if tail.len() == 1 {
        assert(tail.drop_last() =~= Seq::<Seq<u8>>::empty());
        assert(resolve(tail.drop_last()) == Some(Seq::<Seq<u8>>::empty()));
        assert(tail.last() == split(name)[1]);
        assert(resolve(tail) == Some(Seq::<Seq<u8>>::empty()));
    } else {
        assert(tail =~= Seq::<Seq<u8>>::empty());
    }
}

/// In every archive, whatever else it holds, an entry that the loader rule
/// installs is carried to its path without the leading `UE4SS`, with its
/// kind and its bytes, in its place among the other steps.
pub proof fn law_loader_payload_entry(a: Seq<EntryView>, e: EntryView, b: Seq<EntryView>)
    requires
        loader_path(e.name) is Some,
    ensures
        planned(Rule::Loader, a.push(e) + b) == planned(Rule::Loader, a).push(
            carried(e, loader_path(e.name)->0),
        ) + planned(Rule::Loader, b),
{
    law_installed_entry_in_place(Rule::Loader, a, e, b);
}

/// An entry whose own first component is not `UE4SS` leaves no trace in the
/// loader plan: with or without it, wherever it stands, the steps are the
/// same.
pub proof fn law_loader_drops_foreign(a: Seq<EntryView>, e: EntryView, b: Seq<EntryView>)
    requires
        !is_loader_root(split(e.name)[0]),
    ensures
        step_for(Rule::Loader, e) is None,
        planned(Rule::Loader, a.push(e) + b) == planned(Rule::Loader, a + b),
{
    assert(loader_path(e.name) is None);
    lemma_skipped_entry(Rule::Loader, a, e, b);
}

/// An archive whose every entry has a contained name is reproduced by the
/// mod plan entry for entry: the same kinds and bytes in the same order,
/// each at `Mods` followed by its contained path.
pub proof fn law_mods_keeps_paths(entries: Seq<EntryView>)
    requires
        forall|i: int| 0 <= i < entries.len() ==> contained_path(#[trigger] entries[i].name) is Some,
    ensures
        planned(Rule::Mods, entries).len() == entries.len(),
        forall|i: int|
            0 <= i < entries.len() ==> #[trigger] planned(Rule::Mods, entries)[i] == carried(
                entries[i],
                seq![mods_folder()] + contained_path(entries[i].name)->0,
            ),
{
    assert forall|i: int| 0 <= i < entries.len() implies step_for(
        Rule::Mods,
        #[trigger] entries[i],
    ) is Some by {
        assert(contained_path(entries[i].name) is Some);
    }
    lemma_planned_all(Rule::Mods, entries);
    assert forall|i: int| 0 <= i < entries.len() implies #[trigger] planned(
        Rule::Mods,
        entries,
    )[i] == carried(entries[i], seq![mods_folder()] + contained_path(entries[i].name)->0) by {
        assert(contained_path(entries[i].name) is Some);
        assert(Some(planned(Rule::Mods, entries)[i]) == step_for(Rule::Mods, entries[i]));
    }
}

/// An entry whose name is absolute, holds a NUL byte or climbs above the
/// folder it is extracted into leaves no trace in the mod plan.
pub proof fn law_mods_drops_escaping(a: Seq<EntryView>, e: EntryView, b: Seq<EntryView>)
    requires
        contained_path(e.name) is None,
    ensures
        step_for(Rule::Mods, e) is None,
        planned(Rule::Mods, a.push(e) + b) == planned(Rule::Mods, a + b),
{
    assert(mods_path(e.name) is None);
    lemma_skipped_entry(Rule::Mods, a, e, b);
}

/// No step of any plan leaves the target directory: every destination is
/// made of plain components. Under the mod rule every destination lies
/// below `Mods`.
pub proof fn law_plan_stays_inside(rule: Rule, entries: Seq<EntryView>)
    ensures
        forall|j: int|
            0 <= j < planned(rule, entries).len() ==> all_plain(
                (#[trigger] planned(rule, entries)[j]).path(),
            ),
        rule is Mods ==> forall|j: int|
            0 <= j < planned(rule, entries).len() ==> (#[trigger] planned(
                rule,
                entries,
            )[j]).path().len() >= 1 && planned(rule, entries)[j].path()[0] == mods_folder(),
    decreases entries.len(),
{
    if entries.len() > 0 {
        let front = entries.drop_last();
        let e = entries.last();
        law_plan_stays_inside(rule, front);
        lemma_contained_is_plain(e.name);
        lemma_mods_folder_plain();
        match step_for(rule, e) {
            None => {},
            Some(s) => {
                let p = contained_path(e.name)->0;
                match rule {
                    Rule::Loader => {
                        lemma_loader_path_plain(e.name);
                        assert(s.path() == loader_path(e.name)->0);
                    },
                    Rule::Mods => {
                        let q = seq![mods_folder()] + p;
                        assert(s.path() == q);
                        assert forall|k: int| 0 <= k < q.len() implies crate::path::is_plain(
                            #[trigger] q[k],
                        ) by {
                            if k > 0 {
                                assert(q[k] == p[k - 1]);
                            }
                        }
                        assert(q[0] == mods_folder());
                    },
                }
                assert forall|j: int| 0 <= j < planned(rule, entries).len() implies all_plain(
                    (#[trigger] planned(rule, entries)[j]).path(),
                ) by {
                    if j < planned(rule, front).len() {
                        assert(planned(rule, entries)[j] == planned(rule, front)[j]);
                    }
                }
                if rule is Mods {
                    assert forall|j: int| 0 <= j < planned(rule, entries).len() implies (
                    #[trigger] planned(rule, entries)[j]).path().len() >= 1 && planned(
                        rule,
                        entries,
                    )[j].path()[0] == mods_folder() by {
                        if j < planned(rule, front).len() {
                            assert(planned(rule, entries)[j] == planned(rule, front)[j]);
                        }
                    }
                }
            },
        }
    }
}

/// Entry `i` of the archive in `bytes` is sound: it can be located, its
/// name is accepted by the archive reader, and the bytes of a file can be
/// read.
pub open spec fn sound_entry(bytes: Seq<u8>, i: nat) -> bool {
    archive_head(bytes, i) matches Some((Some(_), is_dir)) && (is_dir || archive_payload(bytes, i)
        is Some)
}

/// Entry `i` of the archive in `bytes` as a value in memory, its name as
/// the host reads it.
pub open spec fn entry_of(host: Host, bytes: Seq<u8>, i: nat) -> EntryView {
    let head = archive_head(bytes, i)->0;
    EntryView {
        name: host_name(host, head.0->0),
        is_dir: head.1,
        data: match archive_payload(bytes, i) {
            Some(d) => d,
            None => Seq::<u8>::empty(),
        },
    }
}

/// The first `n` entries of the archive in `bytes` as values in memory.
pub open spec fn listed(host: Host, bytes: Seq<u8>, n: nat) -> Seq<EntryView> {
    Seq::new(n, |i: int| entry_of(host, bytes, i as nat))
}

/// Extracting an archive whose entries are all sound never fails and gives
/// the plan of its entries: what holds of every plan holds of what the two
/// installations ask the caller to do.
pub proof fn law_extraction_follows_plan(
    rule: Rule,
    host: Host,
    bytes: Seq<u8>,
    first: Seq<StepView>,
    n: nat,
)
    requires
        forall|i: nat| i < n ==> sound_entry(bytes, i),
    ensures
        extraction(rule, host, bytes, first, n) == (ReportView {
            steps: first + planned(rule, listed(host, bytes, n)),
            failure: None,
        }),
    decreases n,
{
    if n == 0 {
        assert(first + planned(rule, listed(host, bytes, n)) =~= first);
    } else {
        let m = (n - 1) as nat;
        law_extraction_follows_plan(rule, host, bytes, first, m);
        assert(sound_entry(bytes, m));
        assert(listed(host, bytes, n).drop_last() =~= listed(host, bytes, m));
        assert(listed(host, bytes, n).last() == entry_of(host, bytes, m));
        let front = planned(rule, listed(host, bytes, m));
        match step_for(rule, entry_of(host, bytes, m)) {
            Some(s) => {
                assert(first + front.push(s) =~= (first + front).push(s));
            },
            None => {},
        }
    }
}

/// The name of a file whose components are all plain is kept verbatim: its
/// contained path is the list of its components.
pub proof fn law_plain_file_name_verbatim(name: Seq<u8>)
    requires
        all_plain(split(name)),
    ensures
        contained_path(name) == Some(split(name)),
        mods_path(name) == Some(seq![mods_folder()] + split(name)),
{
    lemma_plain_name_is_clean(name);
    lemma_resolve_plain_identity(split(name));
}

/// The name of a directory, plain components and a closing slash, is kept
/// verbatim too: its contained path is the list of those components.
pub proof fn law_plain_dir_name_verbatim(name: Seq<u8>)
    requires
        name.len() > 0,
        name.last() == SLASH,
        all_plain(split(name.drop_last())),
    ensures
        contained_path(name) == Some(split(name.drop_last())),
        mods_path(name) == Some(seq![mods_folder()] + split(name.drop_last())),
{
    let stem = name.drop_last();
    lemma_plain_name_is_clean(stem);
    lemma_resolve_plain_identity(split(stem));
    assert(split(name).drop_last() =~= split(stem));
    if has_nul(name) {
        let k = choose|k: int| 0 <= k < name.len() && name[k] == 0u8;
        assert(stem[k] == 0u8);
    }
    if stem.len() == 0 {
        assert(crate::path::is_plain(split(stem)[0]));
    } else {
        assert(stem[0] == name[0]);
    }
}

} // verus!
