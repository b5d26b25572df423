//! A model of the directory tree below the target directory, and of what
//! performing a plan does to it.

use vstd::prelude::*;
use crate::install::steps_contained;
use crate::install::steps_under_mods;
use crate::laws::law_installed_entry_in_place;
use crate::model::EntryView;
use crate::model::StepView;
use crate::plan::planned;
use crate::plan::step_for;
use crate::plan::Rule;
use crate::path::all_plain;
use crate::path::is_plain;
use crate::plan::mods_folder;

verus! {

/// What stands at a path.
pub ghost enum Node {
    Dir,
    File(Seq<u8>),
}

/// The tree below the target directory: what stands at each path, paths
/// given by their components.
pub type Tree = Map<Seq<Seq<u8>>, Node>;

/// `k` is a non-empty leading part of `path`, or `path` itself.
pub open spec fn leads_to(k: Seq<Seq<u8>>, path: Seq<Seq<u8>>) -> bool {
    1 <= k.len() <= path.len() && k == path.take(k.len() as int)
}

/// What a step puts at `k`, if it touches `k` at all. A step creates every
/// missing ancestor of its destination as a directory, and then the
/// destination: a directory, or a file with the step's bytes, which
/// replace what was there.
pub open spec fn written(step: StepView, k: Seq<Seq<u8>>) -> Option<Node> {
    match step {
        StepView::CreateDir { path } => if leads_to(k, path) {
            Some(Node::Dir)
        } else {
            None
        },
        StepView::WriteFile { path, data } => if k == path && path.len() >= 1 {
            Some(Node::File(data))
        } else if leads_to(k, path) {
            Some(Node::Dir)
        } else {
            None
        },
    }
}

/// The tree after one step.
pub open spec fn perform(tree: Tree, step: StepView) -> Tree {
    Map::new(
        |k: Seq<Seq<u8>>| written(step, k) is Some || tree.dom().contains(k),
        |k: Seq<Seq<u8>>|
            match written(step, k) {
                Some(node) => node,
                None => tree[k],
            },
    )
}

/// The tree after all steps of a plan, in order.
pub open spec fn perform_all(tree: Tree, steps: Seq<StepView>) -> Tree
    decreases steps.len(),
{
    if steps.len() == 0 {
        tree
    } else {
        perform(perform_all(tree, steps.drop_last()), steps.last())
    }
}

/// Some step of the plan touches `k`.
pub open spec fn touched(steps: Seq<StepView>, k: Seq<Seq<u8>>) -> bool {
    exists|j: int| 0 <= j < steps.len() && written(#[trigger] steps[j], k) is Some
}

/// What a plan leaves at a path it touches does not depend on the tree it
/// started from; a path it does not touch keeps what it had.
pub proof fn lemma_perform_all_at(t: Tree, u: Tree, steps: Seq<StepView>, k: Seq<Seq<u8>>)
    ensures
        touched(steps, k) ==> perform_all(t, steps).dom().contains(k) && perform_all(
            u,
            steps,
        ).dom().contains(k) && perform_all(t, steps)[k] == perform_all(u, steps)[k],
        !touched(steps, k) ==> (perform_all(t, steps).dom().contains(k) <==> t.dom().contains(k))
            && (t.dom().contains(k) ==> perform_all(t, steps)[k] == t[k]),
    decreases steps.len(),
{
    if steps.len() > 0 {
        let front = steps.drop_last();
        let last = steps.last();
        lemma_perform_all_at(t, u, front, k);
        if written(last, k) is Some {
            assert(written(steps[steps.len() - 1], k) is Some);
        } else if touched(front, k) {
            let j = choose|j: int| 0 <= j < front.len() && written(#[trigger] front[j], k) is Some;
            assert(steps[j] == front[j]);
        } else {
            if touched(steps, k) {
                let j = choose|j: int|
                    0 <= j < steps.len() && written(#[trigger] steps[j], k) is Some;
                assert(j < front.len());
                assert(front[j] == steps[j]);
            }
        }
    }
}

/// Performing a plan twice leaves the tree that performing it once leaves:
/// files are overwritten with the same bytes, nothing is added.
pub proof fn law_install_idempotent(tree: Tree, steps: Seq<StepView>)
    ensures
        perform_all(perform_all(tree, steps), steps) == perform_all(tree, steps),
{
    let once = perform_all(tree, steps);
    let twice = perform_all(once, steps);
    assert forall|k: Seq<Seq<u8>>|
        #![trigger twice.dom().contains(k)]
        #![trigger once.dom().contains(k)]
        (twice.dom().contains(k) <==> once.dom().contains(k)) && (twice.dom().contains(k)
            ==> twice[k] == once[k]) by {
        lemma_perform_all_at(once, tree, steps, k);
    }
    assert(twice =~= once);
}

/// The path lies below the `Mods` folder of the target directory: it starts
/// with `Mods` and goes on in plain components.
pub open spec fn below_mods(k: Seq<Seq<u8>>) -> bool {
    k.len() >= 1 && k[0] == mods_folder() && all_plain(k)
}

/// A step with a contained destination below `Mods` touches nothing but
/// paths below `Mods`.
pub proof fn lemma_step_stays_below_mods(step: StepView, k: Seq<Seq<u8>>)
    requires
        below_mods(step.path()),
        written(step, k) is Some,
    ensures
        below_mods(k),
{
    let path = step.path();
    assert(k.len() >= 1 && k.len() <= path.len());
    assert(k =~= path.take(k.len() as int));
    assert forall|i: int| 0 <= i < k.len() implies is_plain(#[trigger] k[i]) by {
        assert(k[i] == path[i]);
    }
}

/// Performing steps whose destinations are contained and lie below `Mods`
/// leaves everything outside `Mods` as it was: nothing appears there,
/// nothing changes and nothing goes away.
pub proof fn law_nothing_written_outside_mods(tree: Tree, steps: Seq<StepView>, k: Seq<Seq<u8>>)
    requires
        steps_contained(steps),
        steps_under_mods(steps),
        !below_mods(k),
    ensures
        perform_all(tree, steps).dom().contains(k) <==> tree.dom().contains(k),
        tree.dom().contains(k) ==> perform_all(tree, steps)[k] == tree[k],
{
    if touched(steps, k) {
        let j = choose|j: int| 0 <= j < steps.len() && written(#[trigger] steps[j], k) is Some;
        assert(all_plain(steps[j].path()));
        assert(steps[j].path().len() >= 1 && steps[j].path()[0] == mods_folder());
        lemma_step_stays_below_mods(steps[j], k);
    }
    lemma_perform_all_at(tree, tree, steps, k);
}

/// What the last step that touches a path puts there is what the tree holds
/// there in the end: a file with the entry's bytes, byte for byte, or a
/// directory, be it the step's destination or an ancestor of it that no
/// entry of its own names.
pub proof fn law_last_write_stands(
    tree: Tree,
    steps: Seq<StepView>,
    j: int,
    k: Seq<Seq<u8>>,
)
    requires
        0 <= j < steps.len(),
        written(steps[j], k) is Some,
        forall|m: int| j < m < steps.len() ==> written(#[trigger] steps[m], k) is None,
    ensures
        perform_all(tree, steps).dom().contains(k),
        perform_all(tree, steps)[k] == written(steps[j], k)->0,
    decreases steps.len(),
{
    let front = steps.drop_last();
    if j < steps.len() - 1 {
        assert(front[j] == steps[j]);
        assert forall|m: int| j < m < front.len() implies written(
            #[trigger] front[m],
            k,
        ) is None by {
            assert(front[m] == steps[m]);
        }
        law_last_write_stands(tree, front, j, k);
        assert(written(steps[steps.len() - 1], k) is None);
    }
}

/// An installed entry lands: whatever the archive holds before it, and as
/// long as no later entry touches the same path, the tree holds in the end
/// what the entry's step puts there. For a file that is the entry's bytes at
/// its destination; for a directory entry, empty or not, a directory; and
/// for every ancestor of the destination a directory too, also where the
/// archive has no entry for it.
pub proof fn law_installed_entry_lands(
    rule: Rule,
    tree: Tree,
    a: Seq<EntryView>,
    e: EntryView,
    b: Seq<EntryView>,
    k: Seq<Seq<u8>>,
)
    requires
        step_for(rule, e) is Some,
        written(step_for(rule, e)->0, k) is Some,
        !touched(planned(rule, b), k),
    ensures
        perform_all(tree, planned(rule, a.push(e) + b)).dom().contains(k),
        perform_all(tree, planned(rule, a.push(e) + b))[k] == written(step_for(rule, e)->0, k)->0,
{
    law_installed_entry_in_place(rule, a, e, b);
    let s = step_for(rule, e)->0;
    let before = planned(rule, a);
    let after = planned(rule, b);
    let steps = before.push(s) + after;
    let j = before.len() as int;
    assert(steps[j] == s);
    assert forall|m: int| j < m < steps.len() implies written(#[trigger] steps[m], k) is None by {
        assert(steps[m] == after[m - j - 1]);
    }
    law_last_write_stands(tree, steps, j, k);
}

} // verus!
