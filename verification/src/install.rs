//! The two installations: from the bytes of an archive to the steps that
//! the caller performs on disk.

use std::io::Cursor;
use vstd::prelude::*;
use zip::ZipArchive;
use crate::archive::archive_head;
use crate::archive::archive_len;
use crate::archive::archive_payload;
use crate::archive::archive_source;
use crate::archive::entry_count;
use crate::archive::entry_data;
use crate::archive::entry_head;
use crate::archive::open_archive;
use crate::model::steps_view;
use crate::model::ErrorView;
use crate::model::InstallError;
use crate::model::InstallReport;
use crate::model::ReportView;
use crate::model::Step;
use crate::model::StepView;
use crate::path::all_plain;
use crate::path::components;
use crate::plan::destination;
use crate::plan::place;
use crate::plan::Host;
use crate::plan::target;
use crate::plan::Placement;
use crate::plan::mods_folder;
use crate::plan::mods_folder_name;
use crate::plan::Rule;

verus! {

/// What one entry of an archive contributes to an installation.
pub ghost enum Outcome {
    /// Nothing: the entry is filtered out or its name is refused.
    Skip,
    /// One step.
    Emit(StepView),
    /// The installation stops here with this failure.
    Fail(ErrorView),
}

/// The outcome of one entry, from what the archive yields for it. `head` is
/// `None` where the entry cannot be located; `payload` is `None` where its
/// bytes cannot be read, which matters only for a file that is installed.
pub open spec fn entry_outcome(
    rule: Rule,
    host: Host,
    head: Option<(Option<Seq<u8>>, bool)>,
    payload: Option<Seq<u8>>,
) -> Outcome {
    match head {
        None => Outcome::Fail(ErrorView::ArchiveFormat),
        Some((enclosed, is_dir)) => match target(rule, host, enclosed) {
            None => Outcome::Skip,
            Some(path) => if is_dir {
                Outcome::Emit(StepView::CreateDir { path })
            } else {
                match payload {
                    Some(data) => Outcome::Emit(StepView::WriteFile { path, data }),
                    None => Outcome::Fail(ErrorView::Io { path }),
                }
            },
        },
    }
}

/// The report after the first `n` entries of the archive in `bytes`, on top
/// of the steps `first`: entries are taken in order until one fails.
pub open spec fn extraction(rule: Rule, host: Host, bytes: Seq<u8>, first: Seq<StepView>, n: nat) -> ReportView
    decreases n,
{
    if n == 0 {
        ReportView { steps: first, failure: None }
    } else {
        let prev = extraction(rule, host, bytes, first, (n - 1) as nat);
        if prev.failure is Some {
            prev
        } else {
            match entry_outcome(
                rule,
                host,
                archive_head(bytes, (n - 1) as nat),
                archive_payload(bytes, (n - 1) as nat),
            ) {
                Outcome::Skip => prev,
                Outcome::Emit(s) => ReportView { steps: prev.steps.push(s), failure: None },
                Outcome::Fail(e) => ReportView { steps: prev.steps, failure: Some(e) },
            }
        }
    }
}

/// The report of a whole installation from `bytes`, on top of the steps
/// `first`: `ArchiveFormat` where the bytes are no archive, else the
/// extraction of all entries.
pub open spec fn installation(rule: Rule, host: Host, bytes: Seq<u8>, first: Seq<StepView>) -> ReportView {
    match archive_len(bytes) {
        None => ReportView { steps: first, failure: Some(ErrorView::ArchiveFormat) },
        Some(n) => extraction(rule, host, bytes, first, n),
    }
}

/// Every step of the list has a destination made of plain components.
pub open spec fn steps_contained(steps: Seq<StepView>) -> bool {
    forall|j: int| 0 <= j < steps.len() ==> all_plain(#[trigger] steps[j].path())
}

/// Every destination starts with the `Mods` folder.
pub open spec fn steps_under_mods(steps: Seq<StepView>) -> bool {
    forall|j: int|
        0 <= j < steps.len() ==> (#[trigger] steps[j].path()).len() >= 1 && steps[j].path()[0]
            == mods_folder()
}

/// Extracts an open archive: appends to `steps` one step per installed
/// entry, in archive order, and stops at the first entry that fails.
pub(crate) fn extract(rule: Rule, host: Host, archive: &mut ZipArchive<Cursor<Vec<u8>>>, first: Vec<Step>) -> (report:
    InstallReport)
    requires
        steps_contained(steps_view(first@)),
    ensures
        archive_source(*final(archive)) == archive_source(*old(archive)),
        archive_len(archive_source(*old(archive))) matches Some(n) && report@ == extraction(
            rule,
            host,
            archive_source(*old(archive)),
            steps_view(first@),
            n,
        ),
        steps_contained(report@.steps),
        rule is Mods && steps_under_mods(steps_view(first@)) ==> steps_under_mods(report@.steps),
{
    let ghost bytes = archive_source(*archive);
    let ghost first_view = steps_view(first@);
    let mut steps = first;
    let n = entry_count(archive);
    let mut i: usize = 0;
    while i < n
        invariant
            i <= n,
            archive_source(*archive) == bytes,
            bytes == archive_source(*old(archive)),
            first_view == steps_view(first@),
            archive_len(bytes) == Some(n as nat),
            extraction(rule, host, bytes, first_view, i as nat) == (ReportView {
                steps: steps_view(steps@),
                failure: None,
            }),
            steps_contained(steps_view(steps@)),
            rule is Mods && steps_under_mods(first_view) ==> steps_under_mods(steps_view(steps@)),
        decreases n - i,
    {
        let ghost before = steps_view(steps@);
        let head = match entry_head(archive, i) {
            Ok(h) => h,
            Err(_) => {
                let report = InstallReport { steps, failure: Some(InstallError::ArchiveFormat) };
                proof {
                    lemma_failure_stays(rule, host, bytes, first_view, (i + 1) as nat, n as nat);
                }
                return report;
            },
        };
        let enclosed: Option<&Vec<u8>> = match &head.enclosed {
            Some(name) => Some(name),
            None => None,
        };
        match place(rule, host, enclosed, head.is_dir) {
            Placement::Skip => {},
            Placement::Dir { path } => {
                let step = Step::CreateDir { path };
                steps.push(step);
                assert(steps_view(steps@) =~= before.push(step@));
            },
            Placement::File { path } => {
                match entry_data(archive, i) {
                    Ok(data) => {
                        let step = Step::WriteFile { path, data };
                        steps.push(step);
                        assert(steps_view(steps@) =~= before.push(step@));
                    },
                    Err(_) => {
                        let report = InstallReport {
                            steps,
                            failure: Some(InstallError::Io { path }),
                        };
                        proof {
                            lemma_failure_stays(rule, host, bytes, first_view, (i + 1) as nat, n as nat);
                        }
                        return report;
                    },
                }
            },
        }
        i += 1;
    }
    InstallReport { steps, failure: None }
}

/// A failure ends the extraction: later entries change nothing.
pub proof fn lemma_failure_stays(rule: Rule, host: Host, bytes: Seq<u8>, first: Seq<StepView>, k: nat, n: nat)
    requires
        k <= n,
        extraction(rule, host, bytes, first, k).failure is Some,
    ensures
        extraction(rule, host, bytes, first, n) == extraction(rule, host, bytes, first, k),
    decreases n - k,
{
    if k < n {
        lemma_failure_stays(rule, host, bytes, first, k, (n - 1) as nat);
    }
}

/// Installs from the bytes of an archive, on top of the steps `first`.
pub(crate) fn install_archive(rule: Rule, host: Host, bytes: Vec<u8>, first: Vec<Step>) -> (report: InstallReport)
    requires
        steps_contained(steps_view(first@)),
    ensures
        report@ == installation(rule, host, bytes@, steps_view(first@)),
        steps_contained(report@.steps),
        rule is Mods && steps_under_mods(steps_view(first@)) ==> steps_under_mods(report@.steps),
{
    match open_archive(bytes) {
        Err(_) => InstallReport { steps: first, failure: Some(InstallError::ArchiveFormat) },
        Ok(mut archive) => extract(rule, host, &mut archive, first),
    }
}

/// What came of fetching the loader package.
#[derive(Clone, Debug, PartialEq, Eq)]
pub enum Fetched {
    /// The request could not be completed.
    Unreachable,
    /// The server answered.
    Response { status: u16, body: Vec<u8> },
}

/// A status that counts as success: 200 to 299.
pub open spec fn is_success(status: u16) -> bool {
    200 <= status <= 299
}

/// Plans the installation of the loader package from what the fetch
/// returned, reading entry names as `host` does. A failed fetch gives `Fetch`, a status outside 200..=299 gives
/// `HttpStatus` with that status, both without steps. Else the body is
/// extracted under the loader rule: entries outside the top-level folder
/// `UE4SS` are skipped, the others lose that folder.
pub fn install_ue4ss(host: Host, fetched: Fetched) -> (report: InstallReport)
    ensures
        report@ == (match fetched {
            Fetched::Unreachable => ReportView {
                steps: Seq::<StepView>::empty(),
                failure: Some(ErrorView::Fetch),
            },
            Fetched::Response { status, body } => if is_success(status) {
                installation(Rule::Loader, host, body@, Seq::<StepView>::empty())
            } else {
                ReportView {
                    steps: Seq::<StepView>::empty(),
                    failure: Some(ErrorView::HttpStatus { code: status }),
                }
            },
        }),
        steps_contained(report@.steps),
{
    let none: Vec<Step> = Vec::new();
    assert(steps_view(none@) =~= Seq::<StepView>::empty());
    match fetched {
        Fetched::Unreachable => InstallReport { steps: none, failure: Some(InstallError::Fetch) },
        Fetched::Response { status, body } => {
            if 200 <= status && status <= 299 {
                install_archive(Rule::Loader, host, body, none)
            } else {
                InstallReport {
                    steps: none,
                    failure: Some(InstallError::HttpStatus { code: status }),
                }
            }
        },
    }
}

/// The one step that every mod installation starts with: create `Mods`.
pub open spec fn mods_first() -> Seq<StepView> {
    seq![StepView::CreateDir { path: seq![mods_folder()] }]
}

/// Plans the installation of a mod archive, reading entry names as `host`
/// does. The first step creates the
/// `Mods` folder. `zip_data` is `None` where the archive file could not be
/// read: the report then fails with `Io` on the empty path. Else every
/// entry with a contained name is installed under `Mods`, path unchanged.
pub fn install_mod_from_zip(host: Host, zip_data: Option<Vec<u8>>) -> (report: InstallReport)
    ensures
        report@ == (match zip_data {
            None => ReportView {
                steps: mods_first(),
                failure: Some(ErrorView::Io { path: Seq::<Seq<u8>>::empty() }),
            },
            Some(bytes) => installation(Rule::Mods, host, bytes@, mods_first()),
        }),
        steps_contained(report@.steps),
        steps_under_mods(report@.steps),
{
    let mut path: Vec<Vec<u8>> = Vec::new();
    path.push(mods_folder_name());
    assert(components(path@) =~= seq![mods_folder()]);
    let mut first: Vec<Step> = Vec::new();
    let step = Step::CreateDir { path };
    first.push(step);
    assert(steps_view(first@) =~= mods_first());
    proof {
        crate::plan::lemma_mods_folder_plain();
    }
    match zip_data {
        None => {
            let none: Vec<Vec<u8>> = Vec::new();
            assert(components(none@) =~= Seq::<Seq<u8>>::empty());
            InstallReport { steps: first, failure: Some(InstallError::Io { path: none }) }
        },
        Some(bytes) => install_archive(Rule::Mods, host, bytes, first),
    }
}

} // verus!
