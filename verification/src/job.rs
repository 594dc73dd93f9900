use crate::archive::{file_steps, plan_files, ArchiveInfo, FileStep};
use crate::digest::{hex_of, sha256_of, verify_archive};
use crate::install::{
    acquire, can_commit, commit, committed, is_missing, resolve_deps, source_of, stage,
    staged_key, Source, SourceView,
};
use crate::model::{views, PackError, TableRole};
use crate::populate::{populate_outcome, set_tables, tables_of, with_tables};
use crate::purge::find_status;
use crate::store::{PackageStore, StoreView};
use crate::text::{trim, trimmed};
use vstd::prelude::*;

verus! {

/// How far the install of one package has come, and what it waits for.
#[derive(Debug)]
pub enum Stage {
    /// Nothing is done yet.
    CheckInstalled,
    /// The archive is being fetched; its digest is to be `sha256`.
    Acquire { sha256: String },
    /// The archive is being opened.
    StageMetadata,
    /// The control data is staged; the dependency `pending[next]` is being
    /// installed.
    InstallDeps { key: String, info: ArchiveInfo, pending: Vec<String>, next: usize },
    /// The files are being unpacked and the hooks run.
    ApplyFiles { key: String, info: ArchiveInfo },
    /// The install has ended well, or there was nothing to do.
    Done,
    /// The install was given up.
    Failed(PackError),
}

/// The install of one package: on its own account, or as a dependency of
/// another.
#[derive(Debug)]
pub struct InstallJob {
    pub mirror: String,
    pub package: String,
    pub automatic: bool,
    pub stage: Stage,
}

/// What has happened outside since the last step.
#[derive(Debug)]
pub enum Event {
    /// The install is to begin.
    Begin,
    /// The archive was fetched; these are its bytes.
    Fetched(Vec<u8>),
    /// The archive could not be fetched.
    FetchFailed,
    /// The archive was opened; this is what it holds.
    Opened(ArchiveInfo),
    /// The install of the dependency has ended, well or not.
    DependencyDone,
    /// The files are unpacked and the hooks have run.
    Applied,
    /// A file could not be unpacked.
    ApplyFailed,
}

/// How an install has ended.
#[derive(Clone, Copy, Debug, PartialEq, Eq, Structural)]
pub enum Outcome {
    AlreadyInstalled,
    Installed,
    Failed(PackError),
}

/// What is to be done outside before the next step.
#[derive(Debug)]
pub enum Action {
    /// Nothing: the event was not awaited.
    Idle,
    /// Open the archive that lies at `path`.
    ReadLocal { path: String },
    /// Fetch the archive from `url`.
    Fetch { url: String },
    /// Open the archive that was fetched.
    OpenFetched,
    /// Install the package `name` as a dependency, to its end.
    InstallDependency { name: String },
    /// Unpack the files and run the hooks, in this order.
    Apply { steps: Vec<FileStep> },
    /// Nothing more: the install has ended.
    Finish(Outcome),
}

impl InstallJob {
    /// The install of `package` from the mirror at `mirror`, not yet begun.
    pub fn new(mirror: &str, package: &str, automatic: bool) -> (job: InstallJob)
        ensures
            job.mirror@ == mirror@,
            job.package@ == package@,
            job.automatic == automatic,
            job.stage is CheckInstalled,
    {
        InstallJob {
            mirror: mirror.to_owned(),
            package: package.to_owned(),
            automatic,
            stage: Stage::CheckInstalled,
        }
    }
}

/// Whether the install, standing at `stage`, waits for `event`.
pub open spec fn awaited(stage: Stage, event: Event) -> bool {
    match (stage, event) {
        (Stage::CheckInstalled, Event::Begin) => true,
        (Stage::Acquire { .. }, Event::Fetched(_)) => true,
        (Stage::Acquire { .. }, Event::FetchFailed) => true,
        (Stage::StageMetadata, Event::Opened(_)) => true,
        (Stage::InstallDeps { .. }, Event::DependencyDone) => true,
        (Stage::ApplyFiles { .. }, Event::Applied) => true,
        (Stage::ApplyFiles { .. }, Event::ApplyFailed) => true,
        _ => false,
    }
}

/// The install was given up for the reason `e`.
pub open spec fn gave_up(stage: Stage, action: Action, e: PackError) -> bool {
    &&& stage matches Stage::Failed(x) && x == e
    &&& action matches Action::Finish(Outcome::Failed(y)) && y == e
}

/// The files of the staged package `key` are to be unpacked.
pub open spec fn applying(stage: Stage, action: Action, key: Seq<char>, info: ArchiveInfo) -> bool {
    &&& stage matches Stage::ApplyFiles { key: k, info: i } && k@ == key && i == info
    &&& action matches Action::Apply { steps } && steps@ == file_steps(
        info.has_preinst,
        views(info.entries@),
        info.has_postinst,
    )
}

/// What follows the staging of the package `key`: an install as a
/// dependency, or one for which nothing is missing, goes on to its files;
/// any other has its first missing dependency installed.
pub open spec fn after_staging(
    v: StoreView,
    automatic: bool,
    stage: Stage,
    action: Action,
    key: Seq<char>,
    info: ArchiveInfo,
) -> bool {
    ||| applying(stage, action, key, info) && (automatic || is_missing(v, key, Seq::empty()))
    ||| {
        &&& !automatic
        &&& stage matches Stage::InstallDeps { key: k, info: i, pending, next }
        &&& k@ == key && i == info && next == 0 && pending.len() > 0
        &&& is_missing(v, key, views(pending@))
        &&& action matches Action::InstallDependency { name } && name@ == pending@[0]@
    }
}

/// One step of an install: takes what has happened outside and says what
/// is to be done next. An event that is not awaited changes nothing.
pub fn install(store: &mut PackageStore, job: &mut InstallJob, event: Event) -> (action: Action)
    requires
        old(store)@.wf(),
    ensures
        final(store)@.wf(),
        final(job).mirror == old(job).mirror,
        final(job).package == old(job).package,
        final(job).automatic == old(job).automatic,
        !awaited(old(job).stage, event) ==> final(job).stage == old(job).stage && action is Idle
            && final(store)@ == old(store)@,
        old(job).stage is CheckInstalled && event is Begin ==> final(store)@ == old(store)@ && (
        if old(store)@.is_installed(trimmed(old(job).package@)) {
            final(job).stage is Done && action matches Action::Finish(Outcome::AlreadyInstalled)
        } else {
            match source_of(old(store)@, old(job).mirror@, old(job).package@) {
                Some(SourceView::Local { path }) => {
                    &&& final(job).stage is StageMetadata
                    &&& action matches Action::ReadLocal { path: p } && p@ == path
                },
                Some(SourceView::Download { url, sha256 }) => {
                    &&& final(job).stage matches Stage::Acquire { sha256: s } && s@ == sha256
                    &&& action matches Action::Fetch { url: u } && u@ == url
                },
                None => gave_up(final(job).stage, action, PackError::NotFound),
            }
        }),
        old(job).stage matches Stage::Acquire { sha256 } ==> (event matches Event::Fetched(bytes)
            ==> final(store)@ == old(store)@ && (if hex_of(sha256_of(bytes@)) == sha256@ {
            final(job).stage is StageMetadata && action is OpenFetched
        } else {
            gave_up(final(job).stage, action, PackError::HashMismatch)
        })),
        old(job).stage is Acquire && event is FetchFailed ==> final(store)@ == old(store)@
            && gave_up(final(job).stage, action, PackError::NotFound),
        old(job).stage is StageMetadata ==> (event matches Event::Opened(info) ==> match staged_key(
            info.control@,
        ) {
            Some(key) => match populate_outcome(
                tables_of(with_tables(old(store)@, TableRole::Staging), TableRole::Staging),
                info.control@,
            ) {
                Ok(t) => final(store)@ == set_tables(
                    with_tables(old(store)@, TableRole::Staging),
                    TableRole::Staging,
                    t,
                ) && after_staging(
                    final(store)@,
                    old(job).automatic,
                    final(job).stage,
                    action,
                    key,
                    info,
                ),
                Err(e) => final(store)@ == with_tables(old(store)@, TableRole::Staging) && gave_up(
                    final(job).stage,
                    action,
                    e,
                ),
            },
            None => final(store)@ == old(store)@ && gave_up(
                final(job).stage,
                action,
                PackError::Parse,
            ),
        }),
        old(job).stage matches Stage::InstallDeps { key, info, pending, next } ==> (
        event is DependencyDone ==> final(store)@ == old(store)@ && (if next + 1 < pending.len() {
            &&& final(job).stage matches Stage::InstallDeps {
                key: k,
                info: i,
                pending: p,
                next: n,
            } && k == key && i == info && p == pending && n == next + 1
            &&& action matches Action::InstallDependency { name } && name@ == pending@[next + 1]@
        } else {
            applying(final(job).stage, action, key@, info)
        })),
        old(job).stage matches Stage::ApplyFiles { key, info } ==> (event is Applied ==> if can_commit(
            old(store)@,
            key@,
        ) {
            &&& final(store)@ == committed(
                old(store)@,
                key@,
                old(job).automatic,
                info.prerm@,
                info.postrm@,
                views(info.entries@),
            )
            &&& final(job).stage is Done
            &&& action matches Action::Finish(Outcome::Installed)
        } else {
            final(store)@ == old(store)@ && gave_up(final(job).stage, action, PackError::Store)
        }),
        old(job).stage is ApplyFiles && event is ApplyFailed ==> final(store)@ == old(store)@
            && gave_up(final(job).stage, action, PackError::Filesystem),
{
    let mut stage = Stage::Done;
    std::mem::swap(&mut job.stage, &mut stage);
    let (next, action) = match (stage, event) {
        (Stage::CheckInstalled, Event::Begin) => begin(store, job),
        (Stage::Acquire { sha256 }, Event::Fetched(bytes)) => {
            match verify_archive(bytes.as_slice(), sha256.as_str()) {
                Ok(()) => (Stage::StageMetadata, Action::OpenFetched),
                Err(e) => (Stage::Failed(e), Action::Finish(Outcome::Failed(e))),
            }
        },
        (Stage::Acquire { sha256 }, Event::FetchFailed) => (
            Stage::Failed(PackError::NotFound),
            Action::Finish(Outcome::Failed(PackError::NotFound)),
        ),
        (Stage::StageMetadata, Event::Opened(info)) => opened(store, job.automatic, info),
        (Stage::InstallDeps { key, info, pending, next }, Event::DependencyDone) => {
            if next < pending.len() && next + 1 < pending.len() {
                let name = pending[next + 1].clone();
                (
                    Stage::InstallDeps { key, info, pending, next: next + 1 },
                    Action::InstallDependency { name },
                )
            } else {
                apply(key, info)
            }
        },
        (Stage::ApplyFiles { key, info }, Event::Applied) => {
            match commit(store, &key, job.automatic, &info) {
                Ok(()) => (Stage::Done, Action::Finish(Outcome::Installed)),
                Err(e) => (Stage::Failed(e), Action::Finish(Outcome::Failed(e))),
            }
        },
        (Stage::ApplyFiles { key, info }, Event::ApplyFailed) => (
            Stage::Failed(PackError::Filesystem),
            Action::Finish(Outcome::Failed(PackError::Filesystem)),
        ),
        (other, _) => (other, Action::Idle),
    };
    job.stage = next;
    action
}

/// The first step: nothing is to do for a package that is installed;
/// else the archive is to be had from where it lies.
fn begin(store: &PackageStore, job: &InstallJob) -> (r: (Stage, Action))
    requires
        store@.wf(),
    ensures
        if store@.is_installed(trimmed(job.package@)) {
            r.0 is Done && r.1 matches Action::Finish(Outcome::AlreadyInstalled)
        } else {
            match source_of(store@, job.mirror@, job.package@) {
                Some(SourceView::Local { path }) => {
                    &&& r.0 is StageMetadata
                    &&& r.1 matches Action::ReadLocal { path: p } && p@ == path
                },
                Some(SourceView::Download { url, sha256 }) => {
                    &&& r.0 matches Stage::Acquire { sha256: s } && s@ == sha256
                    &&& r.1 matches Action::Fetch { url: u } && u@ == url
                },
                None => gave_up(r.0, r.1, PackError::NotFound),
            }
        },
{
    let name = trim(job.package.as_str());
    match find_status(&store.installed.status, &name) {
        Some(at) => {
            assert(store@.installed.status[at as int].package == name@);
            return (Stage::Done, Action::Finish(Outcome::AlreadyInstalled));
        },
        None => {},
    }
    match acquire(store, job.mirror.as_str(), job.package.as_str()) {
        Ok(Source::Local { path }) => (Stage::StageMetadata, Action::ReadLocal { path }),
        Ok(Source::Download { url, sha256 }) => (Stage::Acquire { sha256 }, Action::Fetch { url }),
        Err(e) => (Stage::Failed(e), Action::Finish(Outcome::Failed(e))),
    }
}

/// The step to the files of the staged package `key`.
fn apply(key: String, info: ArchiveInfo) -> (r: (Stage, Action))
    ensures
        applying(r.0, r.1, key@, info),
{
    let steps = plan_files(info.has_preinst, &info.entries, info.has_postinst);
    (Stage::ApplyFiles { key, info }, Action::Apply { steps })
}

/// The step that follows the opening of the archive: its control data is
/// staged and, for an install on its own account, the missing dependencies
/// are found.
fn opened(store: &mut PackageStore, automatic: bool, info: ArchiveInfo) -> (r: (Stage, Action))
    requires
        old(store)@.wf(),
    ensures
        final(store)@.wf(),
        match staged_key(info.control@) {
            Some(key) => match populate_outcome(
                tables_of(with_tables(old(store)@, TableRole::Staging), TableRole::Staging),
                info.control@,
            ) {
                Ok(t) => final(store)@ == set_tables(
                    with_tables(old(store)@, TableRole::Staging),
                    TableRole::Staging,
                    t,
                ) && after_staging(final(store)@, automatic, r.0, r.1, key, info),
                Err(e) => final(store)@ == with_tables(old(store)@, TableRole::Staging) && gave_up(
                    r.0,
                    r.1,
                    e,
                ),
            },
            None => final(store)@ == old(store)@ && gave_up(r.0, r.1, PackError::Parse),
        },
{
    let key = match stage(store, info.control.as_str()) {
        Ok(key) => key,
        Err(e) => {
            return (Stage::Failed(e), Action::Finish(Outcome::Failed(e)));
        },
    };
    if automatic {
        return apply(key, info);
    }
    let pending = resolve_deps(store, &key);
    if pending.len() == 0 {
        assert(views(pending@) =~= Seq::<Seq<char>>::empty());
        apply(key, info)
    } else {
        let name = pending[0].clone();
        (Stage::InstallDeps { key, info, pending, next: 0 }, Action::InstallDependency { name })
    }
}

} // verus!
