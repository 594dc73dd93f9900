use crate::graph::{dependants, reverse_depends};
use crate::model::{
    lemma_views_push, opt_text, views, Conffile, DepEdge, InstalledFile, InstalledFileView,
    PackError, StatusRow, StatusRowView,
};
use crate::store::{
    delete_rows, has_package, lemma_rows_without_status, rows_without, status_wf, PackageStore,
    StoreView, TablesView,
};
use crate::text::{strip_first, trim, trimmed, without_first};
use vstd::prelude::*;

verus! {

/// What is left to do on disk once a purge has been decided.
#[derive(Debug)]
pub enum PurgePlan {
    /// Other packages still depend on the package: it stays, marked as
    /// installed only as a dependency, and nothing is done on disk.
    Soft,
    /// The package goes: run the pre-remove hook if there is one, delete
    /// the files in this order, each followed by its directory if that is
    /// then empty, and run the post-remove hook if there is one.
    Hard { prerm: Option<String>, files: Vec<String>, postrm: Option<String> },
}

pub enum PurgePlanView {
    Soft,
    Hard { prerm: Option<Seq<char>>, files: Seq<Seq<char>>, postrm: Option<Seq<char>> },
}

impl View for PurgePlan {
    type V = PurgePlanView;

    open spec fn view(&self) -> PurgePlanView {
        match self {
            PurgePlan::Soft => PurgePlanView::Soft,
            PurgePlan::Hard { prerm, files, postrm } => PurgePlanView::Hard {
                prerm: opt_text(*prerm),
                files: views(files@),
                postrm: opt_text(*postrm),
            },
        }
    }
}

/// The hook to run: the stored script, unless none or an empty one is stored.
pub open spec fn hook_body(stored: Option<Seq<char>>) -> Option<Seq<char>> {
    match stored {
        Some(body) => if body.len() > 0 {
            Some(body)
        } else {
            None
        },
        None => None,
    }
}

/// The row of the package `name`.
pub open spec fn status_of(rows: Seq<StatusRowView>, name: Seq<char>) -> StatusRowView {
    rows[choose|i: int| 0 <= i < rows.len() && (#[trigger] rows[i]).package == name]
}

/// Where the files of the package `name` lie on disk, in the order of their
/// rows: each recorded path without its first character.
pub open spec fn file_targets(files: Seq<InstalledFileView>, name: Seq<char>) -> Seq<Seq<char>>
    decreases files.len(),
{
    if files.len() == 0 {
        Seq::empty()
    } else {
        let rest = file_targets(files.drop_last(), name);
        if files.last().package == name {
            rest.push(strip_first(files.last().file))
        } else {
            rest
        }
    }
}

/// The row, marked as installed only as a dependency if it is for `name`.
pub open spec fn mark_row(name: Seq<char>) -> spec_fn(StatusRowView) -> StatusRowView {
    |r: StatusRowView|
        if r.package == name {
            StatusRowView { auto_installed: true, ..r }
        } else {
            r
        }
}

/// The status table with the package `name` marked as installed only as a
/// dependency.
pub open spec fn marked_auto(rows: Seq<StatusRowView>, name: Seq<char>) -> Seq<StatusRowView> {
    rows.map_values(mark_row(name))
}

/// Some installed package still depends on `name`.
pub open spec fn still_needed(v: StoreView, name: Seq<char>) -> bool {
    dependants(v.installed.dependencies, name).len() > 0
}

/// The database after a soft removal of `name`.
pub open spec fn soft_removed(v: StoreView, name: Seq<char>) -> StoreView {
    StoreView {
        installed: TablesView { status: marked_auto(v.installed.status, name), ..v.installed },
        ..v
    }
}

/// The database after the hard removal of the packages `names`.
pub open spec fn hard_removed(v: StoreView, names: Seq<Seq<char>>) -> StoreView {
    StoreView {
        installed: v.installed.without(names),
        files: rows_without::<InstalledFile>(v.files, names),
        ..v
    }
}

/// The database after a purge of the installed package `name`.
pub open spec fn purged(v: StoreView, name: Seq<char>) -> StoreView {
    if still_needed(v, name) {
        soft_removed(v, name)
    } else {
        hard_removed(v, seq![name])
    }
}

/// What a purge of the installed package `name` leaves to do on disk.
pub open spec fn purge_plan(v: StoreView, name: Seq<char>) -> PurgePlanView {
    if still_needed(v, name) {
        PurgePlanView::Soft
    } else {
        PurgePlanView::Hard {
            prerm: hook_body(status_of(v.installed.status, name).prerm),
            files: file_targets(v.files, name),
            postrm: hook_body(status_of(v.installed.status, name).postrm),
        }
    }
}

/// Marking a package does not touch what the tables check.
pub proof fn lemma_marked_auto(rows: Seq<StatusRowView>, name: Seq<char>)
    requires
        status_wf(rows),
    ensures
        status_wf(marked_auto(rows, name)),
        forall|x: Seq<char>| has_package(marked_auto(rows, name), x) <==> has_package(rows, x),
{
    let m = marked_auto(rows, name);
    assert forall|i: int| 0 <= i < m.len() implies (#[trigger] m[i]).package == rows[i].package
        && m[i].admissible() by {
        assert(rows[i].admissible());
    }
    assert forall|i: int, j: int| 0 <= i < m.len() && 0 <= j < m.len() && i != j implies (
    #[trigger] m[i]).package != (#[trigger] m[j]).package by {
        assert(rows[i].package != rows[j].package);
    }
    assert forall|x: Seq<char>| has_package(m, x) <==> has_package(rows, x) by {
        if has_package(m, x) {
            let i = choose|i: int| 0 <= i < m.len() && (#[trigger] m[i]).package == x;
            assert(rows[i].package == x);
        }
        if has_package(rows, x) {
            let i = choose|i: int| 0 <= i < rows.len() && (#[trigger] rows[i]).package == x;
            assert(m[i].package == x);
        }
    }
}

/// The place of the row of `name`, if the package has one.
pub fn find_status(rows: &Vec<StatusRow>, name: &String) -> (at: Option<usize>)
    ensures
        match at {
            Some(i) => i < rows.len() && rows@[i as int]@.package == name@ && forall|k: int|
                0 <= k < i ==> (#[trigger] views(rows@)[k]).package != name@,
            None => !has_package(views(rows@), name@),
        },
{
    let mut i: usize = 0;
    while i < rows.len()
        invariant
            i <= rows.len(),
            forall|k: int| 0 <= k < i ==> (#[trigger] views(rows@)[k]).package != name@,
        decreases rows.len() - i,
    {
        if rows[i].package == *name {
            return Some(i);
        }
        i = i + 1;
    }
    None
}

/// The stored script, unless none or an empty one is stored.
pub fn hook_of(stored: &Option<String>) -> (hook: Option<String>)
    ensures
        opt_text(hook) == hook_body(opt_text(*stored)),
{
    match stored {
        Some(body) => {
            if body.as_str().unicode_len() > 0 {
                Some(body.clone())
            } else {
                None
            }
        },
        None => None,
    }
}

/// Where the files of the package `name` lie on disk.
pub fn targets_of(files: &Vec<InstalledFile>, name: &String) -> (targets: Vec<String>)
    ensures
        views(targets@) == file_targets(views(files@), name@),
{
    let mut targets: Vec<String> = Vec::new();
    let mut i: usize = 0;
    assert(views(files@).take(0) =~= Seq::empty());
    assert(views(targets@) =~= Seq::empty());
    while i < files.len()
        invariant
            i <= files.len(),
            views(targets@) == file_targets(views(files@).take(i as int), name@),
        decreases files.len() - i,
    {
        let f = &files[i];
        proof {
            let fv = views(files@);
            assert(fv.take(i + 1).drop_last() =~= fv.take(i as int));
            assert(fv.take(i + 1).last() == f@);
        }
        if f.package == *name {
            let ghost before = targets@;
            let t = without_first(&f.file);
            targets.push(t);
            proof {
                lemma_views_push(before, t);
            }
        }
        i = i + 1;
    }
    assert(views(files@).take(files.len() as int) =~= views(files@));
    targets
}

/// Marks the package `name` as installed only as a dependency.
pub fn mark_auto(rows: Vec<StatusRow>, name: &String) -> (marked: Vec<StatusRow>)
    ensures
        views(marked@) == marked_auto(views(rows@), name@),
{
    let ghost all = rows@;
    let mut marked: Vec<StatusRow> = Vec::new();
    for row in it: rows
        invariant
            it.seq() == all,
            marked.len() == it.index(),
            forall|k: int|
                0 <= k < marked.len() ==> (#[trigger] marked@[k])@ == mark_row(name@)(all[k]@),
    {
        let mut row = row;
        if row.package == *name {
            row.auto_installed = true;
        }
        marked.push(row);
    }
    assert(views(marked@) =~= marked_auto(views(all), name@));
    marked
}

/// Purges the installed package `name`: while other installed packages
/// depend on it, it is only marked as installed as a dependency; else all
/// its rows are deleted. The plan says what is to be done on disk.
pub fn purge_named(store: &mut PackageStore, name: &String) -> (r: Result<PurgePlan, PackError>)
    requires
        old(store)@.wf(),
    ensures
        final(store)@.wf(),
        match r {
            Ok(plan) => old(store)@.is_installed(name@) && plan@ == purge_plan(old(store)@, name@)
                && final(store)@ == purged(old(store)@, name@),
            Err(e) => e == PackError::NotFound && !old(store)@.is_installed(name@) && final(store)@
                == old(store)@,
        },
{
    let ghost v = store@;
    let at = match find_status(&store.installed.status, name) {
        Some(at) => at,
        None => {
            return Err(PackError::NotFound);
        },
    };
    proof {
        let rows = v.installed.status;
        assert(rows[at as int].package == name@);
        let c = choose|i: int| 0 <= i < rows.len() && (#[trigger] rows[i]).package == name@;
        assert(c == at);
    }
    let needed_by = reverse_depends(&store.installed.dependencies, name);
    if needed_by.len() != 0 {
        let mut rows: Vec<StatusRow> = Vec::new();
        std::mem::swap(&mut store.installed.status, &mut rows);
        store.installed.status = mark_auto(rows, name);
        proof {
            lemma_marked_auto(v.installed.status, name@);
        }
        return Ok(PurgePlan::Soft);
    }
    let prerm = hook_of(&store.installed.status[at].prerm);
    let postrm = hook_of(&store.installed.status[at].postrm);
    let files = targets_of(&store.files, name);
    let mut names: Vec<String> = Vec::new();
    names.push(name.clone());
    assert(views(names@) =~= seq![name@]);
    let mut status: Vec<StatusRow> = Vec::new();
    std::mem::swap(&mut store.installed.status, &mut status);
    store.installed.status = delete_rows(status, &names);
    let mut dependencies: Vec<DepEdge> = Vec::new();
    std::mem::swap(&mut store.installed.dependencies, &mut dependencies);
    store.installed.dependencies = delete_rows(dependencies, &names);
    let mut conffiles: Vec<Conffile> = Vec::new();
    std::mem::swap(&mut store.installed.conffiles, &mut conffiles);
    store.installed.conffiles = delete_rows(conffiles, &names);
    let mut owned: Vec<InstalledFile> = Vec::new();
    std::mem::swap(&mut store.files, &mut owned);
    store.files = delete_rows(owned, &names);
    proof {
        lemma_rows_without_status(v.installed.status, seq![name@]);
    }
    Ok(PurgePlan::Hard { prerm, files, postrm })
}

/// Purges the package named by `package`, white space around the name
/// aside.
pub fn purge(store: &mut PackageStore, package: &str) -> (r: Result<PurgePlan, PackError>)
    requires
        old(store)@.wf(),
    ensures
        final(store)@.wf(),
        match r {
            Ok(plan) => old(store)@.is_installed(trimmed(package@)) && plan@ == purge_plan(
                old(store)@,
                trimmed(package@),
            ) && final(store)@ == purged(old(store)@, trimmed(package@)),
            Err(e) => e == PackError::NotFound && !old(store)@.is_installed(trimmed(package@))
                && final(store)@ == old(store)@,
        },
{
    let name = trim(package);
    purge_named(store, &name)
}

} // verus!
