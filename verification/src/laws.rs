use crate::graph::{
    auto_installed, depends_on, lemma_removable_monotone, links, removable, removable_in,
};
use crate::model::{DepEdgeView, StatusRowView};
use crate::archive::{extraction_order, file_rows, lemma_directories_last, ArchiveEntryView};
use crate::install::{can_commit, committed, lemma_committed_wf, owned_by, rows_of};
use crate::model::{Conffile, DepEdge, InstalledFile, InstalledFileView, StatusRow};
use crate::purge::{
    file_targets, hard_removed, marked_auto, purge_plan, purged, still_needed, PurgePlanView,
};
use crate::store::{kept_by, lemma_rows_without_status, rows_without, Owned, StoreView};
use crate::text::strip_first;
use vstd::prelude::*;

verus! {

/// Every entry that is no directory gives a row among the recorded files.
pub proof fn lemma_file_rows(package: Seq<char>, entries: Seq<ArchiveEntryView>, i: int)
    requires
        0 <= i < entries.len(),
        !entries[i].is_directory,
    ensures
        file_rows(package, entries).contains(
            InstalledFileView { package, file: entries[i].path },
        ),
    decreases entries.len(),
{
    let front = entries.drop_last();
    let rest = file_rows(package, front);
    let all = file_rows(package, entries);
    if i == entries.len() - 1 {
        assert(all[all.len() - 1] == InstalledFileView { package, file: entries[i].path });
    } else {
        lemma_file_rows(package, front, i);
        let row = InstalledFileView { package, file: front[i].path };
        let k = choose|k: int| 0 <= k < rest.len() && rest[k] == row;
        assert(all[k] == row);
    }
}

/// Every recorded file of a package has its place among the targets of
/// its purge.
pub proof fn lemma_file_targets(files: Seq<InstalledFileView>, name: Seq<char>, i: int)
    requires
        0 <= i < files.len(),
        files[i].package == name,
    ensures
        file_targets(files, name).contains(strip_first(files[i].file)),
    decreases files.len(),
{
    let front = files.drop_last();
    let rest = file_targets(front, name);
    let all = file_targets(files, name);
    if i == files.len() - 1 {
        assert(all[all.len() - 1] == strip_first(files[i].file));
    } else {
        lemma_file_targets(front, name, i);
        let t = strip_first(front[i].file);
        let k = choose|k: int| 0 <= k < rest.len() && rest[k] == t;
        assert(all[k] == t);
    }
}

/// No row of a deleted package is left.
pub proof fn lemma_rows_without_owner<T: Owned>(rows: Seq<T::V>, name: Seq<char>, i: int)
    requires
        0 <= i < rows_without::<T>(rows, seq![name]).len(),
    ensures
        T::owner(rows_without::<T>(rows, seq![name])[i]) != name,
{
    rows.lemma_filter_pred(kept_by::<T>(seq![name]), i);
    assert(seq![name][0] == name);
}

/// An installed package is installed, and its files are recorded: once
/// the staged package `key` is made live it counts as installed, and every
/// entry of its archive that is no directory is unpacked and recorded as one
/// of its files.
pub proof fn lemma_installed_with_files(
    v: StoreView,
    key: Seq<char>,
    automatic: bool,
    prerm: Seq<char>,
    postrm: Seq<char>,
    entries: Seq<ArchiveEntryView>,
)
    requires
        v.wf(),
        can_commit(v, key),
    ensures
        committed(v, key, automatic, prerm, postrm, entries).is_installed(key),
        forall|i: int|
            0 <= i < entries.len() && !(#[trigger] entries[i]).is_directory ==> committed(
                v,
                key,
                automatic,
                prerm,
                postrm,
                entries,
            ).files.contains(InstalledFileView { package: key, file: entries[i].path })
                && extraction_order(entries).contains(i),
{
    lemma_committed_wf(v, key, automatic, prerm, postrm, entries);
    lemma_directories_last(entries);
    let after = committed(v, key, automatic, prerm, postrm, entries);
    assert forall|i: int| 0 <= i < entries.len() && !(#[trigger] entries[i]).is_directory implies after.files.contains(
        InstalledFileView { package: key, file: entries[i].path },
    ) by {
        lemma_file_rows(key, entries, i);
        let rows = file_rows(key, entries);
        let row = InstalledFileView { package: key, file: entries[i].path };
        let k = choose|k: int| 0 <= k < rows.len() && rows[k] == row;
        assert(after.files[v.files.len() + k] == row);
    }
}

/// Purge after install: an installed package that other installed
/// packages depend on only gets the mark of a dependency, and nothing else
/// changes; any other loses all its rows in the status, dependency,
/// conffile and file tables, and every file that was recorded for it at its
/// install is among those that the purge deletes from disk.
pub proof fn lemma_purge_after_install(
    v: StoreView,
    key: Seq<char>,
    automatic: bool,
    prerm: Seq<char>,
    postrm: Seq<char>,
    entries: Seq<ArchiveEntryView>,
)
    requires
        v.wf(),
        can_commit(v, key),
    ensures
        ({
            let after = committed(v, key, automatic, prerm, postrm, entries);
            let gone = purged(after, key);
            &&& after.is_installed(key)
            &&& still_needed(after, key) ==> {
                &&& purge_plan(after, key) is Soft
                &&& gone.installed.status == marked_auto(after.installed.status, key)
                &&& gone.installed.dependencies == after.installed.dependencies
                &&& gone.installed.conffiles == after.installed.conffiles
                &&& gone.files == after.files
                &&& gone.available == after.available
                &&& gone.staging == after.staging
            }
            &&& !still_needed(after, key) ==> {
                &&& !gone.is_installed(key)
                &&& forall|i: int|
                    0 <= i < gone.installed.dependencies.len() ==> (
                    #[trigger] gone.installed.dependencies[i]).package != key
                &&& forall|i: int|
                    0 <= i < gone.installed.conffiles.len() ==> (
                    #[trigger] gone.installed.conffiles[i]).package != key
                &&& forall|i: int| 0 <= i < gone.files.len() ==> (#[trigger] gone.files[i]).package != key
                &&& gone.available == after.available
                &&& gone.staging == after.staging
                &&& purge_plan(after, key) matches PurgePlanView::Hard { files, .. }
                &&& forall|i: int|
                    0 <= i < entries.len() && !(#[trigger] entries[i]).is_directory
                        ==> files.contains(strip_first(entries[i].path))
            }
        }),
{
    let after = committed(v, key, automatic, prerm, postrm, entries);
    let gone = purged(after, key);
    lemma_committed_wf(v, key, automatic, prerm, postrm, entries);
    if !still_needed(after, key) {
        lemma_rows_without_status(after.installed.status, seq![key]);
        assert(seq![key][0] == key);
        assert(seq![key].contains(key));
        assert forall|i: int| 0 <= i < gone.installed.dependencies.len() implies (
        #[trigger] gone.installed.dependencies[i]).package != key by {
            lemma_rows_without_owner::<DepEdge>(after.installed.dependencies, key, i);
        }
        assert forall|i: int| 0 <= i < gone.installed.conffiles.len() implies (
        #[trigger] gone.installed.conffiles[i]).package != key by {
            lemma_rows_without_owner::<Conffile>(after.installed.conffiles, key, i);
        }
        assert forall|i: int| 0 <= i < gone.files.len() implies (#[trigger] gone.files[i]).package
            != key by {
            lemma_rows_without_owner::<InstalledFile>(after.files, key, i);
        }
        let files = file_targets(after.files, key);
        assert forall|i: int| 0 <= i < entries.len() && !(#[trigger] entries[i]).is_directory implies files.contains(
            strip_first(entries[i].path),
        ) by {
            lemma_file_rows(key, entries, i);
            let rows = file_rows(key, entries);
            let row = InstalledFileView { package: key, file: entries[i].path };
            let k = choose|k: int| 0 <= k < rows.len() && rows[k] == row;
            assert(after.files[v.files.len() + k] == row);
            lemma_file_targets(after.files, key, v.files.len() + k);
        }
    }
}

/// A number of rounds within which every package that depends on `name`
/// by one of the first `m` edges can be given up, if each of them can be
/// given up at all.
pub proof fn lemma_rounds_for_dependants(
    status: Seq<StatusRowView>,
    edges: Seq<DepEdgeView>,
    name: Seq<char>,
    m: int,
) -> (rounds: nat)
    requires
        0 <= m <= edges.len(),
        forall|t: int|
            0 <= t < m && links(#[trigger] edges[t], edges[t].package, name) ==> removable(
                status,
                edges,
                edges[t].package,
            ),
    ensures
        forall|t: int|
            0 <= t < m && links(#[trigger] edges[t], edges[t].package, name) ==> removable_in(
                status,
                edges,
                edges[t].package,
                rounds,
            ),
    decreases m,
{
    if m == 0 {
        0
    } else {
        let before = lemma_rounds_for_dependants(status, edges, name, m - 1);
        let e = edges[m - 1];
        if links(e, e.package, name) {
            let own = choose|n: nat| #[trigger] removable_in(status, edges, e.package, n);
            let rounds = if own > before { own } else { before };
            lemma_removable_monotone(status, edges, e.package, own, rounds);
            assert forall|t: int|
                0 <= t < m && links(#[trigger] edges[t], edges[t].package, name) implies removable_in(
                status,
                edges,
                edges[t].package,
                rounds,
            ) by {
                if t < m - 1 {
                    lemma_removable_monotone(status, edges, edges[t].package, before, rounds);
                }
            }
            rounds
        } else {
            before
        }
    }
}

/// Once all removable packages are gone, no package can be given up
/// within any number of rounds.
pub proof fn lemma_settled_in(
    status: Seq<StatusRowView>,
    edges: Seq<DepEdgeView>,
    gone: Seq<Seq<char>>,
    name: Seq<char>,
    n: nat,
)
    requires
        forall|x: Seq<char>| gone.contains(x) <==> removable(status, edges, x),
    ensures
        !removable_in(
            rows_without::<StatusRow>(status, gone),
            rows_without::<DepEdge>(edges, gone),
            name,
            n,
        ),
    decreases n,
{
    let left = rows_without::<StatusRow>(status, gone);
    let kept = rows_without::<DepEdge>(edges, gone);
    if removable_in(left, kept, name, n) {
        assert forall|d: Seq<char>| !depends_on(kept, d, name) by {
            if depends_on(kept, d, name) {
                lemma_settled_in(status, edges, gone, d, (n - 1) as nat);
            }
        }
        let i = choose|i: int|
            0 <= i < left.len() && (#[trigger] left[i]).package == name && left[i].auto_installed;
        status.lemma_filter_pred(kept_by::<StatusRow>(gone), i);
        assert(left.contains(left[i]));
        status.lemma_filter_contains_rev(kept_by::<StatusRow>(gone), left[i]);
        let k = choose|k: int| 0 <= k < status.len() && status[k] == left[i];
        assert(auto_installed(status, name));
        assert(!gone.contains(name));
        assert forall|t: int|
            0 <= t < edges.len() && links(#[trigger] edges[t], edges[t].package, name) implies removable(
            status,
            edges,
            edges[t].package,
        ) by {
            if kept_by::<DepEdge>(gone)(edges[t]) {
                edges.lemma_filter_contains(kept_by::<DepEdge>(gone), t);
                let j = choose|j: int| 0 <= j < kept.len() && kept[j] == edges[t];
                assert(links(kept[j], edges[t].package, name));
                assert(depends_on(kept, edges[t].package, name));
            }
        }
        let rounds = lemma_rounds_for_dependants(status, edges, name, edges.len() as int);
        assert forall|d: Seq<char>| #[trigger] depends_on(edges, d, name) implies removable_in(
            status,
            edges,
            d,
            rounds,
        ) by {
            let t = choose|t: int| 0 <= t < edges.len() && links(#[trigger] edges[t], d, name);
            assert(links(edges[t], edges[t].package, name));
        }
        assert(removable_in(status, edges, name, rounds + 1));
        assert(removable(status, edges, name));
    }
}

/// The sweep settles: once every package that was removable is gone for
/// good, no package that is left is removable, so that a second sweep finds
/// nothing to do.
pub proof fn lemma_sweep_settles(v: StoreView, gone: Seq<Seq<char>>)
    requires
        forall|x: Seq<char>|
            gone.contains(x) <==> removable(v.installed.status, v.installed.dependencies, x),
    ensures
        forall|x: Seq<char>|
            !removable(
                hard_removed(v, gone).installed.status,
                hard_removed(v, gone).installed.dependencies,
                x,
            ),
{
    assert forall|x: Seq<char>|
        !removable(
            hard_removed(v, gone).installed.status,
            hard_removed(v, gone).installed.dependencies,
            x,
        ) by {
        if removable(
            hard_removed(v, gone).installed.status,
            hard_removed(v, gone).installed.dependencies,
            x,
        ) {
            let n = choose|n: nat| #[trigger]
                removable_in(
                    hard_removed(v, gone).installed.status,
                    hard_removed(v, gone).installed.dependencies,
                    x,
                    n,
                );
            lemma_settled_in(v.installed.status, v.installed.dependencies, gone, x, n);
        }
    }
}

/// Deleting the rows of a package that has none leaves the table as it is.
pub proof fn lemma_rows_without_absent<T: Owned>(rows: Seq<T::V>, name: Seq<char>)
    requires
        forall|i: int| 0 <= i < rows.len() ==> T::owner(#[trigger] rows[i]) != name,
    ensures
        rows_without::<T>(rows, seq![name]) == rows,
    decreases rows.len(),
{
    if rows.len() > 0 {
        let front = rows.drop_last();
        let last = rows.last();
        assert forall|i: int| 0 <= i < front.len() implies T::owner(#[trigger] front[i]) != name by {
            assert(front[i] == rows[i]);
        }
        lemma_rows_without_absent::<T>(front, name);
        assert(front.push(last) =~= rows);
        front.lemma_filter_push(last, kept_by::<T>(seq![name]));
        assert(T::owner(rows[rows.len() - 1]) != name);
        assert(!seq![name].contains(T::owner(last))) by {
            if seq![name].contains(T::owner(last)) {
                let k = choose|k: int| 0 <= k < seq![name].len() && seq![name][k] == T::owner(last);
            }
        }
    }
}

/// Deleting the rows of a package from a table that holds no others
/// leaves nothing.
pub proof fn lemma_rows_without_own<T: Owned>(rows: Seq<T::V>, name: Seq<char>)
    requires
        forall|i: int| 0 <= i < rows.len() ==> T::owner(#[trigger] rows[i]) == name,
    ensures
        rows_without::<T>(rows, seq![name]) == Seq::<T::V>::empty(),
    decreases rows.len(),
{
    if rows.len() > 0 {
        let front = rows.drop_last();
        let last = rows.last();
        assert forall|i: int| 0 <= i < front.len() implies T::owner(#[trigger] front[i]) == name by {
            assert(front[i] == rows[i]);
        }
        lemma_rows_without_own::<T>(front, name);
        assert(front.push(last) =~= rows);
        front.lemma_filter_push(last, kept_by::<T>(seq![name]));
        assert(T::owner(rows[rows.len() - 1]) == name);
        assert(seq![name][0] == name);
    }
}

/// The rows recorded for the files of a package all belong to it.
pub proof fn lemma_file_rows_owner(package: Seq<char>, entries: Seq<ArchiveEntryView>, i: int)
    requires
        0 <= i < file_rows(package, entries).len(),
    ensures
        file_rows(package, entries)[i].package == package,
    decreases entries.len(),
{
    if entries.len() > 0 {
        let rest = file_rows(package, entries.drop_last());
        if i < rest.len() {
            lemma_file_rows_owner(package, entries.drop_last(), i);
        }
    }
}

/// Round trip: where no live row belongs to a package before its install
/// and nothing depends on it afterwards, its purge leaves the live tables,
/// the recorded files and the packages on offer as they were before the
/// install.
pub proof fn lemma_install_then_purge(
    v: StoreView,
    key: Seq<char>,
    automatic: bool,
    prerm: Seq<char>,
    postrm: Seq<char>,
    entries: Seq<ArchiveEntryView>,
)
    requires
        v.wf(),
        can_commit(v, key),
        forall|i: int|
            0 <= i < v.installed.dependencies.len() ==> (#[trigger] v.installed.dependencies[i]).package
                != key,
        forall|i: int|
            0 <= i < v.installed.conffiles.len() ==> (#[trigger] v.installed.conffiles[i]).package
                != key,
        forall|i: int| 0 <= i < v.files.len() ==> (#[trigger] v.files[i]).package != key,
        !still_needed(committed(v, key, automatic, prerm, postrm, entries), key),
    ensures
        purged(committed(v, key, automatic, prerm, postrm, entries), key).installed == v.installed,
        purged(committed(v, key, automatic, prerm, postrm, entries), key).files == v.files,
        purged(committed(v, key, automatic, prerm, postrm, entries), key).available == v.available,
{
    let after = committed(v, key, automatic, prerm, postrm, entries);
    let gone = purged(after, key);
    let s = v.staging->0;
    let names = seq![key];
    assert(names[0] == key);
    // status
    let row = after.installed.status[v.installed.status.len() as int];
    assert(after.installed.status == v.installed.status.push(row));
    assert forall|i: int| 0 <= i < v.installed.status.len() implies StatusRow::owner(
        #[trigger] v.installed.status[i],
    ) != key by {}
    lemma_rows_without_absent::<StatusRow>(v.installed.status, key);
    v.installed.status.lemma_filter_push(row, kept_by::<StatusRow>(names));
    assert(row.package == key);
    assert(names.contains(key));
    assert(gone.installed.status == v.installed.status);
    // dependencies
    let mine = rows_of::<DepEdge>(s.dependencies, key);
    assert forall|i: int| 0 <= i < mine.len() implies DepEdge::owner(#[trigger] mine[i]) == key by {
        s.dependencies.lemma_filter_pred(owned_by::<DepEdge>(key), i);
    }
    lemma_rows_without_own::<DepEdge>(mine, key);
    assert forall|i: int| 0 <= i < v.installed.dependencies.len() implies DepEdge::owner(
        #[trigger] v.installed.dependencies[i],
    ) != key by {}
    lemma_rows_without_absent::<DepEdge>(v.installed.dependencies, key);
    Seq::filter_distributes_over_add(v.installed.dependencies, mine, kept_by::<DepEdge>(names));
    assert(gone.installed.dependencies =~= v.installed.dependencies);
    // conffiles
    let declared = rows_of::<Conffile>(s.conffiles, key);
    assert forall|i: int| 0 <= i < declared.len() implies Conffile::owner(#[trigger] declared[i])
        == key by {
        s.conffiles.lemma_filter_pred(owned_by::<Conffile>(key), i);
    }
    lemma_rows_without_own::<Conffile>(declared, key);
    assert forall|i: int| 0 <= i < v.installed.conffiles.len() implies Conffile::owner(
        #[trigger] v.installed.conffiles[i],
    ) != key by {}
    lemma_rows_without_absent::<Conffile>(v.installed.conffiles, key);
    Seq::filter_distributes_over_add(v.installed.conffiles, declared, kept_by::<Conffile>(names));
    assert(gone.installed.conffiles =~= v.installed.conffiles);
    // files
    let recorded = file_rows(key, entries);
    assert forall|i: int| 0 <= i < recorded.len() implies InstalledFile::owner(
        #[trigger] recorded[i],
    ) == key by {
        lemma_file_rows_owner(key, entries, i);
    }
    lemma_rows_without_own::<InstalledFile>(recorded, key);
    assert forall|i: int| 0 <= i < v.files.len() implies InstalledFile::owner(#[trigger] v.files[i])
        != key by {}
    lemma_rows_without_absent::<InstalledFile>(v.files, key);
    Seq::filter_distributes_over_add(v.files, recorded, kept_by::<InstalledFile>(names));
    assert(gone.files =~= v.files);
}

} // verus!
