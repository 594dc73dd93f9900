use crate::model::{lemma_views_push, views, InstalledFile, InstalledFileView};
use vstd::prelude::*;

verus! {

/// One entry of the data payload of an archive.
#[derive(Debug)]
pub struct ArchiveEntry {
    pub path: String,
    pub is_directory: bool,
}

pub struct ArchiveEntryView {
    pub path: Seq<char>,
    pub is_directory: bool,
}

impl View for ArchiveEntry {
    type V = ArchiveEntryView;

    open spec fn view(&self) -> ArchiveEntryView {
        ArchiveEntryView { path: self.path@, is_directory: self.is_directory }
    }
}

/// What an opened archive holds: the text of its control file, whether it
/// brings hooks to run before and after the files are unpacked, the hooks
/// to keep for its removal, and the entries of its data payload in the
/// order of the archive.
#[derive(Debug)]
pub struct ArchiveInfo {
    pub control: String,
    pub has_preinst: bool,
    pub has_postinst: bool,
    pub prerm: String,
    pub postrm: String,
    pub entries: Vec<ArchiveEntry>,
}

/// One step of unpacking a package.
#[derive(Clone, Copy, Debug, PartialEq, Eq, Structural)]
pub enum FileStep {
    /// Run the hook that the archive brings for before the unpacking.
    PreInstall,
    /// Unpack the entry that stands at this place of the data payload.
    Extract(usize),
    /// Run the hook that the archive brings for after the unpacking.
    PostInstall,
}

/// The places below `n` of the entries that are directories, or of those
/// that are not, in rising order.
pub open spec fn places(entries: Seq<ArchiveEntryView>, directories: bool, n: int) -> Seq<int>
    decreases n,
{
    if n <= 0 {
        Seq::empty()
    } else if entries[n - 1].is_directory == directories {
        places(entries, directories, n - 1).push(n - 1)
    } else {
        places(entries, directories, n - 1)
    }
}

/// The order in which the entries are unpacked: all that are no
/// directories first, then the directories, each group in the order of the
/// archive.
pub open spec fn extraction_order(entries: Seq<ArchiveEntryView>) -> Seq<int> {
    places(entries, false, entries.len() as int) + places(entries, true, entries.len() as int)
}

/// The steps of unpacking an archive.
pub open spec fn file_steps(has_preinst: bool, entries: Seq<ArchiveEntryView>, has_postinst: bool)
    -> Seq<FileStep> {
    (if has_preinst {
        seq![FileStep::PreInstall]
    } else {
        Seq::empty()
    }) + extraction_order(entries).map_values(|i: int| FileStep::Extract(i as usize)) + (
    if has_postinst {
        seq![FileStep::PostInstall]
    } else {
        Seq::empty()
    })
}

/// The rows that record the files of `package`: one for every entry that
/// is no directory, in the order of the archive.
pub open spec fn file_rows(package: Seq<char>, entries: Seq<ArchiveEntryView>) -> Seq<
    InstalledFileView,
>
    decreases entries.len(),
{
    if entries.len() == 0 {
        Seq::empty()
    } else {
        let rest = file_rows(package, entries.drop_last());
        if entries.last().is_directory {
            rest
        } else {
            rest.push(InstalledFileView { package, file: entries.last().path })
        }
    }
}

/// What the places of one kind are: each is a place below `n` of that
/// kind, they rise, and none is left out.
pub proof fn lemma_places(entries: Seq<ArchiveEntryView>, directories: bool, n: int)
    requires
        0 <= n <= entries.len(),
    ensures
        forall|k: int|
            0 <= k < places(entries, directories, n).len() ==> 0 <= #[trigger] places(
                entries,
                directories,
                n,
            )[k] < n && entries[places(entries, directories, n)[k]].is_directory == directories,
        forall|a: int, b: int|
            0 <= a < b < places(entries, directories, n).len() ==> places(entries, directories, n)[a]
                < places(entries, directories, n)[b],
        forall|i: int|
            0 <= i < n && (#[trigger] entries[i]).is_directory == directories ==> places(
                entries,
                directories,
                n,
            ).contains(i),
    decreases n,
{
    if n > 0 {
        lemma_places(entries, directories, n - 1);
        let before = places(entries, directories, n - 1);
        let now = places(entries, directories, n);
        assert forall|i: int|
            0 <= i < n && (#[trigger] entries[i]).is_directory == directories implies now.contains(
            i,
        ) by {
            if i < n - 1 {
                let k = choose|k: int| 0 <= k < before.len() && before[k] == i;
                assert(now[k] == i);
            } else {
                assert(now[now.len() - 1] == i);
            }
        }
    }
}

/// Directories come last: in the order of unpacking every entry stands
/// exactly once, and no directory stands before an entry that is none, so
/// that the permissions of a directory cannot stand in the way of what is
/// unpacked beneath it.
pub proof fn lemma_directories_last(entries: Seq<ArchiveEntryView>)
    ensures
        extraction_order(entries).len() == entries.len(),
        extraction_order(entries).no_duplicates(),
        forall|i: int| 0 <= i < entries.len() ==> extraction_order(entries).contains(i),
        forall|a: int, b: int|
            0 <= a < b < extraction_order(entries).len() ==> !(entries[extraction_order(
                entries,
            )[a]].is_directory && !entries[extraction_order(entries)[b]].is_directory),
{
    let n = entries.len() as int;
    let files = places(entries, false, n);
    let dirs = places(entries, true, n);
    let order = extraction_order(entries);
    lemma_places(entries, false, n);
    lemma_places(entries, true, n);
    assert forall|k: int| 0 <= k < order.len() implies 0 <= #[trigger] order[k] < n
        && entries[order[k]].is_directory == (k >= files.len()) by {
        if k < files.len() {
            assert(order[k] == files[k]);
        } else {
            assert(order[k] == dirs[k - files.len()]);
        }
    }
    assert forall|a: int, b: int| 0 <= a < order.len() && 0 <= b < order.len() && a != b implies order[a]
        != order[b] by {
        if a < files.len() && b < files.len() {
            assert(order[a] == files[a] && order[b] == files[b]);
        } else if a >= files.len() && b >= files.len() {
            assert(order[a] == dirs[a - files.len()] && order[b] == dirs[b - files.len()]);
        } else {
            assert(entries[order[a]].is_directory != entries[order[b]].is_directory);
        }
    }
    assert forall|i: int| 0 <= i < n implies order.contains(i) by {
        if entries[i].is_directory {
            let k = choose|k: int| 0 <= k < dirs.len() && dirs[k] == i;
            assert(order[files.len() + k] == i);
        } else {
            let k = choose|k: int| 0 <= k < files.len() && files[k] == i;
            assert(order[k] == i);
        }
    }
    crate::graph::lemma_distinct_indices_bounded(order, n);
    assert(order.len() == n) by {
        lemma_places_count(entries, n);
    }
}

/// Every place is of one kind or the other.
pub proof fn lemma_places_count(entries: Seq<ArchiveEntryView>, n: int)
    requires
        0 <= n <= entries.len(),
    ensures
        places(entries, false, n).len() + places(entries, true, n).len() == n,
    decreases n,
{
    if n > 0 {
        lemma_places_count(entries, n - 1);
    }
}

/// The steps of unpacking an archive: the hook for before, if the archive
/// brings one; every entry that is no directory; every directory; the hook
/// for after, if the archive brings one.
pub fn plan_files(has_preinst: bool, entries: &Vec<ArchiveEntry>, has_postinst: bool) -> (steps:
    Vec<FileStep>)
    ensures
        steps@ == file_steps(has_preinst, views(entries@), has_postinst),
{
    let ghost ev = views(entries@);
    let ghost head = if has_preinst {
        seq![FileStep::PreInstall]
    } else {
        Seq::<FileStep>::empty()
    };
    let ghost wrap = |i: int| FileStep::Extract(i as usize);
    let mut steps: Vec<FileStep> = Vec::new();
    if has_preinst {
        steps.push(FileStep::PreInstall);
    }
    assert(steps@ =~= head);
    let mut i: usize = 0;
    assert(steps@ =~= head + places(ev, false, 0).map_values(wrap));
    while i < entries.len()
        invariant
            i <= entries.len(),
            ev == views(entries@),
            wrap == |i: int| FileStep::Extract(i as usize),
            steps@ == head + places(ev, false, i as int).map_values(wrap),
        decreases entries.len() - i,
    {
        if !entries[i].is_directory {
            steps.push(FileStep::Extract(i));
            assert(steps@ =~= head + places(ev, false, i + 1).map_values(wrap));
        }
        i = i + 1;
    }
    let ghost files = places(ev, false, entries.len() as int).map_values(wrap);
    let mut j: usize = 0;
    assert(steps@ =~= head + files + places(ev, true, 0).map_values(wrap));
    while j < entries.len()
        invariant
            j <= entries.len(),
            ev == views(entries@),
            wrap == |i: int| FileStep::Extract(i as usize),
            steps@ == head + files + places(ev, true, j as int).map_values(wrap),
        decreases entries.len() - j,
    {
        if entries[j].is_directory {
            steps.push(FileStep::Extract(j));
            assert(steps@ =~= head + files + places(ev, true, j + 1).map_values(wrap));
        }
        j = j + 1;
    }
    if has_postinst {
        steps.push(FileStep::PostInstall);
    }
    assert(steps@ =~= file_steps(has_preinst, ev, has_postinst));
    steps
}

/// Appends the rows that record the files of `package`.
pub fn record_files(package: &String, entries: &Vec<ArchiveEntry>, files: &mut Vec<InstalledFile>)
    ensures
        views(final(files)@) == views(old(files)@) + file_rows(package@, views(entries@)),
{
    let ghost base = views(files@);
    let ghost ev = views(entries@);
    let mut i: usize = 0;
    assert(ev.take(0) =~= Seq::empty());
    assert(views(files@) =~= base + file_rows(package@, ev.take(0)));
    while i < entries.len()
        invariant
            i <= entries.len(),
            ev == views(entries@),
            views(files@) == base + file_rows(package@, ev.take(i as int)),
        decreases entries.len() - i,
    {
        let e = &entries[i];
        proof {
            assert(ev.take(i + 1).drop_last() =~= ev.take(i as int));
            assert(ev.take(i + 1).last() == e@);
        }
        if !e.is_directory {
            let ghost before = files@;
            let row = InstalledFile { package: package.clone(), file: e.path.clone() };
            files.push(row);
            proof {
                lemma_views_push(before, row);
                assert((base + file_rows(package@, ev.take(i as int))).push(row@) =~= base
                    + file_rows(package@, ev.take(i + 1)));
            }
        }
        i = i + 1;
    }
    assert(ev.take(entries.len() as int) =~= ev);
}

} // verus!
