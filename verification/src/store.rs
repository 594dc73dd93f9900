use crate::graph::contains_name;
use crate::model::{
    lemma_views_push, views, Conffile, ConffileView, DepEdge, DepEdgeView, InstalledFile,
    InstalledFileView, StatusRow, StatusRowView,
};
use vstd::prelude::*;

verus! {

/// A row that belongs to a package.
pub trait Owned: View + Sized {
    /// The package that the row belongs to.
    spec fn owner(v: Self::V) -> Seq<char>;

    fn owner_name(&self) -> (name: &String)
        ensures
            name@ == Self::owner(self@),
    ;
}

impl Owned for StatusRow {
    open spec fn owner(v: StatusRowView) -> Seq<char> {
        v.package
    }

    fn owner_name(&self) -> (name: &String) {
        &self.package
    }
}

impl Owned for DepEdge {
    open spec fn owner(v: DepEdgeView) -> Seq<char> {
        v.package
    }

    fn owner_name(&self) -> (name: &String) {
        &self.package
    }
}

impl Owned for Conffile {
    open spec fn owner(v: ConffileView) -> Seq<char> {
        v.package
    }

    fn owner_name(&self) -> (name: &String) {
        &self.package
    }
}

impl Owned for InstalledFile {
    open spec fn owner(v: InstalledFileView) -> Seq<char> {
        v.package
    }

    fn owner_name(&self) -> (name: &String) {
        &self.package
    }
}

/// The rows that belong to none of the packages `names`, in their order.
pub open spec fn rows_without<T: Owned>(rows: Seq<T::V>, names: Seq<Seq<char>>) -> Seq<T::V> {
    rows.filter(kept_by::<T>(names))
}

/// The test that a row belongs to none of the packages `names`.
pub open spec fn kept_by<T: Owned>(names: Seq<Seq<char>>) -> spec_fn(T::V) -> bool {
    |v: T::V| !names.contains(T::owner(v))
}

/// Deletes the rows of the packages `names`.
pub fn delete_rows<T: Owned>(rows: Vec<T>, names: &Vec<String>) -> (kept: Vec<T>)
    ensures
        views(kept@) == rows_without::<T>(views(rows@), views(names@)),
{
    let ghost all = rows@;
    let ghost pred = kept_by::<T>(views(names@));
    let mut kept: Vec<T> = Vec::new();
    assert(views(all).take(0) =~= Seq::empty());
    assert(views(kept@) =~= Seq::empty());
    for row in it: rows
        invariant
            it.seq() == all,
            pred == kept_by::<T>(views(names@)),
            views(kept@) == views(all).take(it.index() as int).filter(pred),
    {
        proof {
            let i = it.index() as int;
            assert(views(all).take(i + 1) =~= views(all).take(i).push(row@));
            views(all).take(i).lemma_filter_push(row@, pred);
        }
        if !contains_name(names, row.owner_name()) {
            let ghost before = kept@;
            kept.push(row);
            proof {
                lemma_views_push(before, row);
            }
        }
    }
    assert(views(all).take(all.len() as int) =~= views(all));
    kept
}

/// One copy of the status, dependency and conffile tables.
#[derive(Debug)]
pub struct Tables {
    pub status: Vec<StatusRow>,
    pub dependencies: Vec<DepEdge>,
    pub conffiles: Vec<Conffile>,
}

pub struct TablesView {
    pub status: Seq<StatusRowView>,
    pub dependencies: Seq<DepEdgeView>,
    pub conffiles: Seq<ConffileView>,
}

impl View for Tables {
    type V = TablesView;

    open spec fn view(&self) -> TablesView {
        TablesView {
            status: views(self.status@),
            dependencies: views(self.dependencies@),
            conffiles: views(self.conffiles@),
        }
    }
}

/// No two rows are for the same package, and every row passes the checks
/// of its table.
pub open spec fn status_wf(rows: Seq<StatusRowView>) -> bool {
    &&& forall|i: int, j: int|
        0 <= i < rows.len() && 0 <= j < rows.len() && i != j ==> (#[trigger] rows[i]).package != (
        #[trigger] rows[j]).package
    &&& forall|i: int| 0 <= i < rows.len() ==> (#[trigger] rows[i]).admissible()
}

/// Some row is for the package `name`.
pub open spec fn has_package(rows: Seq<StatusRowView>, name: Seq<char>) -> bool {
    exists|i: int| 0 <= i < rows.len() && (#[trigger] rows[i]).package == name
}

impl TablesView {
    pub open spec fn empty() -> TablesView {
        TablesView { status: Seq::empty(), dependencies: Seq::empty(), conffiles: Seq::empty() }
    }

    pub open spec fn wf(self) -> bool {
        status_wf(self.status)
    }

    /// The tables once every row of the packages `names` is deleted.
    pub open spec fn without(self, names: Seq<Seq<char>>) -> TablesView {
        TablesView {
            status: rows_without::<StatusRow>(self.status, names),
            dependencies: rows_without::<DepEdge>(self.dependencies, names),
            conffiles: rows_without::<Conffile>(self.conffiles, names),
        }
    }
}

/// The package database: what is installed, what the mirror offers, the
/// rows of an install in progress, and the files that installed packages own.
#[derive(Debug)]
pub struct PackageStore {
    pub installed: Tables,
    pub available: Tables,
    pub staging: Option<Tables>,
    pub files: Vec<InstalledFile>,
}

pub struct StoreView {
    pub installed: TablesView,
    pub available: TablesView,
    pub staging: Option<TablesView>,
    pub files: Seq<InstalledFileView>,
}

impl View for PackageStore {
    type V = StoreView;

    open spec fn view(&self) -> StoreView {
        StoreView {
            installed: self.installed@,
            available: self.available@,
            staging: match self.staging {
                Some(t) => Some(t@),
                None => None,
            },
            files: views(self.files@),
        }
    }
}

impl StoreView {
    pub open spec fn wf(self) -> bool {
        &&& self.installed.wf()
        &&& self.available.wf()
        &&& self.staging matches Some(t) ==> t.wf()
    }

    /// The package `name` is installed.
    pub open spec fn is_installed(self, name: Seq<char>) -> bool {
        has_package(self.installed.status, name)
    }
}

/// Deleting rows leaves the rows that stay as they were.
pub proof fn lemma_rows_without_status(rows: Seq<StatusRowView>, names: Seq<Seq<char>>)
    requires
        status_wf(rows),
    ensures
        status_wf(rows_without::<StatusRow>(rows, names)),
        forall|x: Seq<char>|
            has_package(rows_without::<StatusRow>(rows, names), x) <==> has_package(rows, x)
                && !names.contains(x),
    decreases rows.len(),
{
    let pred = kept_by::<StatusRow>(names);
    let kept = rows.filter(pred);
    if rows.len() > 0 {
        let front = rows.drop_last();
        let last = rows.last();
        assert(status_wf(front)) by {
            assert forall|i: int, j: int|
                0 <= i < front.len() && 0 <= j < front.len() && i != j implies (
            #[trigger] front[i]).package != (#[trigger] front[j]).package by {
                assert(rows[i].package != rows[j].package);
            }
            assert forall|i: int| 0 <= i < front.len() implies (#[trigger] front[i]).admissible() by {
                assert(rows[i].admissible());
            }
        }
        lemma_rows_without_status(front, names);
        assert(front.push(last) =~= rows);
        front.lemma_filter_push(last, pred);
        let fk = front.filter(pred);
        assert forall|x: Seq<char>| has_package(kept, x) <==> has_package(rows, x) && !names.contains(
            x,
        ) by {
            if has_package(kept, x) {
                let i = choose|i: int| 0 <= i < kept.len() && (#[trigger] kept[i]).package == x;
                if i < fk.len() {
                    assert(fk[i].package == x);
                    assert(has_package(fk, x));
                    let k = choose|k: int| 0 <= k < front.len() && (#[trigger] front[k]).package == x;
                    assert(rows[k].package == x);
                } else {
                    assert(rows[rows.len() - 1].package == x);
                }
            }
            if has_package(rows, x) && !names.contains(x) {
                let k = choose|k: int| 0 <= k < rows.len() && (#[trigger] rows[k]).package == x;
                if k < front.len() {
                    assert(front[k].package == x);
                    assert(has_package(fk, x));
                    let i = choose|i: int| 0 <= i < fk.len() && (#[trigger] fk[i]).package == x;
                    assert(kept[i].package == x);
                } else {
                    assert(kept[kept.len() - 1].package == x);
                }
            }
        }
        assert(status_wf(kept)) by {
            assert forall|i: int, j: int|
                0 <= i < kept.len() && 0 <= j < kept.len() && i != j implies (
            #[trigger] kept[i]).package != (#[trigger] kept[j]).package by {
                if i < fk.len() && j < fk.len() {
                    assert(fk[i].package != fk[j].package);
                } else {
                    let low = if i < fk.len() { i } else { j };
                    assert(fk[low].package == kept[low].package);
                    assert(has_package(fk, fk[low].package));
                    let k = choose|k: int|
                        0 <= k < front.len() && (#[trigger] front[k]).package == fk[low].package;
                    assert(rows[k].package != rows[rows.len() - 1].package);
                }
            }
            assert forall|i: int| 0 <= i < kept.len() implies (#[trigger] kept[i]).admissible() by {
                if i < fk.len() {
                    assert(fk[i].admissible());
                } else {
                    assert(rows[rows.len() - 1].admissible());
                }
            }
        }
    }
}

/// Whether a status table is well formed.
pub fn status_is_wf(rows: &Vec<StatusRow>) -> (ok: bool)
    ensures
        ok == status_wf(views(rows@)),
{
    let ghost rv = views(rows@);
    let mut i: usize = 0;
    while i < rows.len()
        invariant
            i <= rows.len(),
            rv == views(rows@),
            forall|a: int, b: int|
                0 <= a < i && 0 <= b < rows.len() && a != b ==> (#[trigger] rv[a]).package != (
                #[trigger] rv[b]).package,
            forall|a: int| 0 <= a < i ==> (#[trigger] rv[a]).admissible(),
        decreases rows.len() - i,
    {
        let row = &rows[i];
        assert(rv[i as int] == row@);
        let md5_fits = match &row.md5 {
            Some(h) => h.as_str().unicode_len() == 32,
            None => true,
        };
        let sha256_fits = match &row.sha256 {
            Some(h) => h.as_str().unicode_len() == 64,
            None => true,
        };
        if !md5_fits || !sha256_fits {
            return false;
        }
        let mut j: usize = i + 1;
        while j < rows.len()
            invariant
                i < j <= rows.len(),
                rv == views(rows@),
                forall|b: int| i < b < j ==> rv[i as int].package != (#[trigger] rv[b]).package,
            decreases rows.len() - j,
        {
            if rows[i].package == rows[j].package {
                assert(rv[i as int].package == rv[j as int].package);
                return false;
            }
            j = j + 1;
        }
        i = i + 1;
    }
    true
}

impl PackageStore {
    /// Whether the database is well formed: in every status table no two
    /// rows are for the same package, and every row passes the checks of
    /// its table.
    pub fn is_wf(&self) -> (ok: bool)
        ensures
            ok == self@.wf(),
    {
        let staging = match &self.staging {
            Some(t) => status_is_wf(&t.status),
            None => true,
        };
        status_is_wf(&self.installed.status) && status_is_wf(&self.available.status) && staging
    }
}

} // verus!
