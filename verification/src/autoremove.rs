use crate::graph::{
    auto_installed, dependants, dependants_first, depends_on, lemma_dependants, links, removable,
    removable_closure,
};
use crate::model::{views, Conffile, DepEdge, DepEdgeView, InstalledFile, StatusRow};
use crate::purge::{hard_removed, purge_named, purge_plan, PurgePlan};
use crate::store::{
    has_package, kept_by, lemma_rows_without_status, rows_without, Owned, PackageStore, StoreView,
};
use vstd::prelude::*;

verus! {

/// One package that the sweep has given up, with what is to be done on disk.
#[derive(Debug)]
pub struct Removed {
    pub package: String,
    pub plan: PurgePlan,
}

/// The names of the packages given up, in the order of the sweep.
pub open spec fn swept(removed: Seq<Removed>) -> Seq<Seq<char>> {
    removed.map_values(|r: Removed| r.package@)
}

/// Deleting the rows of some packages and then those of one more deletes
/// the rows of all of them.
pub proof fn lemma_rows_without_more<T: Owned>(rows: Seq<T::V>, names: Seq<Seq<char>>, x: Seq<char>)
    ensures
        rows_without::<T>(rows_without::<T>(rows, names), seq![x]) == rows_without::<T>(
            rows,
            names.push(x),
        ),
    decreases rows.len(),
{
    let first = kept_by::<T>(names);
    let second = kept_by::<T>(seq![x]);
    let both = kept_by::<T>(names.push(x));
    if rows.len() > 0 {
        let front = rows.drop_last();
        let last = rows.last();
        lemma_rows_without_more::<T>(front, names, x);
        assert(front.push(last) =~= rows);
        front.lemma_filter_push(last, first);
        front.lemma_filter_push(last, both);
        front.filter(first).lemma_filter_push(last, second);
        let o = T::owner(last);
        assert(seq![x][0] == x);
        assert(names.push(x)[names.len() as int] == x);
        assert(names.push(x).contains(o) <==> names.contains(o) || o == x) by {
            if names.contains(o) {
                let i = choose|i: int| 0 <= i < names.len() && names[i] == o;
                assert(names.push(x)[i] == o);
            }
            if names.push(x).contains(o) {
                let i = choose|i: int| 0 <= i < names.push(x).len() && names.push(x)[i] == o;
                if i < names.len() {
                    assert(names[i] == o);
                }
            }
        }
        assert(seq![x].contains(o) <==> o == x);
    }
}

/// Deleting the rows of no package leaves the table as it is.
pub proof fn lemma_rows_without_none<T: Owned>(rows: Seq<T::V>)
    ensures
        rows_without::<T>(rows, Seq::empty()) == rows,
    decreases rows.len(),
{
    let keep = kept_by::<T>(Seq::empty());
    if rows.len() > 0 {
        let front = rows.drop_last();
        let last = rows.last();
        lemma_rows_without_none::<T>(front);
        assert(front.push(last) =~= rows);
        front.lemma_filter_push(last, keep);
    }
}

/// Removing some packages for good and then one more removes all of them.
pub proof fn lemma_hard_removed_more(v: StoreView, names: Seq<Seq<char>>, x: Seq<char>)
    ensures
        hard_removed(hard_removed(v, names), seq![x]) == hard_removed(v, names.push(x)),
{
    lemma_rows_without_more::<StatusRow>(v.installed.status, names, x);
    lemma_rows_without_more::<DepEdge>(v.installed.dependencies, names, x);
    lemma_rows_without_more::<Conffile>(v.installed.conffiles, names, x);
    lemma_rows_without_more::<InstalledFile>(v.files, names, x);
}

/// Once the packages that depend on `name` are gone, nothing needs it.
pub proof fn lemma_not_needed(edges: Seq<DepEdgeView>, gone: Seq<Seq<char>>, name: Seq<char>)
    requires
        forall|d: Seq<char>| #[trigger] depends_on(edges, d, name) ==> gone.contains(d),
    ensures
        dependants(rows_without::<DepEdge>(edges, gone), name).len() == 0,
{
    let left = rows_without::<DepEdge>(edges, gone);
    let ds = dependants(left, name);
    if ds.len() > 0 {
        let d = ds[0];
        assert(ds.contains(d));
        lemma_dependants(left, name, d);
        let i = choose|i: int| 0 <= i < left.len() && links(#[trigger] left[i], d, name);
        edges.lemma_filter_pred(kept_by::<DepEdge>(gone), i);
        assert(left.contains(left[i]));
        edges.lemma_filter_contains_rev(kept_by::<DepEdge>(gone), left[i]);
        let k = choose|k: int| 0 <= k < edges.len() && edges[k] == left[i];
        assert(links(edges[k], d, name));
        assert(depends_on(edges, d, name));
    }
}

/// Gives up every package that nothing needs any more: the packages
/// installed only as a dependency whose dependants, if any, are given up
/// too. The set is settled first; then each package is purged, behind all
/// that depend on it, so that each purge is a removal for good.
pub fn autoremove(store: &mut PackageStore) -> (removed: Vec<Removed>)
    requires
        old(store)@.wf(),
    ensures
        final(store)@.wf(),
        swept(removed@).no_duplicates(),
        forall|x: Seq<char>|
            swept(removed@).contains(x) <==> removable(
                old(store)@.installed.status,
                old(store)@.installed.dependencies,
                x,
            ),
        dependants_first(
            old(store)@.installed.status,
            old(store)@.installed.dependencies,
            swept(removed@),
        ),
        final(store)@ == hard_removed(old(store)@, swept(removed@)),
        forall|x: Seq<char>|
            !removable(final(store)@.installed.status, final(store)@.installed.dependencies, x),
        forall|k: int|
            0 <= k < removed.len() ==> (#[trigger] removed@[k]).plan@ is Hard && removed@[k].plan@
                == purge_plan(
                hard_removed(old(store)@, swept(removed@).take(k)),
                swept(removed@)[k],
            ),
{
    let ghost v = store@;
    let order = removable_closure(&store.installed.status, &store.installed.dependencies);
    let ghost ov = views(order@);
    let mut removed: Vec<Removed> = Vec::new();
    let mut k: usize = 0;
    proof {
        assert(ov.take(0) =~= Seq::<Seq<char>>::empty());
        lemma_rows_without_none::<StatusRow>(v.installed.status);
        lemma_rows_without_none::<DepEdge>(v.installed.dependencies);
        lemma_rows_without_none::<Conffile>(v.installed.conffiles);
        lemma_rows_without_none::<InstalledFile>(v.files);
        assert(swept(removed@) =~= ov.take(0));
    }
    while k < order.len()
        invariant
            k <= order.len(),
            ov == views(order@),
            v.wf(),
            ov.no_duplicates(),
            dependants_first(v.installed.status, v.installed.dependencies, ov),
            store@.wf(),
            store@ == hard_removed(v, ov.take(k as int)),
            swept(removed@) == ov.take(k as int),
            forall|j: int|
                0 <= j < removed.len() ==> (#[trigger] removed@[j]).plan@ is Hard
                    && removed@[j].plan@ == purge_plan(hard_removed(v, ov.take(j)), ov[j]),
        decreases order.len() - k,
    {
        let ghost gone = ov.take(k as int);
        let ghost cur = store@;
        let name = order[k].clone();
        proof {
            assert(name@ == ov[k as int]);
            assert(auto_installed(v.installed.status, name@));
            assert(has_package(v.installed.status, name@));
            assert(!gone.contains(name@)) by {
                if gone.contains(name@) {
                    let j = choose|j: int| 0 <= j < gone.len() && gone[j] == name@;
                    assert(ov[j] == ov[k as int]);
                }
            }
            lemma_rows_without_status(v.installed.status, gone);
            assert forall|d: Seq<char>| #[trigger]
                depends_on(v.installed.dependencies, d, name@) implies gone.contains(d) by {
                let j = choose|j: int| 0 <= j < k && ov[j] == d;
                assert(gone[j] == d);
            }
            lemma_not_needed(v.installed.dependencies, gone, name@);
            lemma_hard_removed_more(v, gone, name@);
            assert(ov.take(k + 1) =~= gone.push(name@));
        }
        let r = purge_named(store, &name);
        let ghost before = removed@;
        match r {
            Ok(plan) => {
                removed.push(Removed { package: name, plan });
            },
            Err(_) => {
                proof {
                    assert(false);
                }
            },
        }
        proof {
            assert(swept(removed@) =~= swept(before).push(name@));
        }
        k = k + 1;
    }
    proof {
        assert(ov.take(order.len() as int) =~= ov);
        crate::laws::lemma_sweep_settles(v, ov);
        assert forall|j: int| 0 <= j < removed.len() implies (#[trigger] removed@[j]).plan@
            == purge_plan(hard_removed(v, swept(removed@).take(j)), swept(removed@)[j]) by {}
    }
    removed
}

} // verus!
