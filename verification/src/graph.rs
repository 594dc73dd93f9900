use crate::model::{
    lemma_views_push, views, DepEdge, DepEdgeView, RelationKind, StatusRow, StatusRowView,
};
use vstd::prelude::*;
use vstd::set_lib::{lemma_int_range, lemma_len_subset, set_int_range};

verus! {

/// The edge says that `package` depends on `dependency`.
pub open spec fn links(e: DepEdgeView, package: Seq<char>, dependency: Seq<char>) -> bool {
    e.kind == RelationKind::Depends && e.package == package && e.dependency == dependency
}

/// Some edge of kind depends leads from `package` to `dependency`.
pub open spec fn depends_on(edges: Seq<DepEdgeView>, package: Seq<char>, dependency: Seq<char>) -> bool {
    exists|i: int| 0 <= i < edges.len() && links(#[trigger] edges[i], package, dependency)
}

/// A chain of exactly `n` depends-edges leads from `from` to `to`.
pub open spec fn reaches_in(edges: Seq<DepEdgeView>, from: Seq<char>, to: Seq<char>, n: nat) -> bool
    decreases n,
{
    if n == 0 {
        from == to
    } else {
        exists|mid: Seq<char>|
            #[trigger] depends_on(edges, from, mid) && reaches_in(edges, mid, to, (n - 1) as nat)
    }
}

/// `to` is a direct or indirect dependency of `from`.
pub open spec fn reaches(edges: Seq<DepEdgeView>, from: Seq<char>, to: Seq<char>) -> bool {
    exists|n: nat| n >= 1 && #[trigger] reaches_in(edges, from, to, n)
}

/// `to` is one of the seeds or a direct or indirect dependency of one.
pub open spec fn reached_from(edges: Seq<DepEdgeView>, seeds: Seq<Seq<char>>, to: Seq<char>) -> bool {
    exists|k: int, n: nat| 0 <= k < seeds.len() && #[trigger] reaches_in(edges, seeds[k], to, n)
}

/// Every name is either a seed or a dependency of a name that stands before it.
pub open spec fn discovered_from(edges: Seq<DepEdgeView>, seeds: Seq<Seq<char>>, order: Seq<Seq<char>>) -> bool {
    forall|k: int|
        0 <= k < order.len() ==> seeds.contains(#[trigger] order[k]) || exists|j: int|
            0 <= j < k && depends_on(edges, order[j], order[k])
}

/// The names that `package` depends on directly, one for each of its edges.
pub open spec fn direct_dependencies(edges: Seq<DepEdgeView>, package: Seq<char>) -> Seq<Seq<char>>
    decreases edges.len(),
{
    if edges.len() == 0 {
        Seq::empty()
    } else {
        let rest = direct_dependencies(edges.drop_last(), package);
        let e = edges.last();
        if e.kind == RelationKind::Depends && e.package == package {
            rest.push(e.dependency)
        } else {
            rest
        }
    }
}

/// A chain can be extended at its end by one more edge.
pub proof fn lemma_reaches_extend(edges: Seq<DepEdgeView>, a: Seq<char>, b: Seq<char>, c: Seq<char>, n: nat)
    requires
        reaches_in(edges, a, b, n),
        depends_on(edges, b, c),
    ensures
        reaches_in(edges, a, c, n + 1),
    decreases n,
{
    reveal_with_fuel(reaches_in, 2);
    if n == 0 {
        assert(reaches_in(edges, c, c, 0));
    } else {
        let mid = choose|mid: Seq<char>|
            #[trigger] depends_on(edges, a, mid) && reaches_in(edges, mid, b, (n - 1) as nat);
        lemma_reaches_extend(edges, mid, b, c, (n - 1) as nat);
        assert(reaches_in(edges, mid, c, n));
    }
}

/// A set of names that holds `from` and is closed under depends-edges holds
/// whatever `from` reaches.
pub proof fn lemma_closed_holds_reached(
    edges: Seq<DepEdgeView>,
    closed: Seq<Seq<char>>,
    from: Seq<char>,
    to: Seq<char>,
    n: nat,
)
    requires
        closed.contains(from),
        reaches_in(edges, from, to, n),
        forall|p: Seq<char>, d: Seq<char>|
            closed.contains(p) && #[trigger] depends_on(edges, p, d) ==> closed.contains(d),
    ensures
        closed.contains(to),
    decreases n,
{
    if n > 0 {
        let mid = choose|mid: Seq<char>|
            #[trigger] depends_on(edges, from, mid) && reaches_in(edges, mid, to, (n - 1) as nat);
        lemma_closed_holds_reached(edges, closed, mid, to, (n - 1) as nat);
    }
}

/// Names discovered from the seeds are reached from the seeds.
pub proof fn lemma_discovered_is_reached(
    edges: Seq<DepEdgeView>,
    seeds: Seq<Seq<char>>,
    order: Seq<Seq<char>>,
    k: int,
)
    requires
        discovered_from(edges, seeds, order),
        0 <= k < order.len(),
    ensures
        reached_from(edges, seeds, order[k]),
    decreases k,
{
    if seeds.contains(order[k]) {
        let s = choose|s: int| 0 <= s < seeds.len() && seeds[s] == order[k];
        assert(reaches_in(edges, seeds[s], order[k], 0));
    } else {
        let j = choose|j: int| 0 <= j < k && depends_on(edges, order[j], order[k]);
        lemma_discovered_is_reached(edges, seeds, order, j);
        let (s, n) = choose|s: int, n: nat|
            0 <= s < seeds.len() && #[trigger] reaches_in(edges, seeds[s], order[j], n);
        lemma_reaches_extend(edges, seeds[s], order[j], order[k], n);
        assert(reaches_in(edges, seeds[s], order[k], n + 1));
    }
}

/// A sequence of distinct indices into a table is no longer than the table.
pub proof fn lemma_distinct_indices_bounded(indices: Seq<int>, bound: int)
    requires
        0 <= bound,
        indices.no_duplicates(),
        forall|k: int| 0 <= k < indices.len() ==> 0 <= #[trigger] indices[k] < bound,
    ensures
        indices.len() <= bound,
{
    if indices.len() > 0 {
        assert(0 <= indices[0] < bound);
        indices.unique_seq_to_set();
        lemma_int_range(0, bound);
        assert(indices.to_set().subset_of(set_int_range(0, bound))) by {
            assert forall|x: int| indices.to_set().contains(x) implies set_int_range(0, bound).contains(x) by {
                let k = choose|k: int| 0 <= k < indices.len() && indices[k] == x;
                assert(0 <= indices[k] < bound);
            }
        }
        lemma_len_subset(indices.to_set(), set_int_range(0, bound));
    }
}

/// Whether `name` is among `names`.
pub fn contains_name(names: &Vec<String>, name: &String) -> (found: bool)
    ensures
        found == views(names@).contains(name@),
{
    let mut i: usize = 0;
    while i < names.len()
        invariant
            i <= names.len(),
            forall|j: int| 0 <= j < i ==> names@[j]@ != name@,
        decreases names.len() - i,
    {
        if names[i] == *name {
            assert(views(names@)[i as int] == name@);
            return true;
        }
        i = i + 1;
    }
    assert(!views(names@).contains(name@)) by {
        if views(names@).contains(name@) {
            let j = choose|j: int| 0 <= j < views(names@).len() && views(names@)[j] == name@;
            assert(names@[j]@ == name@);
        }
    }
    false
}

/// The name that stands at place `i` when the seeds are followed by the
/// dependency of every edge.
pub open spec fn candidate(edges: Seq<DepEdgeView>, seeds: Seq<Seq<char>>, i: int) -> Seq<char> {
    if i < seeds.len() {
        seeds[i]
    } else {
        edges[i - seeds.len()].dependency
    }
}

/// Each name was taken from the place that `src` records for it.
pub open spec fn taken_from(
    edges: Seq<DepEdgeView>,
    seeds: Seq<Seq<char>>,
    order: Seq<Seq<char>>,
    src: Seq<int>,
) -> bool {
    &&& src.len() == order.len()
    &&& forall|k: int|
        0 <= k < src.len() ==> 0 <= #[trigger] src[k] < seeds.len() + edges.len() && candidate(
            edges,
            seeds,
            src[k],
        ) == order[k]
}

/// Distinct names taken from the seeds and the edges are no more than these.
pub proof fn lemma_taken_bounded(
    edges: Seq<DepEdgeView>,
    seeds: Seq<Seq<char>>,
    order: Seq<Seq<char>>,
    src: Seq<int>,
)
    requires
        order.no_duplicates(),
        taken_from(edges, seeds, order, src),
    ensures
        order.len() <= seeds.len() + edges.len(),
{
    assert forall|i: int, j: int| 0 <= i < src.len() && 0 <= j < src.len() && i != j implies src[i]
        != src[j] by {
        if src[i] == src[j] {
            assert(order[i] == candidate(edges, seeds, src[i]));
            assert(order[j] == candidate(edges, seeds, src[j]));
        }
    }
    lemma_distinct_indices_bounded(src, (seeds.len() + edges.len()) as int);
}

/// The seeds and everything they depend on, directly or through other
/// packages, each name once and in the order of discovery: the seeds come
/// first, and every other name follows a package that depends on it.
pub fn dependency_closure(edges: &Vec<DepEdge>, seeds: &Vec<String>) -> (order: Vec<String>)
    ensures
        views(order@).no_duplicates(),
        forall|x: Seq<char>|
            views(order@).contains(x) <==> reached_from(views(edges@), views(seeds@), x),
        discovered_from(views(edges@), views(seeds@), views(order@)),
{
    let ghost ev = views(edges@);
    let ghost sv = views(seeds@);
    let mut order: Vec<String> = Vec::new();
    let ghost mut src: Seq<int> = Seq::empty();
    let mut s: usize = 0;
    while s < seeds.len()
        invariant
            s <= seeds.len(),
            ev == views(edges@),
            sv == views(seeds@),
            views(order@).no_duplicates(),
            taken_from(ev, sv, views(order@), src),
            forall|k: int| 0 <= k < order.len() ==> sv.contains(#[trigger] views(order@)[k]),
            forall|j: int| 0 <= j < s ==> views(order@).contains(#[trigger] sv[j]),
        decreases seeds.len() - s,
    {
        if !contains_name(&order, &seeds[s]) {
            let ghost before = order@;
            let name = seeds[s].clone();
            order.push(name);
            proof {
                lemma_views_push(before, name);
                src = src.push(s as int);
                assert(sv[s as int] == name@);
                assert(views(order@)[before.len() as int] == name@);
                assert forall|j: int| 0 <= j < s + 1 implies views(order@).contains(#[trigger] sv[j]) by {
                    if j < s {
                        let k = choose|k: int| 0 <= k < before.len() && views(before)[k] == sv[j];
                        assert(views(order@)[k] == sv[j]);
                    }
                }
            }
        }
        s = s + 1;
    }
    let mut i: usize = 0;
    while i < order.len()
        invariant
            i <= order.len(),
            ev == views(edges@),
            sv == views(seeds@),
            views(order@).no_duplicates(),
            taken_from(ev, sv, views(order@), src),
            discovered_from(ev, sv, views(order@)),
            forall|j: int| 0 <= j < sv.len() ==> views(order@).contains(#[trigger] sv[j]),
            forall|j: int, t: int|
                0 <= j < i && 0 <= t < ev.len() && links(
                    #[trigger] ev[t],
                    #[trigger] views(order@)[j],
                    ev[t].dependency,
                ) ==> views(order@).contains(ev[t].dependency),
        decreases seeds.len() + edges.len() - i,
    {
        proof {
            lemma_taken_bounded(ev, sv, views(order@), src);
        }
        let mut t: usize = 0;
        while t < edges.len()
            invariant
                t <= edges.len(),
                i < order.len(),
                ev == views(edges@),
                sv == views(seeds@),
                views(order@).no_duplicates(),
                taken_from(ev, sv, views(order@), src),
                discovered_from(ev, sv, views(order@)),
                forall|j: int| 0 <= j < sv.len() ==> views(order@).contains(#[trigger] sv[j]),
                forall|j: int, t: int|
                    0 <= j < i && 0 <= t < ev.len() && links(
                        #[trigger] ev[t],
                        #[trigger] views(order@)[j],
                        ev[t].dependency,
                    ) ==> views(order@).contains(ev[t].dependency),
                forall|u: int|
                    0 <= u < t && links(#[trigger] ev[u], views(order@)[i as int], ev[u].dependency)
                        ==> views(order@).contains(ev[u].dependency),
            decreases edges.len() - t,
        {
            let e = &edges[t];
            assert(ev[t as int] == e@);
            if e.kind == RelationKind::Depends && e.package == order[i] && !contains_name(
                &order,
                &e.dependency,
            ) {
                let ghost before = order@;
                let name = e.dependency.clone();
                order.push(name);
                proof {
                    lemma_views_push(before, name);
                    src = src.push(sv.len() + t);
                    let ov = views(order@);
                    let bv = views(before);
                    assert(ov == bv.push(name@));
                    assert forall|x: Seq<char>| bv.contains(x) implies ov.contains(x) by {
                        let k = choose|k: int| 0 <= k < bv.len() && bv[k] == x;
                        assert(ov[k] == x);
                    }
                    assert(ov[bv.len() as int] == name@);
                    assert(links(ev[t as int], ov[i as int], name@));
                    assert(depends_on(ev, ov[i as int], ov[bv.len() as int]));
                    assert forall|k: int| 0 <= k < ov.len() implies sv.contains(#[trigger] ov[k])
                        || exists|j: int| 0 <= j < k && depends_on(ev, ov[j], ov[k]) by {
                        if k < bv.len() {
                            assert(ov[k] == bv[k]);
                            if !sv.contains(bv[k]) {
                                let j = choose|j: int| 0 <= j < k && depends_on(ev, bv[j], bv[k]);
                                assert(ov[j] == bv[j]);
                            }
                        }
                    }
                    assert forall|j: int, u: int|
                        0 <= j < i && 0 <= u < ev.len() && links(
                            #[trigger] ev[u],
                            #[trigger] ov[j],
                            ev[u].dependency,
                        ) implies ov.contains(ev[u].dependency) by {
                        assert(ov[j] == bv[j]);
                    }
                    assert forall|u: int|
                        0 <= u < t + 1 && links(#[trigger] ev[u], ov[i as int], ev[u].dependency)
                        implies ov.contains(ev[u].dependency) by {
                        assert(ov[i as int] == bv[i as int]);
                    }
                }
            } else {
                proof {
                    let ov = views(order@);
                    if links(ev[t as int], ov[i as int], ev[t as int].dependency) {
                        assert(ov.contains(e.dependency@));
                    }
                }
            }
            t = t + 1;
        }
        i = i + 1;
    }
    proof {
        let ov = views(order@);
        assert forall|p: Seq<char>, d: Seq<char>|
            ov.contains(p) && #[trigger] depends_on(ev, p, d) implies ov.contains(d) by {
            let j = choose|j: int| 0 <= j < ov.len() && ov[j] == p;
            let t = choose|t: int| 0 <= t < ev.len() && links(#[trigger] ev[t], p, d);
            assert(links(ev[t], ov[j], ev[t].dependency));
        }
        assert forall|x: Seq<char>| ov.contains(x) <==> reached_from(ev, sv, x) by {
            if ov.contains(x) {
                let k = choose|k: int| 0 <= k < ov.len() && ov[k] == x;
                lemma_discovered_is_reached(ev, sv, ov, k);
            }
            if reached_from(ev, sv, x) {
                let (k, n) = choose|k: int, n: nat|
                    0 <= k < sv.len() && #[trigger] reaches_in(ev, sv[k], x, n);
                lemma_closed_holds_reached(ev, ov, sv[k], x, n);
            }
        }
    }
    order
}

/// The packages that depend on `target` directly, one for each such edge.
pub open spec fn dependants(edges: Seq<DepEdgeView>, target: Seq<char>) -> Seq<Seq<char>>
    decreases edges.len(),
{
    if edges.len() == 0 {
        Seq::empty()
    } else {
        let rest = dependants(edges.drop_last(), target);
        let e = edges.last();
        if e.kind == RelationKind::Depends && e.dependency == target {
            rest.push(e.package)
        } else {
            rest
        }
    }
}

/// The direct dependencies of a package are the names it depends on.
pub proof fn lemma_direct_dependencies(edges: Seq<DepEdgeView>, package: Seq<char>, d: Seq<char>)
    ensures
        direct_dependencies(edges, package).contains(d) <==> depends_on(edges, package, d),
    decreases edges.len(),
{
    if edges.len() > 0 {
        let front = edges.drop_last();
        let e = edges.last();
        let rest = direct_dependencies(front, package);
        lemma_direct_dependencies(front, package, d);
        if depends_on(edges, package, d) {
            let i = choose|i: int| 0 <= i < edges.len() && links(#[trigger] edges[i], package, d);
            if i < front.len() {
                assert(links(front[i], package, d));
                let k = choose|k: int| 0 <= k < rest.len() && rest[k] == d;
                assert(direct_dependencies(edges, package)[k] == d);
            } else {
                assert(rest.push(d)[rest.len() as int] == d);
            }
        }
        if direct_dependencies(edges, package).contains(d) {
            let k = choose|k: int|
                0 <= k < direct_dependencies(edges, package).len() && direct_dependencies(
                    edges,
                    package,
                )[k] == d;
            if k < rest.len() {
                assert(rest[k] == d);
                let i = choose|i: int| 0 <= i < front.len() && links(#[trigger] front[i], package, d);
                assert(links(edges[i], package, d));
            } else {
                assert(links(edges[edges.len() - 1], package, d));
            }
        }
    }
}

/// A package is among the dependants of a name exactly if it depends on it.
pub proof fn lemma_dependants(edges: Seq<DepEdgeView>, target: Seq<char>, p: Seq<char>)
    ensures
        dependants(edges, target).contains(p) <==> depends_on(edges, p, target),
    decreases edges.len(),
{
    if edges.len() > 0 {
        let front = edges.drop_last();
        let e = edges.last();
        let rest = dependants(front, target);
        lemma_dependants(front, target, p);
        if depends_on(edges, p, target) {
            let i = choose|i: int| 0 <= i < edges.len() && links(#[trigger] edges[i], p, target);
            if i < front.len() {
                assert(links(front[i], p, target));
                let k = choose|k: int| 0 <= k < rest.len() && rest[k] == p;
                assert(dependants(edges, target)[k] == p);
            } else {
                assert(rest.push(p)[rest.len() as int] == p);
            }
        }
        if dependants(edges, target).contains(p) {
            let k = choose|k: int|
                0 <= k < dependants(edges, target).len() && dependants(edges, target)[k] == p;
            if k < rest.len() {
                assert(rest[k] == p);
                let i = choose|i: int| 0 <= i < front.len() && links(#[trigger] front[i], p, target);
                assert(links(edges[i], p, target));
            } else {
                assert(links(edges[edges.len() - 1], p, target));
            }
        }
    }
}

/// The names that `package` depends on directly, in the order of its edges.
pub fn direct_dependency_names(edges: &Vec<DepEdge>, package: &String) -> (names: Vec<String>)
    ensures
        views(names@) == direct_dependencies(views(edges@), package@),
{
    let mut names: Vec<String> = Vec::new();
    let mut t: usize = 0;
    assert(views(edges@).take(0) =~= Seq::empty());
    assert(views(names@) =~= Seq::empty());
    while t < edges.len()
        invariant
            t <= edges.len(),
            views(names@) == direct_dependencies(views(edges@).take(t as int), package@),
        decreases edges.len() - t,
    {
        let e = &edges[t];
        proof {
            let ev = views(edges@);
            assert(ev.take(t + 1).drop_last() =~= ev.take(t as int));
            assert(ev.take(t + 1).last() == e@);
        }
        if e.kind == RelationKind::Depends && e.package == *package {
            let ghost before = names@;
            let name = e.dependency.clone();
            names.push(name);
            proof {
                lemma_views_push(before, name);
            }
        }
        t = t + 1;
    }
    assert(views(edges@).take(edges.len() as int) =~= views(edges@));
    names
}

/// The packages with a depends-edge to `target`, in the order of these
/// edges: who still needs `target`.
pub fn reverse_depends(edges: &Vec<DepEdge>, target: &String) -> (names: Vec<String>)
    ensures
        views(names@) == dependants(views(edges@), target@),
{
    let mut names: Vec<String> = Vec::new();
    let mut t: usize = 0;
    assert(views(edges@).take(0) =~= Seq::empty());
    assert(views(names@) =~= Seq::empty());
    while t < edges.len()
        invariant
            t <= edges.len(),
            views(names@) == dependants(views(edges@).take(t as int), target@),
        decreases edges.len() - t,
    {
        let e = &edges[t];
        proof {
            let ev = views(edges@);
            assert(ev.take(t + 1).drop_last() =~= ev.take(t as int));
            assert(ev.take(t + 1).last() == e@);
        }
        if e.kind == RelationKind::Depends && e.dependency == *target {
            let ghost before = names@;
            let name = e.package.clone();
            names.push(name);
            proof {
                lemma_views_push(before, name);
            }
        }
        t = t + 1;
    }
    assert(views(edges@).take(edges.len() as int) =~= views(edges@));
    names
}

/// Every name is a direct dependency of `root` or a dependency of a name
/// that stands before it.
pub open spec fn discovered_below(edges: Seq<DepEdgeView>, root: Seq<char>, order: Seq<Seq<char>>) -> bool {
    forall|k: int|
        0 <= k < order.len() ==> depends_on(edges, root, #[trigger] order[k]) || exists|j: int|
            0 <= j < k && depends_on(edges, order[j], order[k])
}

/// What the direct dependencies of `root` reach is what `root` reaches.
pub proof fn lemma_reached_from_direct(edges: Seq<DepEdgeView>, root: Seq<char>, x: Seq<char>)
    ensures
        reached_from(edges, direct_dependencies(edges, root), x) <==> reaches(edges, root, x),
{
    let seeds = direct_dependencies(edges, root);
    if reached_from(edges, seeds, x) {
        let (k, n) = choose|k: int, n: nat|
            0 <= k < seeds.len() && #[trigger] reaches_in(edges, seeds[k], x, n);
        assert(seeds.contains(seeds[k]));
        lemma_direct_dependencies(edges, root, seeds[k]);
        assert(depends_on(edges, root, seeds[k]));
        assert(reaches_in(edges, root, x, n + 1));
    }
    if reaches(edges, root, x) {
        let n = choose|n: nat| n >= 1 && #[trigger] reaches_in(edges, root, x, n);
        let mid = choose|mid: Seq<char>|
            #[trigger] depends_on(edges, root, mid) && reaches_in(edges, mid, x, (n - 1) as nat);
        lemma_direct_dependencies(edges, root, mid);
        let k = choose|k: int| 0 <= k < seeds.len() && seeds[k] == mid;
        assert(reaches_in(edges, seeds[k], x, (n - 1) as nat));
    }
}

/// Everything `root` depends on, directly or through other packages, `root`
/// itself left out: each name once, a direct dependency of `root` or behind
/// a package that depends on it.
pub fn transitive_depends(edges: &Vec<DepEdge>, root: &String) -> (order: Vec<String>)
    ensures
        views(order@).no_duplicates(),
        forall|x: Seq<char>|
            views(order@).contains(x) <==> x != root@ && reaches(views(edges@), root@, x),
        discovered_below(views(edges@), root@, views(order@)),
{
    let seeds = direct_dependency_names(edges, root);
    let closure = dependency_closure(edges, &seeds);
    let ghost ev = views(edges@);
    let ghost cv = views(closure@);
    let ghost sv = views(seeds@);
    let mut order: Vec<String> = Vec::new();
    let mut k: usize = 0;
    while k < closure.len()
        invariant
            k <= closure.len(),
            ev == views(edges@),
            cv == views(closure@),
            sv == direct_dependencies(ev, root@),
            cv.no_duplicates(),
            discovered_from(ev, sv, cv),
            views(order@).no_duplicates(),
            forall|x: Seq<char>|
                views(order@).contains(x) <==> x != root@ && exists|j: int|
                    0 <= j < k && cv[j] == x,
            discovered_below(ev, root@, views(order@)),
        decreases closure.len() - k,
    {
        if closure[k] != *root {
            let ghost before = order@;
            let name = closure[k].clone();
            order.push(name);
            proof {
                lemma_views_push(before, name);
                let ov = views(order@);
                let bv = views(before);
                let m = bv.len() as int;
                assert(ov[m] == cv[k as int]);
                assert forall|x: Seq<char>| bv.contains(x) implies ov.contains(x) by {
                    let i = choose|i: int| 0 <= i < bv.len() && bv[i] == x;
                    assert(ov[i] == x);
                }
                assert forall|x: Seq<char>|
                    ov.contains(x) <==> x != root@ && exists|j: int|
                        0 <= j < k + 1 && cv[j] == x by {
                    if ov.contains(x) {
                        let i = choose|i: int| 0 <= i < ov.len() && ov[i] == x;
                        if i < m {
                            assert(bv[i] == x);
                            assert(bv.contains(x));
                        }
                    }
                    if x != root@ && exists|j: int| 0 <= j < k + 1 && cv[j] == x {
                        let j = choose|j: int| 0 <= j < k + 1 && cv[j] == x;
                        if j < k {
                            assert(bv.contains(x));
                        }
                    }
                }
                assert(ov.no_duplicates()) by {
                    assert forall|a: int, b: int|
                        0 <= a < ov.len() && 0 <= b < ov.len() && a != b implies ov[a] != ov[b] by {
                        if a < m && b < m {
                            assert(bv[a] != bv[b]);
                        } else {
                            let low = if a < m { a } else { b };
                            assert(bv.contains(bv[low]));
                            let j = choose|j: int| 0 <= j < k && cv[j] == bv[low];
                            assert(cv[j] != cv[k as int]);
                        }
                    }
                }
                assert forall|i: int| 0 <= i < ov.len() implies depends_on(
                    ev,
                    root@,
                    #[trigger] ov[i],
                ) || exists|j: int| 0 <= j < i && depends_on(ev, ov[j], ov[i]) by {
                    if i < m {
                        assert(ov[i] == bv[i]);
                        if !depends_on(ev, root@, bv[i]) {
                            let j = choose|j: int| 0 <= j < i && depends_on(ev, bv[j], bv[i]);
                            assert(ov[j] == bv[j]);
                        }
                    } else {
                        let x = cv[k as int];
                        if sv.contains(x) {
                            lemma_direct_dependencies(ev, root@, x);
                        } else {
                            let j = choose|j: int| 0 <= j < k && depends_on(ev, cv[j], cv[k as int]);
                            if cv[j] != root@ {
                                assert(bv.contains(cv[j]));
                                let a = choose|a: int| 0 <= a < bv.len() && bv[a] == cv[j];
                                assert(ov[a] == cv[j]);
                            }
                        }
                    }
                }
            }
        }
        k = k + 1;
    }
    proof {
        let ov = views(order@);
        assert forall|x: Seq<char>| ov.contains(x) <==> x != root@ && reaches(ev, root@, x) by {
            lemma_reached_from_direct(ev, root@, x);
            if exists|j: int| 0 <= j < cv.len() && cv[j] == x {
                assert(cv.contains(x));
            }
            if cv.contains(x) {
                let j = choose|j: int| 0 <= j < cv.len() && cv[j] == x;
            }
        }
    }
    order
}

/// A status row says that `name` was installed only as a dependency.
pub open spec fn auto_installed(status: Seq<StatusRowView>, name: Seq<char>) -> bool {
    exists|i: int|
        0 <= i < status.len() && (#[trigger] status[i]).package == name && status[i].auto_installed
}

/// `name` can be given up after at most `n` rounds: it was installed as a
/// dependency, and every package that depends on it can be given up in
/// fewer rounds.
pub open spec fn removable_in(
    status: Seq<StatusRowView>,
    edges: Seq<DepEdgeView>,
    name: Seq<char>,
    n: nat,
) -> bool
    decreases n,
{
    &&& n > 0
    &&& auto_installed(status, name)
    &&& forall|d: Seq<char>| #[trigger]
        depends_on(edges, d, name) ==> removable_in(status, edges, d, (n - 1) as nat)
}

/// `name` is garbage: nothing that is kept needs it.
pub open spec fn removable(status: Seq<StatusRowView>, edges: Seq<DepEdgeView>, name: Seq<char>) -> bool {
    exists|n: nat| #[trigger] removable_in(status, edges, name, n)
}

/// Every name was installed as a dependency, and whatever depends on it
/// stands before it.
pub open spec fn dependants_first(
    status: Seq<StatusRowView>,
    edges: Seq<DepEdgeView>,
    order: Seq<Seq<char>>,
) -> bool {
    forall|k: int|
        0 <= k < order.len() ==> auto_installed(status, #[trigger] order[k]) && forall|d: Seq<char>|
         #[trigger]
            depends_on(edges, d, order[k]) ==> exists|j: int| 0 <= j < k && order[j] == d
}

/// No automatic package outside `order` has all its dependants in `order`.
pub open spec fn saturated(
    status: Seq<StatusRowView>,
    edges: Seq<DepEdgeView>,
    order: Seq<Seq<char>>,
    upto: int,
) -> bool {
    forall|u: int|
        0 <= u < upto && (#[trigger] status[u]).auto_installed && !order.contains(status[u].package)
            ==> exists|t: int|
            0 <= t < edges.len() && links(#[trigger] edges[t], edges[t].package, status[u].package)
                && !order.contains(edges[t].package)
}

/// More rounds do no harm.
pub proof fn lemma_removable_monotone(
    status: Seq<StatusRowView>,
    edges: Seq<DepEdgeView>,
    name: Seq<char>,
    n: nat,
    m: nat,
)
    requires
        removable_in(status, edges, name, n),
        n <= m,
    ensures
        removable_in(status, edges, name, m),
    decreases n,
{
    assert forall|d: Seq<char>| #[trigger] depends_on(edges, d, name) implies removable_in(
        status,
        edges,
        d,
        (m - 1) as nat,
    ) by {
        lemma_removable_monotone(status, edges, d, (n - 1) as nat, (m - 1) as nat);
    }
}

/// A name whose dependants stand before it is removable.
pub proof fn lemma_ordered_is_removable(
    status: Seq<StatusRowView>,
    edges: Seq<DepEdgeView>,
    order: Seq<Seq<char>>,
    k: int,
)
    requires
        dependants_first(status, edges, order),
        0 <= k < order.len(),
    ensures
        removable_in(status, edges, order[k], (k + 1) as nat),
    decreases k,
{
    assert forall|d: Seq<char>| #[trigger] depends_on(edges, d, order[k]) implies removable_in(
        status,
        edges,
        d,
        k as nat,
    ) by {
        let j = choose|j: int| 0 <= j < k && order[j] == d;
        lemma_ordered_is_removable(status, edges, order, j);
        lemma_removable_monotone(status, edges, d, (j + 1) as nat, k as nat);
    }
}

/// A saturated list holds every removable name.
pub proof fn lemma_saturated_holds_removable(
    status: Seq<StatusRowView>,
    edges: Seq<DepEdgeView>,
    order: Seq<Seq<char>>,
    name: Seq<char>,
    n: nat,
)
    requires
        saturated(status, edges, order, status.len() as int),
        removable_in(status, edges, name, n),
    ensures
        order.contains(name),
    decreases n,
{
    if !order.contains(name) {
        let u = choose|u: int|
            0 <= u < status.len() && (#[trigger] status[u]).package == name
                && status[u].auto_installed;
        let t = choose|t: int|
            0 <= t < edges.len() && links(#[trigger] edges[t], edges[t].package, status[u].package)
                && !order.contains(edges[t].package);
        assert(depends_on(edges, edges[t].package, name));
        lemma_saturated_holds_removable(status, edges, order, edges[t].package, (n - 1) as nat);
    }
}

/// Whether every package that depends on `name` is among `names`.
pub fn dependants_among(edges: &Vec<DepEdge>, name: &String, names: &Vec<String>) -> (all: bool)
    ensures
        all == forall|t: int|
            0 <= t < edges.len() && links(
                #[trigger] views(edges@)[t],
                views(edges@)[t].package,
                name@,
            ) ==> views(names@).contains(views(edges@)[t].package),
{
    let ghost ev = views(edges@);
    let mut t: usize = 0;
    while t < edges.len()
        invariant
            t <= edges.len(),
            ev == views(edges@),
            forall|u: int|
                0 <= u < t && links(#[trigger] ev[u], ev[u].package, name@) ==> views(
                    names@,
                ).contains(ev[u].package),
        decreases edges.len() - t,
    {
        let e = &edges[t];
        assert(ev[t as int] == e@);
        if e.kind == RelationKind::Depends && e.dependency == *name && !contains_name(
            names,
            &e.package,
        ) {
            return false;
        }
        t = t + 1;
    }
    true
}

/// The packages that nothing needs any more: those installed as a
/// dependency whose dependants, if any, are all in this list too. Each name
/// stands once, behind every package that depends on it.
pub fn removable_closure(status: &Vec<StatusRow>, edges: &Vec<DepEdge>) -> (order: Vec<String>)
    ensures
        views(order@).no_duplicates(),
        forall|x: Seq<char>|
            views(order@).contains(x) <==> removable(views(status@), views(edges@), x),
        dependants_first(views(status@), views(edges@), views(order@)),
{
    let ghost sv = views(status@);
    let ghost ev = views(edges@);
    let mut order: Vec<String> = Vec::new();
    let ghost mut src: Seq<int> = Seq::empty();
    loop
        invariant_except_break
            src.len() == order.len(),
        invariant
            sv == views(status@),
            ev == views(edges@),
            views(order@).no_duplicates(),
            dependants_first(sv, ev, views(order@)),
            src.len() == order.len() ==> forall|k: int|
                0 <= k < src.len() ==> 0 <= #[trigger] src[k] < sv.len() && sv[src[k]].package
                    == views(order@)[k],
        ensures
            saturated(sv, ev, views(order@), sv.len() as int),
        decreases status.len() - order.len(),
    {
        let before: usize = order.len();
        let mut s: usize = 0;
        while s < status.len()
            invariant
                s <= status.len(),
                before <= order.len(),
                sv == views(status@),
                ev == views(edges@),
                views(order@).no_duplicates(),
                dependants_first(sv, ev, views(order@)),
                src.len() == order.len(),
                forall|k: int|
                    0 <= k < src.len() ==> 0 <= #[trigger] src[k] < sv.len() && sv[src[k]].package
                        == views(order@)[k],
                order.len() == before ==> saturated(sv, ev, views(order@), s as int),
            decreases status.len() - s,
        {
            let row = &status[s];
            assert(sv[s as int] == row@);
            if row.auto_installed && !contains_name(&order, &row.package) && dependants_among(
                edges,
                &row.package,
                &order,
            ) {
                let ghost prior = order@;
                let name = row.package.clone();
                order.push(name);
                proof {
                    lemma_views_push(prior, name);
                    src = src.push(s as int);
                    let ov = views(order@);
                    let bv = views(prior);
                    let m = bv.len() as int;
                    assert(ov[m] == name@);
                    assert forall|k: int| 0 <= k < ov.len() implies auto_installed(
                        sv,
                        #[trigger] ov[k],
                    ) && forall|d: Seq<char>| #[trigger]
                        depends_on(ev, d, ov[k]) ==> exists|j: int| 0 <= j < k && ov[j] == d by {
                        if k < m {
                            assert(ov[k] == bv[k]);
                            assert forall|d: Seq<char>| #[trigger]
                                depends_on(ev, d, ov[k]) implies exists|j: int|
                                0 <= j < k && ov[j] == d by {
                                let j = choose|j: int| 0 <= j < k && bv[j] == d;
                                assert(ov[j] == d);
                            }
                        } else {
                            assert forall|d: Seq<char>| #[trigger]
                                depends_on(ev, d, ov[k]) implies exists|j: int|
                                0 <= j < k && ov[j] == d by {
                                let t = choose|t: int|
                                    0 <= t < ev.len() && links(#[trigger] ev[t], d, name@);
                                assert(links(ev[t], ev[t].package, name@));
                                assert(bv.contains(d));
                                let j = choose|j: int| 0 <= j < bv.len() && bv[j] == d;
                                assert(ov[j] == d);
                            }
                        }
                    }
                }
            } else {
                proof {
                    let ov = views(order@);
                    if order.len() == before {
                        assert forall|u: int|
                            0 <= u < s + 1 && (#[trigger] sv[u]).auto_installed && !ov.contains(
                                sv[u].package,
                            ) implies exists|t: int|
                            0 <= t < ev.len() && links(#[trigger] ev[t], ev[t].package, sv[u].package)
                                && !ov.contains(ev[t].package) by {
                        }
                    }
                }
            }
            s = s + 1;
        }
        if order.len() == before {
            break ;
        }
        proof {
            let ov = views(order@);
            assert forall|i: int, j: int|
                0 <= i < src.len() && 0 <= j < src.len() && i != j implies src[i] != src[j] by {
                if src[i] == src[j] {
                    assert(ov[i] == sv[src[i]].package);
                    assert(ov[j] == sv[src[j]].package);
                }
            }
            lemma_distinct_indices_bounded(src, sv.len() as int);
        }
    }
    proof {
        let ov = views(order@);
        assert forall|x: Seq<char>| ov.contains(x) <==> removable(sv, ev, x) by {
            if ov.contains(x) {
                let k = choose|k: int| 0 <= k < ov.len() && ov[k] == x;
                lemma_ordered_is_removable(sv, ev, ov, k);
            }
            if removable(sv, ev, x) {
                let n = choose|n: nat| #[trigger] removable_in(sv, ev, x, n);
                lemma_saturated_holds_removable(sv, ev, ov, x, n);
            }
        }
    }
    order
}

} // verus!
