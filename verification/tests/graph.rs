use pack::graph::{
    dependency_closure, direct_dependency_names, removable_closure, reverse_depends,
    transitive_depends,
};
use pack::model::{DepEdge, RelationKind, StatusRow};

fn edge(package: &str, kind: RelationKind, dependency: &str) -> DepEdge {
    DepEdge {
        package: package.to_string(),
        kind,
        dependency: dependency.to_string(),
        version: None,
    }
}

fn depends(package: &str, dependency: &str) -> DepEdge {
    edge(package, RelationKind::Depends, dependency)
}

fn row(package: &str, auto_installed: bool) -> StatusRow {
    StatusRow {
        package: package.to_string(),
        status: None,
        priority: None,
        section: None,
        source: None,
        version: "1".to_string(),
        maintainer_name: None,
        maintainer_mail: None,
        architecture: None,
        multi_arch: None,
        installed_size: None,
        description: None,
        homepage: None,
        auto_installed,
        filename: None,
        prerm: None,
        postrm: None,
        md5: None,
        sha256: None,
    }
}

fn sorted(mut names: Vec<String>) -> Vec<String> {
    names.sort();
    names
}

fn name(s: &str) -> String {
    s.to_string()
}

#[test]
fn closure_follows_depends_edges_only() {
    let edges = vec![
        depends("a", "b"),
        edge("a", RelationKind::Suggests, "x"),
        depends("b", "c"),
        edge("b", RelationKind::Recommends, "y"),
        depends("z", "w"),
    ];
    assert_eq!(transitive_depends(&edges, &name("a")), vec![name("b"), name("c")]);
    assert_eq!(transitive_depends(&edges, &name("b")), vec![name("c")]);
    assert_eq!(transitive_depends(&edges, &name("c")), Vec::<String>::new());
}

#[test]
fn closure_leaves_the_root_out_of_a_cycle() {
    let edges = vec![depends("a", "b"), depends("b", "a"), depends("b", "c")];
    assert_eq!(sorted(transitive_depends(&edges, &name("a"))), vec![name("b"), name("c")]);
    assert_eq!(sorted(transitive_depends(&edges, &name("b"))), vec![name("a"), name("c")]);
}

#[test]
fn closure_holds_each_name_once() {
    let edges = vec![
        depends("a", "b"),
        depends("a", "c"),
        depends("b", "d"),
        depends("c", "d"),
        depends("a", "b"),
    ];
    assert_eq!(transitive_depends(&edges, &name("a")), vec![name("b"), name("c"), name("d")]);
}

#[test]
fn closure_of_seeds_holds_the_seeds() {
    let edges = vec![depends("b", "c")];
    let seeds = vec![name("b"), name("q"), name("b")];
    assert_eq!(dependency_closure(&edges, &seeds), vec![name("b"), name("q"), name("c")]);
}

#[test]
fn direct_dependencies_are_listed_edge_by_edge() {
    let edges = vec![depends("a", "b"), depends("c", "d"), depends("a", "b"), depends("a", "e")];
    assert_eq!(direct_dependency_names(&edges, &name("a")), vec![name("b"), name("b"), name("e")]);
}

#[test]
fn reverse_depends_lists_who_needs_a_package() {
    let edges = vec![
        depends("a", "c"),
        edge("x", RelationKind::Suggests, "c"),
        depends("b", "c"),
        depends("b", "d"),
    ];
    assert_eq!(reverse_depends(&edges, &name("c")), vec![name("a"), name("b")]);
    assert_eq!(reverse_depends(&edges, &name("a")), Vec::<String>::new());
}

#[test]
fn chain_of_automatic_packages_is_removable() {
    let status = vec![row("C", true), row("B", true), row("A", true), row("M", false)];
    let edges = vec![depends("A", "B"), depends("B", "C")];
    assert_eq!(removable_closure(&status, &edges), vec![name("A"), name("B"), name("C")]);
}

#[test]
fn manual_dependant_keeps_its_dependencies() {
    let status = vec![row("C", true), row("B", true), row("A", true), row("M", false)];
    let edges = vec![depends("A", "B"), depends("B", "C"), depends("M", "B")];
    assert_eq!(removable_closure(&status, &edges), vec![name("A")]);
}

#[test]
fn package_needed_by_something_unknown_is_kept() {
    let status = vec![row("B", true)];
    let edges = vec![depends("ghost", "B")];
    assert_eq!(removable_closure(&status, &edges), Vec::<String>::new());
}

#[test]
fn packages_that_only_need_each_other_are_kept() {
    let status = vec![row("A", true), row("B", true)];
    let edges = vec![depends("A", "B"), depends("B", "A")];
    assert_eq!(removable_closure(&status, &edges), Vec::<String>::new());
}

#[test]
fn other_relations_do_not_keep_a_package() {
    let status = vec![row("B", true), row("M", false)];
    let edges = vec![edge("M", RelationKind::Recommends, "B")];
    assert_eq!(removable_closure(&status, &edges), vec![name("B")]);
}

#[test]
fn manual_packages_are_never_removable() {
    let status = vec![row("M", false), row("N", false)];
    let edges = vec![depends("M", "N")];
    assert_eq!(removable_closure(&status, &edges), Vec::<String>::new());
}
