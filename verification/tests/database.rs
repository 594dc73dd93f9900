use pack::autoremove::autoremove;
use pack::model::{PackError, RelationKind, TableRole};
use pack::populate::{populate_db, populate_db_auto_installed, setup_db};
use pack::purge::{purge, PurgePlan};
use pack::store::PackageStore;

const FOO: &str = "Package: foo
Status: install ok installed
Priority: optional
Section: utils
Version: 1.0-1
Maintainer: Jane Doe <jane@example.org>
Architecture: all
Depends: bar (>= 1.2), baz | qux
Suggests: quux
Conffiles:
 /etc/foo.conf 0123456789abcdef0123456789abcdef
Description: a thing
MD5sum: 0123456789abcdef0123456789abcdef
";

const BAR: &str = "Package: bar
Version: 2
Maintainer: Nobody
";

fn two() -> String {
    format!("{}\n{}", FOO, BAR)
}

fn file(store: &mut PackageStore, package: &str, path: &str) {
    store.files.push(pack::model::InstalledFile {
        package: package.to_string(),
        file: path.to_string(),
    });
}

fn names(store: &PackageStore) -> Vec<String> {
    store.installed.status.iter().map(|r| r.package.clone()).collect()
}

fn installed(text: &str) -> PackageStore {
    let mut store = PackageStore::init();
    assert_eq!(populate_db(&mut store, text, TableRole::Installed), Ok(()));
    store
}

fn chain() -> PackageStore {
    let mut store = installed(
        "Package: A\nVersion: 1\nMaintainer: m\nDepends: B\n\n\
         Package: B\nVersion: 1\nMaintainer: m\nDepends: C\n\n\
         Package: C\nVersion: 1\nMaintainer: m\n\n\
         Package: M\nVersion: 1\nMaintainer: m\n",
    );
    let marks = "Package: A\nAuto-Installed: 1\n\nPackage: B\nAuto-Installed: 1\n\n\
                 Package: C\nAuto-Installed: 1\n";
    assert_eq!(populate_db_auto_installed(&mut store, marks), Ok(()));
    store
}

#[test]
fn fresh_database_is_empty() {
    let store = PackageStore::init();
    assert!(store.installed.status.is_empty());
    assert!(store.available.dependencies.is_empty());
    assert!(store.staging.is_none());
    assert!(store.files.is_empty());
}

#[test]
fn setup_makes_the_staging_tables_once() {
    let mut store = installed(BAR);
    setup_db(&mut store, TableRole::Installed);
    setup_db(&mut store, TableRole::Available);
    assert!(store.staging.is_none());
    setup_db(&mut store, TableRole::Staging);
    assert!(store.staging.as_ref().expect("staging tables").status.is_empty());
    assert_eq!(populate_db(&mut store, FOO, TableRole::Staging), Ok(()));
    setup_db(&mut store, TableRole::Staging);
    assert_eq!(store.staging.as_ref().expect("staging tables").status.len(), 1);
    assert_eq!(names(&store), vec!["bar".to_string()]);
}

#[test]
fn paragraph_gives_a_status_row() {
    let store = installed(FOO);
    assert_eq!(store.installed.status.len(), 1);
    let row = &store.installed.status[0];
    assert_eq!(row.package, "foo");
    assert_eq!(row.status.as_deref(), Some("install ok installed"));
    assert_eq!(row.priority, Some(3));
    assert_eq!(row.section.as_deref(), Some("utils"));
    assert_eq!(row.source, None);
    assert_eq!(row.version, "1.0-1");
    assert_eq!(row.maintainer_name.as_deref(), Some("Jane Doe "));
    assert_eq!(row.maintainer_mail.as_deref(), Some("jane@example.org"));
    assert_eq!(row.architecture.as_deref(), Some("all"));
    assert_eq!(row.description.as_deref(), Some("a thing"));
    assert!(!row.auto_installed);
    assert_eq!(row.prerm, None);
    assert_eq!(row.md5.as_deref(), Some("0123456789abcdef0123456789abcdef"));
    assert_eq!(row.sha256, None);
}

#[test]
fn paragraph_gives_its_edges_and_conffiles() {
    let store = installed(FOO);
    let edges: Vec<(RelationKind, &str, Option<&str>)> = store
        .installed
        .dependencies
        .iter()
        .map(|e| (e.kind, e.dependency.as_str(), e.version.as_deref()))
        .collect();
    assert_eq!(
        edges,
        vec![
            (RelationKind::Depends, "bar", Some(">= 1.2")),
            (RelationKind::Depends, "baz", None),
            (RelationKind::Depends, "qux", None),
            (RelationKind::Suggests, "quux", None),
        ]
    );
    assert_eq!(store.installed.conffiles.len(), 1);
    assert_eq!(store.installed.conffiles[0].package, "foo");
    assert_eq!(store.installed.conffiles[0].path, "/etc/foo.conf");
    assert_eq!(store.installed.conffiles[0].hash, "0123456789abcdef0123456789abcdef");
}

#[test]
fn later_paragraph_replaces_the_row_of_its_package() {
    let mut store = installed(&two());
    assert_eq!(names(&store), vec!["foo".to_string(), "bar".to_string()]);
    let newer = "Package: foo\nVersion: 2.0\nMaintainer: Other\n";
    assert_eq!(populate_db(&mut store, newer, TableRole::Installed), Ok(()));
    assert_eq!(names(&store), vec!["bar".to_string(), "foo".to_string()]);
    assert_eq!(store.installed.status[1].version, "2.0");
    assert_eq!(store.installed.dependencies.len(), 4);
}

#[test]
fn tables_of_one_role_are_filled_only() {
    let mut store = PackageStore::init();
    assert_eq!(populate_db(&mut store, BAR, TableRole::Available), Ok(()));
    assert!(store.installed.status.is_empty());
    assert_eq!(store.available.status.len(), 1);
    assert!(store.staging.is_none());
}

#[test]
fn text_that_is_no_control_file_is_a_parse_error() {
    let mut store = installed(BAR);
    assert_eq!(populate_db(&mut store, "nonsense\n", TableRole::Installed), Err(PackError::Parse));
    assert_eq!(names(&store), vec!["bar".to_string()]);
}

#[test]
fn paragraph_without_maintainer_or_package_is_a_parse_error() {
    let mut store = installed(BAR);
    let text = format!("{}\nPackage: x\nVersion: 1\n", FOO);
    assert_eq!(populate_db(&mut store, &text, TableRole::Installed), Err(PackError::Parse));
    assert_eq!(names(&store), vec!["bar".to_string()]);
    assert!(store.installed.dependencies.is_empty());
    let text = "Version: 1\nMaintainer: m\n";
    assert_eq!(populate_db(&mut store, text, TableRole::Installed), Err(PackError::Parse));
}

#[test]
fn paragraph_that_the_tables_refuse_is_a_store_error() {
    let mut store = installed(BAR);
    let text = "Package: x\nMaintainer: m\n";
    assert_eq!(populate_db(&mut store, text, TableRole::Installed), Err(PackError::Store));
    let text = "Package: x\nVersion: 1\nMaintainer: m\nMD5sum: abc\n";
    assert_eq!(populate_db(&mut store, text, TableRole::Installed), Err(PackError::Store));
    let text = "Package: x\nVersion: 1\nMaintainer: m\nSHA256: abc\n";
    assert_eq!(populate_db(&mut store, text, TableRole::Installed), Err(PackError::Store));
    assert_eq!(names(&store), vec!["bar".to_string()]);
}

#[test]
fn first_paragraph_that_fails_decides_the_error() {
    let mut store = PackageStore::init();
    let text = "Package: x\nMaintainer: m\n\nVersion: 1\n";
    assert_eq!(populate_db(&mut store, text, TableRole::Installed), Err(PackError::Store));
    let text = "Version: 1\n\nPackage: x\nMaintainer: m\n";
    assert_eq!(populate_db(&mut store, text, TableRole::Installed), Err(PackError::Parse));
}

#[test]
fn marks_are_taken_over() {
    let mut store = installed(&two());
    let marks = "Package: foo\nAuto-Installed: 1\n\nPackage: bar\nAuto-Installed: 0\n\n\
                 Package: unknown\nAuto-Installed: 1\n";
    assert_eq!(populate_db_auto_installed(&mut store, marks), Ok(()));
    assert!(store.installed.status[0].auto_installed);
    assert!(!store.installed.status[1].auto_installed);
    let marks = "Package: foo\n";
    assert_eq!(populate_db_auto_installed(&mut store, marks), Ok(()));
    assert!(!store.installed.status[0].auto_installed);
    assert_eq!(populate_db_auto_installed(&mut store, "::\n"), Err(PackError::Parse));
}

#[test]
fn purge_of_an_unknown_package_is_not_found() {
    let mut store = installed(&two());
    assert!(matches!(purge(&mut store, "nothing"), Err(PackError::NotFound)));
    assert_eq!(names(&store), vec!["foo".to_string(), "bar".to_string()]);
}

#[test]
fn purge_of_a_needed_package_only_marks_it() {
    let mut store = installed(&two());
    file(&mut store, "bar", "./usr/bin/bar");
    assert!(matches!(purge(&mut store, " bar\n"), Ok(PurgePlan::Soft)));
    assert_eq!(names(&store), vec!["foo".to_string(), "bar".to_string()]);
    assert!(store.installed.status[1].auto_installed);
    assert!(!store.installed.status[0].auto_installed);
    assert_eq!(store.files.len(), 1);
    assert_eq!(store.installed.dependencies.len(), 4);
}

#[test]
fn purge_of_a_free_package_deletes_its_rows() {
    let mut store = installed(&two());
    file(&mut store, "foo", "./usr/bin/foo");
    file(&mut store, "bar", "./usr/bin/bar");
    file(&mut store, "foo", "./etc/foo.conf");
    store.installed.status[0].prerm = Some("echo bye".to_string());
    store.installed.status[0].postrm = Some("".to_string());
    match purge(&mut store, "foo") {
        Ok(PurgePlan::Hard { prerm, files, postrm }) => {
            assert_eq!(prerm.as_deref(), Some("echo bye"));
            assert_eq!(postrm, None);
            assert_eq!(files, vec!["/usr/bin/foo".to_string(), "/etc/foo.conf".to_string()]);
        },
        other => panic!("not a removal for good: {:?}", other),
    }
    assert_eq!(names(&store), vec!["bar".to_string()]);
    assert!(store.installed.dependencies.is_empty());
    assert!(store.installed.conffiles.is_empty());
    assert_eq!(store.files.len(), 1);
    assert_eq!(store.files[0].package, "bar");
}

#[test]
fn purge_after_the_dependant_is_gone_is_for_good() {
    let mut store = installed(&two());
    assert!(matches!(purge(&mut store, "bar"), Ok(PurgePlan::Soft)));
    assert!(matches!(purge(&mut store, "foo"), Ok(PurgePlan::Hard { .. })));
    assert!(matches!(purge(&mut store, "bar"), Ok(PurgePlan::Hard { .. })));
    assert!(names(&store).is_empty());
}

#[test]
fn autoremove_purges_the_whole_chain() {
    let mut store = chain();
    file(&mut store, "B", "./usr/lib/b.so");
    let removed = autoremove(&mut store);
    let swept: Vec<&str> = removed.iter().map(|r| r.package.as_str()).collect();
    assert_eq!(swept, vec!["A", "B", "C"]);
    for r in &removed {
        assert!(matches!(r.plan, PurgePlan::Hard { .. }));
    }
    match &removed[1].plan {
        PurgePlan::Hard { files, .. } => assert_eq!(files, &vec!["/usr/lib/b.so".to_string()]),
        PurgePlan::Soft => unreachable!(),
    }
    assert_eq!(names(&store), vec!["M".to_string()]);
    assert!(store.installed.dependencies.is_empty());
    assert!(store.files.is_empty());
}

#[test]
fn autoremove_keeps_what_a_manual_package_needs() {
    let mut store = chain();
    let more = "Package: M\nVersion: 1\nMaintainer: m\nDepends: B\n";
    assert_eq!(populate_db(&mut store, more, TableRole::Installed), Ok(()));
    let removed = autoremove(&mut store);
    let swept: Vec<&str> = removed.iter().map(|r| r.package.as_str()).collect();
    assert_eq!(swept, vec!["A"]);
    assert_eq!(names(&store), vec!["B".to_string(), "C".to_string(), "M".to_string()]);
}

#[test]
fn second_sweep_finds_nothing() {
    let mut store = chain();
    assert_eq!(autoremove(&mut store).len(), 3);
    assert!(autoremove(&mut store).is_empty());
    assert_eq!(names(&store), vec!["M".to_string()]);
}

#[test]
fn two_rows_for_one_package_break_the_database() {
    let mut store = installed(&two());
    assert!(store.is_wf());
    let mut again = installed(BAR);
    store.installed.status.push(again.installed.status.remove(0));
    assert!(!store.is_wf());
    store.installed.status.pop();
    assert!(store.is_wf());
    store.installed.status[0].sha256 = Some("abc".to_string());
    assert!(!store.is_wf());
    store.installed.status[0].sha256 = None;
    store.available.status.push(again_row());
    store.available.status.push(again_row());
    assert!(!store.is_wf());
}

fn again_row() -> pack::model::StatusRow {
    installed(BAR).installed.status.remove(0)
}
