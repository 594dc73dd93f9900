use pack::archive::{plan_files, ArchiveEntry, ArchiveInfo, FileStep};
use pack::extract::debian_binary;
use pack::install::{acquire, commit, resolve_deps, stage, Source};
use pack::job::{install, Action, Event, InstallJob, Outcome, Stage};
use pack::model::{PackError, TableRole};
use pack::populate::populate_db;
use pack::purge::{purge, PurgePlan};
use pack::store::PackageStore;
use pack::update::{index_url, update};
use std::io::Write;

const MIRROR: &str = "http://debian.mirror.lrz.de/debian/";

const ABC: &str = "ba7816bf8f01cfea414140de5dae2223b00361a396177a9cb410ff61f20015ad";

fn offers() -> String {
    format!(
        "Package: foo\nVersion: 1\nMaintainer: m\nDepends: bar\n\
         Filename: pool/main/f/foo/foo_1_all.deb\nSHA256: {0}\n\n\
         Package: bar\nVersion: 2\nMaintainer: m\n\
         Filename: pool/main/b/bar/bar_2_all.deb\nSHA256: {0}\n\n\
         Package: nofile\nVersion: 1\nMaintainer: m\nSHA256: {0}\n\n\
         Package: nohash\nVersion: 1\nMaintainer: m\nFilename: pool/x.deb\n",
        ABC
    )
}

fn store_with_offers() -> PackageStore {
    let mut store = PackageStore::init();
    assert_eq!(populate_db(&mut store, &offers(), TableRole::Available), Ok(()));
    store
}

fn entry(path: &str, is_directory: bool) -> ArchiveEntry {
    ArchiveEntry { path: path.to_string(), is_directory }
}

fn archive(control: &str, entries: Vec<ArchiveEntry>) -> ArchiveInfo {
    ArchiveInfo {
        control: control.to_string(),
        has_preinst: false,
        has_postinst: true,
        prerm: "echo prerm".to_string(),
        postrm: "".to_string(),
        entries,
    }
}

fn foo_archive() -> ArchiveInfo {
    archive(
        "Package: foo\nVersion: 1\nMaintainer: m\nDepends: bar\n",
        vec![entry("./usr/", true), entry("./usr/bin/foo", false)],
    )
}

fn bar_archive() -> ArchiveInfo {
    archive("Package: bar\nVersion: 2\nMaintainer: m\n", vec![entry("./usr/bin/bar", false)])
}

fn names(store: &PackageStore) -> Vec<(String, bool)> {
    store.installed.status.iter().map(|r| (r.package.clone(), r.auto_installed)).collect()
}

fn run_to_files(store: &mut PackageStore, job: &mut InstallJob, info: ArchiveInfo) -> Action {
    match install(store, job, Event::Begin) {
        Action::Fetch { .. } => {},
        other => panic!("no fetch: {:?}", other),
    }
    assert!(matches!(install(store, job, Event::Fetched(b"abc".to_vec())), Action::OpenFetched));
    install(store, job, Event::Opened(info))
}

#[test]
fn index_lies_below_the_mirror() {
    assert_eq!(
        index_url(MIRROR).as_deref(),
        Some("http://debian.mirror.lrz.de/debian/dists/bullseye/main/binary-all/Packages.gz")
    );
    assert_eq!(index_url("not an address"), None);
}

#[test]
fn argument_that_ends_in_deb_is_a_local_file() {
    let store = store_with_offers();
    match acquire(&store, MIRROR, "/tmp/foo.deb") {
        Ok(Source::Local { path }) => assert_eq!(path, "/tmp/foo.deb"),
        other => panic!("no local file: {:?}", other),
    }
}

#[test]
fn package_on_offer_is_fetched_from_the_mirror() {
    let store = store_with_offers();
    match acquire(&store, MIRROR, " foo ") {
        Ok(Source::Download { url, sha256 }) => {
            assert_eq!(url, "http://debian.mirror.lrz.de/debian/pool/main/f/foo/foo_1_all.deb");
            assert_eq!(sha256, ABC);
        },
        other => panic!("no download: {:?}", other),
    }
}

#[test]
fn package_without_source_is_not_found() {
    let store = store_with_offers();
    assert!(matches!(acquire(&store, MIRROR, "unknown"), Err(PackError::NotFound)));
    assert!(matches!(acquire(&store, MIRROR, "nofile"), Err(PackError::NotFound)));
    assert!(matches!(acquire(&store, MIRROR, "nohash"), Err(PackError::NotFound)));
    assert!(matches!(acquire(&store, "nowhere", "foo"), Err(PackError::NotFound)));
}

#[test]
fn directories_come_last() {
    let entries = vec![
        entry("./", true),
        entry("./etc/", true),
        entry("./etc/foo.conf", false),
        entry("./usr/", true),
        entry("./usr/bin/foo", false),
    ];
    assert_eq!(
        plan_files(true, &entries, true),
        vec![
            FileStep::PreInstall,
            FileStep::Extract(2),
            FileStep::Extract(4),
            FileStep::Extract(0),
            FileStep::Extract(1),
            FileStep::Extract(3),
            FileStep::PostInstall,
        ]
    );
    assert_eq!(plan_files(false, &Vec::new(), false), Vec::<FileStep>::new());
}

#[test]
fn staging_keeps_the_live_tables_clean() {
    let mut store = store_with_offers();
    let key = stage(&mut store, &foo_archive().control).expect("staged");
    assert_eq!(key, "foo");
    assert!(store.installed.status.is_empty());
    assert!(store.installed.dependencies.is_empty());
    let staged = store.staging.as_ref().expect("staging tables");
    assert_eq!(staged.status.len(), 1);
    assert_eq!(staged.dependencies.len(), 1);
}

#[test]
fn control_data_for_two_packages_is_malformed() {
    let mut store = store_with_offers();
    let text = "Package: a\nVersion: 1\nMaintainer: m\n\nPackage: b\nVersion: 1\nMaintainer: m\n";
    assert!(matches!(stage(&mut store, text), Err(PackError::Parse)));
    assert!(matches!(stage(&mut store, ""), Err(PackError::Parse)));
    assert!(matches!(stage(&mut store, "Version: 1\nMaintainer: m\n"), Err(PackError::Parse)));
    assert!(store.staging.is_none());
}

#[test]
fn missing_dependencies_are_found_through_the_offers() {
    let mut store = PackageStore::init();
    let offers = "Package: bar\nVersion: 1\nMaintainer: m\nDepends: baz, have\n\n\
                  Package: baz\nVersion: 1\nMaintainer: m\nDepends: foo, deep\n\n\
                  Package: have\nVersion: 1\nMaintainer: m\nDepends: behind\n";
    assert_eq!(populate_db(&mut store, offers, TableRole::Available), Ok(()));
    let have = "Package: have\nVersion: 1\nMaintainer: m\n";
    assert_eq!(populate_db(&mut store, have, TableRole::Installed), Ok(()));
    let key = stage(&mut store, &foo_archive().control).expect("staged");
    assert_eq!(
        resolve_deps(&store, &key),
        vec!["bar".to_string(), "baz".to_string(), "deep".to_string(), "behind".to_string()]
    );
}

#[test]
fn commit_needs_a_staged_package_that_is_not_installed() {
    let mut store = store_with_offers();
    let info = foo_archive();
    assert!(matches!(commit(&mut store, &"foo".to_string(), false, &info), Err(PackError::Store)));
    stage(&mut store, &info.control).expect("staged");
    assert!(matches!(commit(&mut store, &"bar".to_string(), false, &info), Err(PackError::Store)));
    assert_eq!(commit(&mut store, &"foo".to_string(), false, &info), Ok(()));
    stage(&mut store, &info.control).expect("staged");
    assert!(matches!(commit(&mut store, &"foo".to_string(), false, &info), Err(PackError::Store)));
    assert_eq!(names(&store), vec![("foo".to_string(), false)]);
}

#[test]
fn dependency_is_installed_first_and_marked() {
    let mut store = store_with_offers();
    let mut foo = InstallJob::new(MIRROR, "foo", false);
    match run_to_files(&mut store, &mut foo, foo_archive()) {
        Action::InstallDependency { name } => assert_eq!(name, "bar"),
        other => panic!("no dependency: {:?}", other),
    }
    assert!(names(&store).is_empty());

    let mut bar = InstallJob::new(MIRROR, "bar", true);
    match run_to_files(&mut store, &mut bar, bar_archive()) {
        Action::Apply { steps } => {
            assert_eq!(steps, vec![FileStep::Extract(0), FileStep::PostInstall]);
        },
        other => panic!("no files: {:?}", other),
    }
    assert!(matches!(
        install(&mut store, &mut bar, Event::Applied),
        Action::Finish(Outcome::Installed)
    ));
    assert_eq!(names(&store), vec![("bar".to_string(), true)]);

    match install(&mut store, &mut foo, Event::DependencyDone) {
        Action::Apply { steps } => {
            assert_eq!(steps, vec![FileStep::Extract(1), FileStep::Extract(0), FileStep::PostInstall]);
        },
        other => panic!("no files: {:?}", other),
    }
    assert!(matches!(
        install(&mut store, &mut foo, Event::Applied),
        Action::Finish(Outcome::Installed)
    ));
    assert_eq!(names(&store), vec![("bar".to_string(), true), ("foo".to_string(), false)]);
    assert!(store.staging.is_none());
    let files: Vec<(&str, &str)> =
        store.files.iter().map(|f| (f.package.as_str(), f.file.as_str())).collect();
    assert_eq!(files, vec![("bar", "./usr/bin/bar"), ("foo", "./usr/bin/foo")]);
    let row = &store.installed.status[1];
    assert_eq!(row.status.as_deref(), Some("install ok installed"));
    assert_eq!(row.prerm.as_deref(), Some("echo prerm"));
    assert_eq!(row.postrm.as_deref(), Some(""));
    assert_eq!(store.installed.dependencies.len(), 1);
    assert_eq!(store.installed.dependencies[0].package, "foo");
}

#[test]
fn installing_an_installed_package_changes_nothing() {
    let mut store = store_with_offers();
    let mut bar = InstallJob::new(MIRROR, "bar", false);
    assert!(matches!(run_to_files(&mut store, &mut bar, bar_archive()), Action::Apply { .. }));
    install(&mut store, &mut bar, Event::Applied);
    let before = format!("{:?}", store);
    let mut again = InstallJob::new(MIRROR, " bar", false);
    assert!(matches!(
        install(&mut store, &mut again, Event::Begin),
        Action::Finish(Outcome::AlreadyInstalled)
    ));
    assert!(matches!(again.stage, Stage::Done));
    assert_eq!(format!("{:?}", store), before);
    assert!(matches!(install(&mut store, &mut again, Event::Applied), Action::Idle));
}

#[test]
fn archive_with_a_wrong_digest_never_reaches_the_files() {
    let mut store = store_with_offers();
    let before = format!("{:?}", store);
    let mut job = InstallJob::new(MIRROR, "bar", false);
    assert!(matches!(install(&mut store, &mut job, Event::Begin), Action::Fetch { .. }));
    assert!(matches!(
        install(&mut store, &mut job, Event::Fetched(b"abd".to_vec())),
        Action::Finish(Outcome::Failed(PackError::HashMismatch))
    ));
    assert!(matches!(job.stage, Stage::Failed(PackError::HashMismatch)));
    assert!(matches!(install(&mut store, &mut job, Event::Opened(bar_archive())), Action::Idle));
    assert!(matches!(install(&mut store, &mut job, Event::Applied), Action::Idle));
    assert!(matches!(install(&mut store, &mut job, Event::Begin), Action::Idle));
    assert_eq!(format!("{:?}", store), before);
}

#[test]
fn failed_fetch_and_unknown_package_are_not_found() {
    let mut store = store_with_offers();
    let mut job = InstallJob::new(MIRROR, "bar", false);
    install(&mut store, &mut job, Event::Begin);
    assert!(matches!(
        install(&mut store, &mut job, Event::FetchFailed),
        Action::Finish(Outcome::Failed(PackError::NotFound))
    ));
    let mut job = InstallJob::new(MIRROR, "unknown", false);
    assert!(matches!(
        install(&mut store, &mut job, Event::Begin),
        Action::Finish(Outcome::Failed(PackError::NotFound))
    ));
}

#[test]
fn local_archive_is_not_verified() {
    let mut store = store_with_offers();
    let mut job = InstallJob::new(MIRROR, "./bar_2_all.deb", false);
    match install(&mut store, &mut job, Event::Begin) {
        Action::ReadLocal { path } => assert_eq!(path, "./bar_2_all.deb"),
        other => panic!("no local file: {:?}", other),
    }
    assert!(matches!(
        install(&mut store, &mut job, Event::Opened(bar_archive())),
        Action::Apply { .. }
    ));
    assert!(matches!(
        install(&mut store, &mut job, Event::Applied),
        Action::Finish(Outcome::Installed)
    ));
    assert_eq!(names(&store), vec![("bar".to_string(), false)]);
}

#[test]
fn files_that_cannot_be_unpacked_leave_nothing_installed() {
    let mut store = store_with_offers();
    let mut job = InstallJob::new(MIRROR, "bar", false);
    run_to_files(&mut store, &mut job, bar_archive());
    assert!(matches!(
        install(&mut store, &mut job, Event::ApplyFailed),
        Action::Finish(Outcome::Failed(PackError::Filesystem))
    ));
    assert!(names(&store).is_empty());
    assert!(store.files.is_empty());
}

#[test]
fn malformed_control_data_ends_the_install() {
    let mut store = store_with_offers();
    let mut job = InstallJob::new(MIRROR, "bar", false);
    let broken = archive("Package: bar\nVersion: 2\n", Vec::new());
    assert!(matches!(
        run_to_files(&mut store, &mut job, broken),
        Action::Finish(Outcome::Failed(PackError::Parse))
    ));
    let mut job = InstallJob::new(MIRROR, "bar", false);
    let refused = archive("Package: bar\nMaintainer: m\n", Vec::new());
    assert!(matches!(
        run_to_files(&mut store, &mut job, refused),
        Action::Finish(Outcome::Failed(PackError::Store))
    ));
    assert!(names(&store).is_empty());
}

#[test]
fn purge_after_install_takes_the_package_away() {
    let mut store = store_with_offers();
    let mut job = InstallJob::new(MIRROR, "bar", false);
    run_to_files(&mut store, &mut job, bar_archive());
    install(&mut store, &mut job, Event::Applied);
    match purge(&mut store, "bar") {
        Ok(PurgePlan::Hard { prerm, files, postrm }) => {
            assert_eq!(prerm.as_deref(), Some("echo prerm"));
            assert_eq!(postrm, None);
            assert_eq!(files, vec!["/usr/bin/bar".to_string()]);
        },
        other => panic!("not a removal for good: {:?}", other),
    }
    assert!(names(&store).is_empty());
    assert!(store.files.is_empty());
    assert!(store.installed.dependencies.is_empty());
}

#[test]
fn update_replaces_what_is_on_offer() {
    let mut store = store_with_offers();
    let mut encoder = flate2::write::GzEncoder::new(Vec::new(), flate2::Compression::default());
    encoder.write_all(b"Package: new\nVersion: 1\nMaintainer: m\nDepends: other\n").unwrap();
    let compressed = encoder.finish().unwrap();
    assert_eq!(update(&mut store, &compressed), Ok(()));
    let on_offer: Vec<&str> = store.available.status.iter().map(|r| r.package.as_str()).collect();
    assert_eq!(on_offer, vec!["new"]);
    assert_eq!(store.available.dependencies.len(), 1);
    assert_eq!(store.available.dependencies[0].dependency, "other");
}

#[test]
fn index_that_cannot_be_read_leaves_nothing_on_offer() {
    let mut store = store_with_offers();
    assert_eq!(update(&mut store, b"not gzip"), Err(PackError::Parse));
    assert!(store.available.status.is_empty());
    assert!(store.available.dependencies.is_empty());

    let mut store = store_with_offers();
    let mut encoder = flate2::write::GzEncoder::new(Vec::new(), flate2::Compression::default());
    encoder.write_all(&[0xff, 0xfe, b'\n']).unwrap();
    let compressed = encoder.finish().unwrap();
    assert_eq!(update(&mut store, &compressed), Err(PackError::Parse));
    assert!(store.available.status.is_empty());

    let mut store = store_with_offers();
    let mut encoder = flate2::write::GzEncoder::new(Vec::new(), flate2::Compression::default());
    encoder.write_all(b"Package: x\nMaintainer: m\n").unwrap();
    let compressed = encoder.finish().unwrap();
    assert_eq!(update(&mut store, &compressed), Err(PackError::Store));
    assert!(store.available.status.is_empty());
}

#[test]
fn format_version_is_written_with_a_dot() {
    assert_eq!(debian_binary(2, 0), "2.0\n");
    assert_eq!(debian_binary(0, 939), "0.939\n");
    assert_eq!(debian_binary(10, 4294967295), "10.4294967295\n");
    assert_eq!(debian_binary(7, 100), format!("{}.{}\n", 7, 100));
}
