use crate::archive::{file_rows, record_files, ArchiveEntryView, ArchiveInfo};
use crate::control::{control_paragraphs, field_value, lookup, parse_control};
use crate::graph::{dependency_closure, discovered_from, reached_from};
use crate::model::{
    lemma_views_push, opt_text, views, Conffile, DepEdge, DepEdgeView, PackError, RelationKind,
    StatusRowView, TableRole,
};
use crate::populate::{populate_db, populate_outcome, set_tables, tables_of, with_tables};
use crate::purge::{find_status, status_of};
use crate::store::{
    has_package, kept_by, rows_without, Owned, PackageStore, StoreView, Tables, TablesView,
};
use crate::text::{ends_with, text_ends_with, trim, trimmed};
use vstd::prelude::*;

verus! {

/// The address that a relative reference names when it is read against a
/// base address, or nothing if one of the two cannot be read.
pub uninterp spec fn joined_url(base: Seq<char>, relative: Seq<char>) -> Option<Seq<char>>;

/// Calls `reqwest::Url::join` on the base address, read by
/// `reqwest::Url::parse`, and gives the resulting address as text.
/// Whether the two can be read and what they give is a function of the two
/// texts alone, named `joined_url`.
#[verifier::external_body]
pub(crate) fn join_url(base: &str, relative: &str) -> (url: Option<String>)
    ensures
        opt_text(url) == joined_url(base@, relative@),
{
    match reqwest::Url::parse(base) {
        Ok(parsed) => match parsed.join(relative) {
            Ok(joined) => Some(joined.as_str().to_string()),
            Err(_) => None,
        },
        Err(_) => None,
    }
}

/// Where the archive of a package comes from.
#[derive(Debug)]
pub enum Source {
    /// A file on this machine; it is taken as it is.
    Local { path: String },
    /// A file on the mirror, with the SHA-256 digest that the index
    /// records for it.
    Download { url: String, sha256: String },
}

pub enum SourceView {
    Local { path: Seq<char> },
    Download { url: Seq<char>, sha256: Seq<char> },
}

impl View for Source {
    type V = SourceView;

    open spec fn view(&self) -> SourceView {
        match self {
            Source::Local { path } => SourceView::Local { path: path@ },
            Source::Download { url, sha256 } => SourceView::Download { url: url@, sha256: sha256@ },
        }
    }
}

/// Where the archive for `package` comes from: an argument that ends in
/// `.deb` names a local file; any other names a package, white space
/// around it aside, whose row among the packages on offer gives the file
/// name, read against the mirror's address, and the digest. Without such a
/// row, a file name, a digest or a readable address there is no source.
pub open spec fn source_of(v: StoreView, mirror: Seq<char>, package: Seq<char>) -> Option<
    SourceView,
> {
    if ends_with(package, ".deb"@) {
        Some(SourceView::Local { path: package })
    } else if has_package(v.available.status, trimmed(package)) {
        let row = status_of(v.available.status, trimmed(package));
        match (row.filename, row.sha256) {
            (Some(file), Some(digest)) => match joined_url(mirror, file) {
                Some(url) => Some(SourceView::Download { url, sha256: digest }),
                None => None,
            },
            _ => None,
        }
    } else {
        None
    }
}

/// Finds out where the archive for `package` comes from.
pub fn acquire(store: &PackageStore, mirror: &str, package: &str) -> (r: Result<Source, PackError>)
    requires
        store@.wf(),
    ensures
        match source_of(store@, mirror@, package@) {
            Some(source) => r matches Ok(found) && found@ == source,
            None => r matches Err(e) && e == PackError::NotFound,
        },
{
    if text_ends_with(package, ".deb") {
        return Ok(Source::Local { path: package.to_owned() });
    }
    let name = trim(package);
    let at = match find_status(&store.available.status, &name) {
        Some(at) => at,
        None => {
            return Err(PackError::NotFound);
        },
    };
    proof {
        let rows = store@.available.status;
        assert(rows[at as int].package == name@);
        let c = choose|i: int| 0 <= i < rows.len() && (#[trigger] rows[i]).package == name@;
        assert(c == at);
    }
    let row = &store.available.status[at];
    match (&row.filename, &row.sha256) {
        (Some(file), Some(digest)) => match join_url(mirror, file.as_str()) {
            Some(url) => Ok(Source::Download { url, sha256: digest.clone() }),
            None => Err(PackError::NotFound),
        },
        _ => Err(PackError::NotFound),
    }
}

/// The names that the edges of kind depends lead to, one for each edge.
pub open spec fn depends_names(edges: Seq<DepEdgeView>) -> Seq<Seq<char>>
    decreases edges.len(),
{
    if edges.len() == 0 {
        Seq::empty()
    } else {
        let rest = depends_names(edges.drop_last());
        if edges.last().kind == RelationKind::Depends {
            rest.push(edges.last().dependency)
        } else {
            rest
        }
    }
}

/// The names that the edges of kind depends lead to.
pub fn depends_targets(edges: &Vec<DepEdge>) -> (names: Vec<String>)
    ensures
        views(names@) == depends_names(views(edges@)),
{
    let mut names: Vec<String> = Vec::new();
    let mut t: usize = 0;
    assert(views(edges@).take(0) =~= Seq::empty());
    assert(views(names@) =~= Seq::empty());
    while t < edges.len()
        invariant
            t <= edges.len(),
            views(names@) == depends_names(views(edges@).take(t as int)),
        decreases edges.len() - t,
    {
        let e = &edges[t];
        proof {
            let ev = views(edges@);
            assert(ev.take(t + 1).drop_last() =~= ev.take(t as int));
            assert(ev.take(t + 1).last() == e@);
        }
        if e.kind == RelationKind::Depends {
            let ghost before = names@;
            let name = e.dependency.clone();
            names.push(name);
            proof {
                lemma_views_push(before, name);
            }
        }
        t = t + 1;
    }
    assert(views(edges@).take(edges.len() as int) =~= views(edges@));
    names
}

/// The names that the staged package depends on directly.
pub open spec fn staged_seeds(v: StoreView) -> Seq<Seq<char>> {
    match v.staging {
        Some(t) => depends_names(t.dependencies),
        None => Seq::empty(),
    }
}

/// The test that a name is still to be installed for `key`: it is not the
/// package itself and not installed.
pub open spec fn wanted(v: StoreView, key: Seq<char>) -> spec_fn(Seq<char>) -> bool {
    |x: Seq<char>| x != key && !has_package(v.installed.status, x)
}

/// The names are the dependencies that are still to be installed for the
/// staged package `key`, each once, in an order of discovery.
pub open spec fn is_missing(v: StoreView, key: Seq<char>, names: Seq<Seq<char>>) -> bool {
    &&& names.no_duplicates()
    &&& forall|x: Seq<char>|
        names.contains(x) <==> reached_from(v.available.dependencies, staged_seeds(v), x) && x
            != key && !v.is_installed(x)
    &&& exists|order: Seq<Seq<char>>|
        discovered_from(v.available.dependencies, staged_seeds(v), order) && names
            == order.filter(wanted(v, key))
}

/// The dependencies that are still to be installed for the staged
/// package `key`: what the staged edges of kind depends lead to, directly
/// or through the edges of the packages on offer, unless it is installed
/// or is the package itself; each name once, in an order of discovery.
pub fn resolve_deps(store: &PackageStore, key: &String) -> (missing: Vec<String>)
    ensures
        is_missing(store@, key@, views(missing@)),
{
    let seeds = match &store.staging {
        Some(t) => depends_targets(&t.dependencies),
        None => {
            let none: Vec<String> = Vec::new();
            assert(views(none@) =~= Seq::<Seq<char>>::empty());
            none
        },
    };
    let closure = dependency_closure(&store.available.dependencies, &seeds);
    let ghost v = store@;
    let ghost cv = views(closure@);
    let ghost pred = wanted(v, key@);
    let mut missing: Vec<String> = Vec::new();
    let mut k: usize = 0;
    assert(cv.take(0) =~= Seq::empty());
    assert(views(missing@) =~= Seq::<Seq<char>>::empty());
    while k < closure.len()
        invariant
            k <= closure.len(),
            v == store@,
            cv == views(closure@),
            cv.no_duplicates(),
            pred == wanted(v, key@),
            views(missing@) == cv.take(k as int).filter(pred),
        decreases closure.len() - k,
    {
        let name = &closure[k];
        proof {
            assert(cv.take(k + 1) =~= cv.take(k as int).push(name@));
            cv.take(k as int).lemma_filter_push(name@, pred);
        }
        let itself = *name == *key;
        let installed = match find_status(&store.installed.status, name) {
            Some(at) => {
                assert(v.installed.status[at as int].package == name@);
                true
            },
            None => false,
        };
        assert(pred(name@) == (name@ != key@ && !has_package(v.installed.status, name@)));
        if !itself && !installed {
            let ghost before = missing@;
            let copy = name.clone();
            missing.push(copy);
            proof {
                lemma_views_push(before, copy);
            }
        }
        k = k + 1;
    }
    proof {
        assert(cv.take(closure.len() as int) =~= cv);
        let mv = views(missing@);
        assert(mv == cv.filter(pred));
        cv.filter_lemma(pred);
        assert forall|x: Seq<char>|
            mv.contains(x) <==> reached_from(v.available.dependencies, staged_seeds(v), x) && x
                != key@ && !v.is_installed(x) by {
            if mv.contains(x) {
                let i = choose|i: int| 0 <= i < mv.len() && mv[i] == x;
                assert(pred(mv[i]));
                assert(mv.contains(mv[i]));
                cv.lemma_filter_contains_rev(pred, mv[i]);
            }
            if cv.contains(x) && pred(x) {
                let i = choose|i: int| 0 <= i < cv.len() && cv[i] == x;
                assert(pred(cv[i]));
                assert(mv.contains(cv[i]));
            }
        }
        lemma_filter_no_duplicates(cv, pred);
        assert(discovered_from(v.available.dependencies, staged_seeds(v), cv) && mv == cv.filter(
            wanted(v, key@),
        ));
    }
    missing
}

/// What is left of a sequence without repetitions has none.
pub proof fn lemma_filter_no_duplicates<A>(s: Seq<A>, pred: spec_fn(A) -> bool)
    requires
        s.no_duplicates(),
    ensures
        s.filter(pred).no_duplicates(),
    decreases s.len(),
{
    if s.len() > 0 {
        let front = s.drop_last();
        let last = s.last();
        assert(front.push(last) =~= s);
        lemma_filter_no_duplicates(front, pred);
        front.lemma_filter_push(last, pred);
        front.filter_lemma(pred);
        let f = front.filter(pred);
        if pred(last) {
            assert forall|i: int, j: int|
                0 <= i < f.len() + 1 && 0 <= j < f.len() + 1 && i != j implies f.push(last)[i]
                != f.push(last)[j] by {
                if i < f.len() && j < f.len() {
                } else {
                    let low = if i < f.len() { i } else { j };
                    assert(f.contains(f[low]));
                    front.lemma_filter_contains_rev(pred, f[low]);
                    let k = choose|k: int| 0 <= k < front.len() && front[k] == f[low];
                    assert(s[k] != s[s.len() - 1]);
                }
            }
        }
    }
}

/// The package that a control file of an archive describes: the file
/// holds one paragraph, and that names a package.
pub open spec fn staged_key(control: Seq<char>) -> Option<Seq<char>> {
    match control_paragraphs(control) {
        Some(paragraphs) => if paragraphs.len() == 1 {
            lookup(paragraphs[0], "Package"@, true)
        } else {
            None
        },
        None => None,
    }
}

/// Stages the control file of an archive: its rows are stored in the
/// staging tables, which are made if there are none, apart from the live
/// ones. A control file that does not describe exactly one package is
/// malformed and leaves the database as it is.
pub fn stage(store: &mut PackageStore, control: &str) -> (r: Result<String, PackError>)
    requires
        old(store)@.wf(),
    ensures
        final(store)@.wf(),
        match staged_key(control@) {
            Some(key) => match populate_outcome(
                tables_of(with_tables(old(store)@, TableRole::Staging), TableRole::Staging),
                control@,
            ) {
                Ok(t) => r matches Ok(name) && name@ == key && final(store)@ == set_tables(
                    with_tables(old(store)@, TableRole::Staging),
                    TableRole::Staging,
                    t,
                ),
                Err(e) => r matches Err(x) && x == e && final(store)@ == with_tables(
                    old(store)@,
                    TableRole::Staging,
                ),
            },
            None => r matches Err(x) && x == PackError::Parse && final(store)@ == old(store)@,
        },
{
    let paragraphs = match parse_control(control) {
        Some(p) => p,
        None => {
            return Err(PackError::Parse);
        },
    };
    if paragraphs.len() != 1 {
        return Err(PackError::Parse);
    }
    assert(views(paragraphs@)[0] == views(paragraphs@[0].fields@));
    let key = match field_value(&paragraphs[0].fields, "Package", true) {
        Some(k) => k,
        None => {
            return Err(PackError::Parse);
        },
    };
    match populate_db(store, control, TableRole::Staging) {
        Ok(()) => Ok(key),
        Err(e) => Err(e),
    }
}

/// The test that a row belongs to the package `name`.
pub open spec fn owned_by<T: Owned>(name: Seq<char>) -> spec_fn(T::V) -> bool {
    |v: T::V| T::owner(v) == name
}

/// The rows that belong to the package `name`, in their order.
pub open spec fn rows_of<T: Owned>(rows: Seq<T::V>, name: Seq<char>) -> Seq<T::V> {
    rows.filter(owned_by::<T>(name))
}

/// Parts a table into the rows of the package `name` and the others.
pub fn split_rows<T: Owned>(rows: Vec<T>, name: &String) -> (r: (Vec<T>, Vec<T>))
    ensures
        views(r.0@) == rows_of::<T>(views(rows@), name@),
        views(r.1@) == rows_without::<T>(views(rows@), seq![name@]),
{
    let ghost all = rows@;
    let ghost mine_pred = owned_by::<T>(name@);
    let ghost rest_pred = kept_by::<T>(seq![name@]);
    let mut mine: Vec<T> = Vec::new();
    let mut rest: Vec<T> = Vec::new();
    assert(views(all).take(0) =~= Seq::empty());
    assert(views(mine@) =~= Seq::empty());
    assert(views(rest@) =~= Seq::empty());
    for row in it: rows
        invariant
            it.seq() == all,
            mine_pred == owned_by::<T>(name@),
            rest_pred == kept_by::<T>(seq![name@]),
            views(mine@) == views(all).take(it.index() as int).filter(mine_pred),
            views(rest@) == views(all).take(it.index() as int).filter(rest_pred),
    {
        proof {
            let i = it.index() as int;
            assert(views(all).take(i + 1) =~= views(all).take(i).push(row@));
            views(all).take(i).lemma_filter_push(row@, mine_pred);
            views(all).take(i).lemma_filter_push(row@, rest_pred);
            assert(seq![name@][0] == name@);
            assert(seq![name@].contains(T::owner(row@)) <==> T::owner(row@) == name@);
        }
        if *row.owner_name() == *name {
            let ghost before = mine@;
            mine.push(row);
            proof {
                lemma_views_push(before, row);
            }
        } else {
            let ghost before = rest@;
            rest.push(row);
            proof {
                lemma_views_push(before, row);
            }
        }
    }
    assert(views(all).take(all.len() as int) =~= views(all));
    (mine, rest)
}

/// The place of the row of the package `name`.
pub open spec fn place_of(rows: Seq<StatusRowView>, name: Seq<char>) -> int {
    choose|i: int| 0 <= i < rows.len() && (#[trigger] rows[i]).package == name
}

/// The staged row as it is installed: with the mark that tells whether
/// the package was installed only as a dependency, the status of an
/// installed package, and the hooks to run at its removal.
pub open spec fn installed_row(
    row: StatusRowView,
    automatic: bool,
    prerm: Seq<char>,
    postrm: Seq<char>,
) -> StatusRowView {
    StatusRowView {
        auto_installed: automatic,
        status: Some("install ok installed"@),
        prerm: Some(prerm),
        postrm: Some(postrm),
        ..row
    }
}

/// Whether the staged package `key` can be made live: it is staged and
/// not installed yet.
pub open spec fn can_commit(v: StoreView, key: Seq<char>) -> bool {
    &&& v.staging matches Some(t)
    &&& has_package(t.status, key)
    &&& !has_package(v.installed.status, key)
}

/// The database once the staged package `key` is live: its staged row,
/// edges and conffile rows stand in the live tables, and its files are
/// recorded. After an install on its own account the staging tables are
/// dropped; after one as a dependency they keep what was staged for other
/// packages.
pub open spec fn committed(
    v: StoreView,
    key: Seq<char>,
    automatic: bool,
    prerm: Seq<char>,
    postrm: Seq<char>,
    entries: Seq<ArchiveEntryView>,
) -> StoreView {
    let s = v.staging->0;
    StoreView {
        installed: TablesView {
            status: v.installed.status.push(
                installed_row(status_of(s.status, key), automatic, prerm, postrm),
            ),
            dependencies: v.installed.dependencies + rows_of::<DepEdge>(s.dependencies, key),
            conffiles: v.installed.conffiles + rows_of::<Conffile>(s.conffiles, key),
        },
        available: v.available,
        staging: if automatic {
            Some(
                TablesView {
                    status: s.status.remove(place_of(s.status, key)),
                    dependencies: rows_without::<DepEdge>(s.dependencies, seq![key]),
                    conffiles: rows_without::<Conffile>(s.conffiles, seq![key]),
                },
            )
        } else {
            None
        },
        files: v.files + file_rows(key, entries),
    }
}

/// Making a staged package live keeps the database well formed.
pub proof fn lemma_committed_wf(
    v: StoreView,
    key: Seq<char>,
    automatic: bool,
    prerm: Seq<char>,
    postrm: Seq<char>,
    entries: Seq<ArchiveEntryView>,
)
    requires
        v.wf(),
        can_commit(v, key),
    ensures
        committed(v, key, automatic, prerm, postrm, entries).wf(),
        committed(v, key, automatic, prerm, postrm, entries).is_installed(key),
{
    let s = v.staging->0;
    let at = place_of(s.status, key);
    let row = installed_row(status_of(s.status, key), automatic, prerm, postrm);
    let live = v.installed.status.push(row);
    assert(s.status[at].admissible());
    assert forall|i: int, j: int| 0 <= i < live.len() && 0 <= j < live.len() && i != j implies (
    #[trigger] live[i]).package != (#[trigger] live[j]).package by {
        if i < v.installed.status.len() && j < v.installed.status.len() {
            assert(v.installed.status[i].package != v.installed.status[j].package);
        } else {
            let low = if i < v.installed.status.len() { i } else { j };
            assert(v.installed.status[low].package == live[low].package);
        }
    }
    assert forall|i: int| 0 <= i < live.len() implies (#[trigger] live[i]).admissible() by {
        if i < v.installed.status.len() {
            assert(v.installed.status[i].admissible());
        }
    }
    assert(live[live.len() - 1].package == key);
    let left = s.status.remove(at);
    assert forall|i: int, j: int| 0 <= i < left.len() && 0 <= j < left.len() && i != j implies (
    #[trigger] left[i]).package != (#[trigger] left[j]).package by {
        let a = if i < at { i } else { i + 1 };
        let b = if j < at { j } else { j + 1 };
        assert(s.status[a].package != s.status[b].package);
    }
    assert forall|i: int| 0 <= i < left.len() implies (#[trigger] left[i]).admissible() by {
        let a = if i < at { i } else { i + 1 };
        assert(s.status[a].admissible());
    }
}

/// Makes the staged package `key` live and records its files, as the
/// last step of its install. A package that is not staged, or that is
/// installed already, is refused and the database stays as it is.
pub fn commit(store: &mut PackageStore, key: &String, automatic: bool, info: &ArchiveInfo) -> (r:
    Result<(), PackError>)
    requires
        old(store)@.wf(),
    ensures
        final(store)@.wf(),
        if can_commit(old(store)@, key@) {
            r is Ok && final(store)@ == committed(
                old(store)@,
                key@,
                automatic,
                info.prerm@,
                info.postrm@,
                views(info.entries@),
            )
        } else {
            r matches Err(e) && e == PackError::Store && final(store)@ == old(store)@
        },
{
    let ghost v = store@;
    let at = match &store.staging {
        Some(t) => match find_status(&t.status, key) {
            Some(at) => at,
            None => {
                return Err(PackError::Store);
            },
        },
        None => {
            return Err(PackError::Store);
        },
    };
    match find_status(&store.installed.status, key) {
        Some(live) => {
            assert(v.installed.status[live as int].package == key@);
            return Err(PackError::Store);
        },
        None => {},
    }
    proof {
        let rows = v.staging->0.status;
        assert(rows[at as int].package == key@);
        let c = choose|i: int| 0 <= i < rows.len() && (#[trigger] rows[i]).package == key@;
        assert(c == at);
        lemma_committed_wf(v, key@, automatic, info.prerm@, info.postrm@, views(info.entries@));
    }
    let staging = store.staging.take().unwrap();
    let Tables { status, dependencies, conffiles } = staging;
    let mut status = status;
    let ghost staged = status@;
    let mut row = status.remove(at);
    row.auto_installed = automatic;
    row.status = Some("install ok installed".to_owned());
    row.prerm = Some(info.prerm.clone());
    row.postrm = Some(info.postrm.clone());
    let (mut edges, other_edges) = split_rows(dependencies, key);
    let (mut declared, other_conffiles) = split_rows(conffiles, key);
    let ghost live = store.installed.status@;
    let ghost d0 = store.installed.dependencies@;
    let ghost c0 = store.installed.conffiles@;
    let ghost e0 = edges@;
    let ghost f0 = declared@;
    store.installed.status.push(row);
    store.installed.dependencies.append(&mut edges);
    store.installed.conffiles.append(&mut declared);
    record_files(key, &info.entries, &mut store.files);
    if automatic {
        store.staging = Some(
            Tables { status, dependencies: other_edges, conffiles: other_conffiles },
        );
    }
    proof {
        lemma_views_push(live, row);
        assert(views(store.installed.dependencies@) =~= views(d0) + views(e0));
        assert(views(store.installed.conffiles@) =~= views(c0) + views(f0));
        assert(views(staged.remove(at as int)) =~= views(staged).remove(at as int));
    }
    Ok(())
}

} // verus!
