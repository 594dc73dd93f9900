use crate::control::{
    field_conffiles, field_edges, field_value, lemma_split_nonempty, lookup, parse_control, process_conffiles, process_dep, control_paragraphs, Field,
};
use crate::model::{
    lemma_views_push, opt_text, views, Conffile, ConffileView, DepEdge, DepEdgeView, PackError,
    RelationKind, StatusRow, StatusRowView, TableRole,
};
use crate::store::{
    delete_rows, has_package, lemma_rows_without_status, rows_without, status_wf, PackageStore,
    StoreView, Tables, TablesView,
};
use crate::text::{chars_of, split, split_bounds, text_of, text_without, without_char};
use vstd::prelude::*;

verus! {

/// The number under which the priority lookup table holds a priority.
pub open spec fn priority_id(name: Option<Seq<char>>) -> Option<u8> {
    match name {
        Some(n) => if n == "required"@ {
            Some(0u8)
        } else if n == "important"@ {
            Some(1u8)
        } else if n == "standard"@ {
            Some(2u8)
        } else if n == "optional"@ {
            Some(3u8)
        } else if n == "extra"@ {
            Some(4u8)
        } else {
            None
        },
        None => None,
    }
}

/// Whether the string is the text `lit`.
pub fn is_text(s: &String, lit: &str) -> (same: bool)
    ensures
        same == (s@ == lit@),
{
    let other = lit.to_owned();
    *s == other
}

/// The number under which the priority lookup table holds a priority.
pub fn priority_of(name: &Option<String>) -> (id: Option<u8>)
    ensures
        id == priority_id(opt_text(*name)),
{
    match name {
        Some(n) => {
            if is_text(n, "required") {
                Some(0)
            } else if is_text(n, "important") {
                Some(1)
            } else if is_text(n, "standard") {
                Some(2)
            } else if is_text(n, "optional") {
                Some(3)
            } else if is_text(n, "extra") {
                Some(4)
            } else {
                None
            }
        },
        None => None,
    }
}

/// The name of a maintainer field: what stands before the first `<`.
pub open spec fn maintainer_name(value: Seq<char>) -> Seq<char> {
    split(value, seq!['<'])[0]
}

/// The address of a maintainer field: what stands between the first `<`
/// and the next, without any `>`.
pub open spec fn maintainer_mail(value: Seq<char>) -> Option<Seq<char>> {
    let parts = split(value, seq!['<']);
    if parts.len() > 1 {
        Some(without_char(parts[1], '>'))
    } else {
        None
    }
}

/// The maintainer's name and address.
pub fn maintainer_of(value: &str) -> (r: (String, Option<String>))
    ensures
        r.0@ == maintainer_name(value@),
        opt_text(r.1) == maintainer_mail(value@),
{
    let v = chars_of(value);
    let mut sep: Vec<char> = Vec::new();
    sep.push('<');
    assert(sep@ =~= seq!['<']);
    assert(v@.subrange(0, v.len() as int) =~= v@);
    let parts = split_bounds(&v, 0, v.len(), &sep);
    proof {
        lemma_split_nonempty(v@, sep@, 0, 0);
    }
    let (na, nb) = parts[0];
    let name = text_of(&v, na, nb);
    let mail = if parts.len() > 1 {
        let (ma, mb) = parts[1];
        Some(text_without(&v, ma, mb, '>'))
    } else {
        None
    };
    (name, mail)
}

impl RelationKind {
    /// The name of the control field that declares relations of this kind.
    pub open spec fn field(self) -> Seq<char> {
        match self {
            RelationKind::Depends => "Depends"@,
            RelationKind::PreDepends => "Pre-Depends"@,
            RelationKind::Provides => "Provides"@,
            RelationKind::Suggests => "Suggests"@,
            RelationKind::Breaks => "Breaks"@,
            RelationKind::Replaces => "Replaces"@,
            RelationKind::Recommends => "Recommends"@,
            RelationKind::Enhances => "Enhances"@,
            RelationKind::Conflicts => "Conflicts"@,
            RelationKind::BuildUsing => "Build-Using"@,
        }
    }

    /// The name of the control field that declares relations of this kind.
    pub fn field_name(self) -> (name: &'static str)
        ensures
            name@ == self.field(),
    {
        match self {
            RelationKind::Depends => "Depends",
            RelationKind::PreDepends => "Pre-Depends",
            RelationKind::Provides => "Provides",
            RelationKind::Suggests => "Suggests",
            RelationKind::Breaks => "Breaks",
            RelationKind::Replaces => "Replaces",
            RelationKind::Recommends => "Recommends",
            RelationKind::Enhances => "Enhances",
            RelationKind::Conflicts => "Conflicts",
            RelationKind::BuildUsing => "Build-Using",
        }
    }

    /// The kinds in the order in which their fields are read.
    pub open spec fn at(i: int) -> RelationKind {
        if i == 0 {
            RelationKind::Depends
        } else if i == 1 {
            RelationKind::PreDepends
        } else if i == 2 {
            RelationKind::Provides
        } else if i == 3 {
            RelationKind::Suggests
        } else if i == 4 {
            RelationKind::Breaks
        } else if i == 5 {
            RelationKind::Replaces
        } else if i == 6 {
            RelationKind::Recommends
        } else if i == 7 {
            RelationKind::Enhances
        } else if i == 8 {
            RelationKind::Conflicts
        } else {
            RelationKind::BuildUsing
        }
    }

    /// The kind that stands at place `i` of the ten.
    pub fn nth(i: usize) -> (kind: RelationKind)
        ensures
            kind == RelationKind::at(i as int),
    {
        if i == 0 {
            RelationKind::Depends
        } else if i == 1 {
            RelationKind::PreDepends
        } else if i == 2 {
            RelationKind::Provides
        } else if i == 3 {
            RelationKind::Suggests
        } else if i == 4 {
            RelationKind::Breaks
        } else if i == 5 {
            RelationKind::Replaces
        } else if i == 6 {
            RelationKind::Recommends
        } else if i == 7 {
            RelationKind::Enhances
        } else if i == 8 {
            RelationKind::Conflicts
        } else {
            RelationKind::BuildUsing
        }
    }
}

/// The name of the package that a paragraph describes.
pub open spec fn paragraph_package(fields: Seq<(Seq<char>, Seq<char>)>) -> Seq<char> {
    lookup(fields, "Package"@, true)->0
}

/// The status row that a paragraph describes.
pub open spec fn paragraph_row(fields: Seq<(Seq<char>, Seq<char>)>) -> StatusRowView {
    StatusRowView {
        package: paragraph_package(fields),
        status: lookup(fields, "Status"@, true),
        priority: priority_id(lookup(fields, "Priority"@, true)),
        section: lookup(fields, "Section"@, true),
        source: lookup(fields, "Source"@, true),
        version: lookup(fields, "Version"@, true)->0,
        maintainer_name: Some(maintainer_name(lookup(fields, "Maintainer"@, true)->0)),
        maintainer_mail: maintainer_mail(lookup(fields, "Maintainer"@, true)->0),
        architecture: lookup(fields, "Architecture"@, true),
        multi_arch: lookup(fields, "Multi-Arch"@, true),
        installed_size: lookup(fields, "Installed-Size"@, true),
        description: lookup(fields, "Description"@, true),
        homepage: lookup(fields, "Homepage"@, true),
        auto_installed: false,
        filename: lookup(fields, "Filename"@, true),
        prerm: None,
        postrm: None,
        md5: lookup(fields, "MD5sum"@, true),
        sha256: lookup(fields, "SHA256"@, true),
    }
}

/// The edges that the field of one kind declares.
pub open spec fn kind_edges(fields: Seq<(Seq<char>, Seq<char>)>, kind: RelationKind) -> Seq<
    DepEdgeView,
> {
    match lookup(fields, kind.field(), true) {
        Some(value) => field_edges(paragraph_package(fields), kind, value),
        None => Seq::empty(),
    }
}

/// The edges that the fields of the first `n` kinds declare.
pub open spec fn kinds_edges(fields: Seq<(Seq<char>, Seq<char>)>, n: nat) -> Seq<DepEdgeView>
    decreases n,
{
    if n == 0 {
        Seq::empty()
    } else {
        kinds_edges(fields, (n - 1) as nat) + kind_edges(fields, RelationKind::at(n - 1))
    }
}

/// The edges that a paragraph declares, kind by kind.
pub open spec fn paragraph_edges(fields: Seq<(Seq<char>, Seq<char>)>) -> Seq<DepEdgeView> {
    kinds_edges(fields, 10)
}

/// The conffile rows that a paragraph declares.
pub open spec fn paragraph_conffiles(fields: Seq<(Seq<char>, Seq<char>)>) -> Seq<ConffileView> {
    match lookup(fields, "Conffiles"@, true) {
        Some(value) => field_conffiles(paragraph_package(fields), value),
        None => Seq::empty(),
    }
}

/// Why a paragraph cannot be stored, if it cannot: it is malformed
/// without a package name or a maintainer, and the tables refuse it without
/// a version or with a digest of the wrong length.
pub open spec fn paragraph_error(fields: Seq<(Seq<char>, Seq<char>)>) -> Option<PackError> {
    if lookup(fields, "Maintainer"@, true) is None || lookup(fields, "Package"@, true) is None {
        Some(PackError::Parse)
    } else if lookup(fields, "Version"@, true) is None || !paragraph_row(fields).admissible() {
        Some(PackError::Store)
    } else {
        None
    }
}

/// The status table with `row` in place of any row for the same package.
pub open spec fn replaced(rows: Seq<StatusRowView>, row: StatusRowView) -> Seq<StatusRowView> {
    rows_without::<StatusRow>(rows, seq![row.package]).push(row)
}

/// The tables once a paragraph is stored.
pub open spec fn with_paragraph(t: TablesView, fields: Seq<(Seq<char>, Seq<char>)>) -> TablesView {
    TablesView {
        status: replaced(t.status, paragraph_row(fields)),
        dependencies: t.dependencies + paragraph_edges(fields),
        conffiles: t.conffiles + paragraph_conffiles(fields),
    }
}

/// The tables once the paragraphs are stored in their order, or the error
/// of the first paragraph that cannot be stored.
pub open spec fn populated(t: TablesView, paragraphs: Seq<Seq<(Seq<char>, Seq<char>)>>) -> Result<
    TablesView,
    PackError,
>
    decreases paragraphs.len(),
{
    if paragraphs.len() == 0 {
        Ok(t)
    } else {
        match populated(t, paragraphs.drop_last()) {
            Ok(before) => match paragraph_error(paragraphs.last()) {
                Some(e) => Err(e),
                None => Ok(with_paragraph(before, paragraphs.last())),
            },
            Err(e) => Err(e),
        }
    }
}

/// The tables once a control file is stored, or why it cannot be.
pub open spec fn populate_outcome(t: TablesView, text: Seq<char>) -> Result<TablesView, PackError> {
    match control_paragraphs(text) {
        Some(paragraphs) => populated(t, paragraphs),
        None => Err(PackError::Parse),
    }
}

/// Replacing a row keeps the status table well formed.
pub proof fn lemma_replaced(rows: Seq<StatusRowView>, row: StatusRowView)
    requires
        status_wf(rows),
        row.admissible(),
    ensures
        status_wf(replaced(rows, row)),
        forall|x: Seq<char>|
            has_package(replaced(rows, row), x) <==> has_package(rows, x) || x == row.package,
{
    let names = seq![row.package];
    let kept = rows_without::<StatusRow>(rows, names);
    let r = replaced(rows, row);
    lemma_rows_without_status(rows, names);
    assert(names[0] == row.package);
    assert(!has_package(kept, row.package));
    assert forall|i: int, j: int| 0 <= i < r.len() && 0 <= j < r.len() && i != j implies (
    #[trigger] r[i]).package != (#[trigger] r[j]).package by {
        if i < kept.len() && j < kept.len() {
            assert(kept[i].package != kept[j].package);
        } else {
            let low = if i < kept.len() { i } else { j };
            assert(kept[low].package == r[low].package);
        }
    }
    assert forall|i: int| 0 <= i < r.len() implies (#[trigger] r[i]).admissible() by {
        if i < kept.len() {
            assert(kept[i].admissible());
        }
    }
    assert forall|x: Seq<char>| has_package(r, x) <==> has_package(rows, x) || x == row.package by {
        if has_package(r, x) {
            let i = choose|i: int| 0 <= i < r.len() && (#[trigger] r[i]).package == x;
            if i < kept.len() {
                assert(kept[i].package == x);
                assert(has_package(kept, x));
            }
        }
        if x == row.package {
            assert(r[kept.len() as int].package == x);
        } else if has_package(rows, x) {
            assert(!names.contains(x)) by {
                if names.contains(x) {
                    let k = choose|k: int| 0 <= k < names.len() && names[k] == x;
                }
            }
            assert(has_package(kept, x));
            let i = choose|i: int| 0 <= i < kept.len() && (#[trigger] kept[i]).package == x;
            assert(r[i].package == x);
        }
    }
}

/// What one paragraph adds to the tables.
#[derive(Debug)]
pub struct Prepared {
    pub row: StatusRow,
    pub edges: Vec<DepEdge>,
    pub conffiles: Vec<Conffile>,
}

/// Reads a paragraph: the status row, the edges and the conffile rows
/// that it declares, or why it cannot be stored.
pub fn prepare(fields: &Vec<Field>) -> (r: Result<Prepared, PackError>)
    ensures
        match r {
            Ok(p) => paragraph_error(views(fields@)) is None && p.row@ == paragraph_row(
                views(fields@),
            ) && views(p.edges@) == paragraph_edges(views(fields@)) && views(p.conffiles@)
                == paragraph_conffiles(views(fields@)),
            Err(e) => paragraph_error(views(fields@)) == Some(e),
        },
{
    let ghost fv = views(fields@);
    let maintainer = match field_value(fields, "Maintainer", true) {
        Some(m) => m,
        None => {
            return Err(PackError::Parse);
        },
    };
    let package = match field_value(fields, "Package", true) {
        Some(p) => p,
        None => {
            return Err(PackError::Parse);
        },
    };
    let version = match field_value(fields, "Version", true) {
        Some(v) => v,
        None => {
            return Err(PackError::Store);
        },
    };
    let md5 = field_value(fields, "MD5sum", true);
    let sha256 = field_value(fields, "SHA256", true);
    let md5_fits = match &md5 {
        Some(h) => h.as_str().unicode_len() == 32,
        None => true,
    };
    let sha256_fits = match &sha256 {
        Some(h) => h.as_str().unicode_len() == 64,
        None => true,
    };
    if !md5_fits || !sha256_fits {
        return Err(PackError::Store);
    }
    let (name, mail) = maintainer_of(maintainer.as_str());
    let priority = field_value(fields, "Priority", true);
    let row = StatusRow {
        package: package.clone(),
        status: field_value(fields, "Status", true),
        priority: priority_of(&priority),
        section: field_value(fields, "Section", true),
        source: field_value(fields, "Source", true),
        version,
        maintainer_name: Some(name),
        maintainer_mail: mail,
        architecture: field_value(fields, "Architecture", true),
        multi_arch: field_value(fields, "Multi-Arch", true),
        installed_size: field_value(fields, "Installed-Size", true),
        description: field_value(fields, "Description", true),
        homepage: field_value(fields, "Homepage", true),
        auto_installed: false,
        filename: field_value(fields, "Filename", true),
        prerm: None,
        postrm: None,
        md5,
        sha256,
    };
    let mut edges: Vec<DepEdge> = Vec::new();
    let mut i: usize = 0;
    assert(views(edges@) =~= kinds_edges(fv, 0));
    while i < 10
        invariant
            i <= 10,
            fv == views(fields@),
            package@ == paragraph_package(fv),
            views(edges@) == kinds_edges(fv, i as nat),
        decreases 10 - i,
    {
        let kind = RelationKind::nth(i);
        match field_value(fields, kind.field_name(), true) {
            Some(value) => {
                process_dep(&package, kind, value.as_str(), &mut edges);
            },
            None => {
                assert(views(edges@) + Seq::<DepEdgeView>::empty() =~= views(edges@));
            },
        }
        i = i + 1;
    }
    let mut conffiles: Vec<Conffile> = Vec::new();
    assert(views(conffiles@) =~= Seq::<ConffileView>::empty());
    match field_value(fields, "Conffiles", true) {
        Some(value) => {
            process_conffiles(&package, value.as_str(), &mut conffiles);
            assert(Seq::<ConffileView>::empty() + field_conffiles(package@, value@)
                =~= field_conffiles(package@, value@));
        },
        None => {},
    }
    Ok(Prepared { row, edges, conffiles })
}

/// The database once the tables of `role` exist: the staging tables are
/// made, empty, where there are none; the others always exist.
pub open spec fn with_tables(v: StoreView, role: TableRole) -> StoreView {
    if role == TableRole::Staging && v.staging is None {
        StoreView { staging: Some(TablesView::empty()), ..v }
    } else {
        v
    }
}

/// The tables of `role`.
pub open spec fn tables_of(v: StoreView, role: TableRole) -> TablesView {
    match role {
        TableRole::Installed => v.installed,
        TableRole::Available => v.available,
        TableRole::Staging => v.staging->0,
    }
}

/// The database with `t` as its tables of `role`.
pub open spec fn set_tables(v: StoreView, role: TableRole, t: TablesView) -> StoreView {
    match role {
        TableRole::Installed => StoreView { installed: t, ..v },
        TableRole::Available => StoreView { available: t, ..v },
        TableRole::Staging => StoreView { staging: Some(t), ..v },
    }
}

impl Tables {
    /// Tables without rows.
    pub fn new() -> (t: Tables)
        ensures
            t@ == TablesView::empty(),
    {
        let t = Tables { status: Vec::new(), dependencies: Vec::new(), conffiles: Vec::new() };
        assert(t@.status =~= Seq::empty());
        assert(t@.dependencies =~= Seq::empty());
        assert(t@.conffiles =~= Seq::empty());
        t
    }
}

impl PackageStore {
    /// A database in which nothing is installed and nothing on offer.
    pub fn init() -> (store: PackageStore)
        ensures
            store@.wf(),
            store@.installed == TablesView::empty(),
            store@.available == TablesView::empty(),
            store@.staging is None,
            store@.files == Seq::<crate::model::InstalledFileView>::empty(),
    {
        let store = PackageStore {
            installed: Tables::new(),
            available: Tables::new(),
            staging: None,
            files: Vec::new(),
        };
        assert(store@.files =~= Seq::empty());
        store
    }
}

/// Makes sure that the tables of `role` exist; rows that are there stay.
pub fn setup_db(store: &mut PackageStore, role: TableRole)
    ensures
        final(store)@ == with_tables(old(store)@, role),
        old(store)@.wf() ==> final(store)@.wf(),
{
    match role {
        TableRole::Staging => {
            if store.staging.is_none() {
                store.staging = Some(Tables::new());
            }
        },
        _ => {},
    }
}

/// Paragraphs that can all be stored give tables.
pub proof fn lemma_all_stored(t: TablesView, paragraphs: Seq<Seq<(Seq<char>, Seq<char>)>>)
    requires
        forall|k: int| 0 <= k < paragraphs.len() ==> paragraph_error(#[trigger] paragraphs[k]) is None,
    ensures
        populated(t, paragraphs) is Ok,
    decreases paragraphs.len(),
{
    if paragraphs.len() > 0 {
        let front = paragraphs.drop_last();
        assert forall|k: int| 0 <= k < front.len() implies paragraph_error(#[trigger] front[k]) is None by {
            assert(front[k] == paragraphs[k]);
        }
        lemma_all_stored(t, front);
        assert(paragraph_error(paragraphs[paragraphs.len() - 1]) is None);
    }
}

/// The first paragraph that cannot be stored decides the error.
pub proof fn lemma_first_refused(
    t: TablesView,
    paragraphs: Seq<Seq<(Seq<char>, Seq<char>)>>,
    i: int,
    e: PackError,
)
    requires
        0 <= i < paragraphs.len(),
        forall|k: int| 0 <= k < i ==> paragraph_error(#[trigger] paragraphs[k]) is None,
        paragraph_error(paragraphs[i]) == Some(e),
    ensures
        populated(t, paragraphs) == Err::<TablesView, PackError>(e),
    decreases paragraphs.len(),
{
    let front = paragraphs.drop_last();
    if i == paragraphs.len() - 1 {
        assert forall|k: int| 0 <= k < front.len() implies paragraph_error(#[trigger] front[k]) is None by {
            assert(front[k] == paragraphs[k]);
        }
        lemma_all_stored(t, front);
    } else {
        assert forall|k: int| 0 <= k < i implies paragraph_error(#[trigger] front[k]) is None by {
            assert(front[k] == paragraphs[k]);
        }
        assert(front[i] == paragraphs[i]);
        lemma_first_refused(t, front, i, e);
    }
}

/// Storing paragraphs keeps the tables well formed.
pub proof fn lemma_populated_wf(t: TablesView, paragraphs: Seq<Seq<(Seq<char>, Seq<char>)>>)
    requires
        t.wf(),
    ensures
        populated(t, paragraphs) matches Ok(after) ==> after.wf(),
    decreases paragraphs.len(),
{
    if paragraphs.len() > 0 {
        lemma_populated_wf(t, paragraphs.drop_last());
        if populated(t, paragraphs) is Ok {
            let before = populated(t, paragraphs.drop_last())->Ok_0;
            lemma_replaced(before.status, paragraph_row(paragraphs.last()));
        }
    }
}

/// Stores a control file in the tables of `role`: every paragraph gives a
/// status row, which takes the place of any row for the same package, and
/// the edges and conffile rows that it declares. The tables are made
/// first where they do not exist. Text that is no control file, or a
/// paragraph that cannot be stored, leaves all rows as they were.
pub fn populate_db(store: &mut PackageStore, text: &str, role: TableRole) -> (r: Result<
    (),
    PackError,
>)
    requires
        old(store)@.wf(),
    ensures
        final(store)@.wf(),
        match populate_outcome(tables_of(with_tables(old(store)@, role), role), text@) {
            Ok(t) => r is Ok && final(store)@ == set_tables(with_tables(old(store)@, role), role, t),
            Err(e) => r == Err::<(), PackError>(e) && final(store)@ == with_tables(
                old(store)@,
                role,
            ),
        },
{
    let ghost pre = store@;
    setup_db(store, role);
    let ghost v = store@;
    let ghost t0 = tables_of(v, role);
    let paragraphs = match parse_control(text) {
        Some(p) => p,
        None => {
            return Err(PackError::Parse);
        },
    };
    let ghost ps = views(paragraphs@);
    let mut prepared: Vec<Prepared> = Vec::new();
    let mut i: usize = 0;
    while i < paragraphs.len()
        invariant
            i <= paragraphs.len(),
            ps == views(paragraphs@),
            control_paragraphs(text@) == Some(ps),
            store@ == v,
            v.wf(),
            v == with_tables(pre, role),
            pre == old(store)@,
            t0 == tables_of(v, role),
            prepared.len() == i,
            forall|k: int|
                0 <= k < i ==> paragraph_error(#[trigger] ps[k]) is None && prepared@[k].row@
                    == paragraph_row(ps[k]) && views(prepared@[k].edges@) == paragraph_edges(ps[k])
                    && views(prepared@[k].conffiles@) == paragraph_conffiles(ps[k]),
        decreases paragraphs.len() - i,
    {
        assert(ps[i as int] == views(paragraphs@[i as int].fields@));
        match prepare(&paragraphs[i].fields) {
            Ok(p) => {
                prepared.push(p);
            },
            Err(e) => {
                proof {
                    lemma_first_refused(t0, ps, i as int, e);
                }
                return Err(e);
            },
        }
        i = i + 1;
    }
    proof {
        lemma_all_stored(t0, ps);
        lemma_populated_wf(t0, ps);
    }
    let tables = match role {
        TableRole::Installed => {
            let mut t = Tables::new();
            std::mem::swap(&mut store.installed, &mut t);
            t
        },
        TableRole::Available => {
            let mut t = Tables::new();
            std::mem::swap(&mut store.available, &mut t);
            t
        },
        TableRole::Staging => store.staging.take().unwrap(),
    };
    let Tables { status, dependencies, conffiles } = tables;
    let mut status = status;
    let mut dependencies = dependencies;
    let mut conffiles = conffiles;
    let ghost all = prepared@;
    assert(ps.take(0) =~= Seq::empty());
    for p in it: prepared
        invariant
            it.seq() == all,
            all.len() == ps.len(),
            forall|k: int|
                0 <= k < all.len() ==> paragraph_error(#[trigger] ps[k]) is None && all[k].row@
                    == paragraph_row(ps[k]) && views(all[k].edges@) == paragraph_edges(ps[k])
                    && views(all[k].conffiles@) == paragraph_conffiles(ps[k]),
            populated(t0, ps.take(it.index() as int)) == Ok::<TablesView, PackError>(
                TablesView {
                    status: views(status@),
                    dependencies: views(dependencies@),
                    conffiles: views(conffiles@),
                },
            ),
    {
        let ghost k = it.index() as int;
        let Prepared { row, edges, conffiles: declared } = p;
        let mut edges = edges;
        let mut declared = declared;
        proof {
            assert(ps.take(k + 1).drop_last() =~= ps.take(k));
            assert(ps.take(k + 1).last() == ps[k]);
        }
        let mut names: Vec<String> = Vec::new();
        names.push(row.package.clone());
        assert(views(names@) =~= seq![row@.package]);
        status = delete_rows(status, &names);
        let ghost kept = status@;
        let ghost d0 = dependencies@;
        let ghost c0 = conffiles@;
        let ghost e0 = edges@;
        let ghost f0 = declared@;
        status.push(row);
        dependencies.append(&mut edges);
        conffiles.append(&mut declared);
        proof {
            lemma_views_push(kept, row);
            assert(views(dependencies@) =~= views(d0) + views(e0));
            assert(views(conffiles@) =~= views(c0) + views(f0));
        }
    }
    proof {
        assert(ps.take(ps.len() as int) =~= ps);
    }
    let tables = Tables { status, dependencies, conffiles };
    match role {
        TableRole::Installed => {
            store.installed = tables;
        },
        TableRole::Available => {
            store.available = tables;
        },
        TableRole::Staging => {
            store.staging = Some(tables);
        },
    }
    Ok(())
}

/// The row, with the mark for packages installed only as a dependency set
/// as told if it is for `name`.
pub open spec fn flag_row(name: Seq<char>, flag: bool) -> spec_fn(StatusRowView) -> StatusRowView {
    |r: StatusRowView|
        if r.package == name {
            StatusRowView { auto_installed: flag, ..r }
        } else {
            r
        }
}

/// What a paragraph says of the mark: it is set where the field
/// `Auto-Installed` reads `1`.
pub open spec fn paragraph_flag(fields: Seq<(Seq<char>, Seq<char>)>) -> bool {
    lookup(fields, "Auto-Installed"@, false) == Some("1"@)
}

/// The status table once the marks of the paragraphs are taken over, one
/// paragraph after the other; a paragraph without a package name says
/// nothing.
pub open spec fn flagged(rows: Seq<StatusRowView>, paragraphs: Seq<Seq<(Seq<char>, Seq<char>)>>)
    -> Seq<StatusRowView>
    decreases paragraphs.len(),
{
    if paragraphs.len() == 0 {
        rows
    } else {
        let before = flagged(rows, paragraphs.drop_last());
        match lookup(paragraphs.last(), "Package"@, false) {
            Some(name) => before.map_values(flag_row(name, paragraph_flag(paragraphs.last()))),
            None => before,
        }
    }
}

/// Setting marks does not touch what the tables check.
pub proof fn lemma_flag_rows(rows: Seq<StatusRowView>, name: Seq<char>, flag: bool)
    requires
        status_wf(rows),
    ensures
        status_wf(rows.map_values(flag_row(name, flag))),
{
    let m = rows.map_values(flag_row(name, flag));
    assert forall|i: int| 0 <= i < m.len() implies (#[trigger] m[i]).package == rows[i].package
        && m[i].admissible() by {
        assert(rows[i].admissible());
    }
    assert forall|i: int, j: int| 0 <= i < m.len() && 0 <= j < m.len() && i != j implies (
    #[trigger] m[i]).package != (#[trigger] m[j]).package by {
        assert(rows[i].package != rows[j].package);
    }
}

/// Sets the mark of the package `name`.
pub fn set_auto(rows: Vec<StatusRow>, name: &String, flag: bool) -> (marked: Vec<StatusRow>)
    ensures
        views(marked@) == views(rows@).map_values(flag_row(name@, flag)),
{
    let ghost all = rows@;
    let mut marked: Vec<StatusRow> = Vec::new();
    for row in it: rows
        invariant
            it.seq() == all,
            marked.len() == it.index(),
            forall|k: int|
                0 <= k < marked.len() ==> (#[trigger] marked@[k])@ == flag_row(name@, flag)(
                    all[k]@,
                ),
    {
        let mut row = row;
        if row.package == *name {
            row.auto_installed = flag;
        }
        marked.push(row);
    }
    assert(views(marked@) =~= views(all).map_values(flag_row(name@, flag)));
    marked
}

/// Takes over from a control file which installed packages were
/// installed only as a dependency: for every paragraph the package it
/// names gets the mark that its field `Auto-Installed` gives. Text that is
/// no control file changes nothing.
pub fn populate_db_auto_installed(store: &mut PackageStore, text: &str) -> (r: Result<
    (),
    PackError,
>)
    requires
        old(store)@.wf(),
    ensures
        final(store)@.wf(),
        match control_paragraphs(text@) {
            Some(paragraphs) => r is Ok && final(store)@ == StoreView {
                installed: TablesView {
                    status: flagged(old(store)@.installed.status, paragraphs),
                    ..old(store)@.installed
                },
                ..old(store)@
            },
            None => r == Err::<(), PackError>(PackError::Parse) && final(store)@ == old(store)@,
        },
{
    let ghost v = store@;
    let paragraphs = match parse_control(text) {
        Some(p) => p,
        None => {
            return Err(PackError::Parse);
        },
    };
    let ghost ps = views(paragraphs@);
    let mut status: Vec<StatusRow> = Vec::new();
    std::mem::swap(&mut store.installed.status, &mut status);
    let mut i: usize = 0;
    assert(ps.take(0) =~= Seq::empty());
    while i < paragraphs.len()
        invariant
            i <= paragraphs.len(),
            ps == views(paragraphs@),
            status_wf(views(status@)),
            views(status@) == flagged(v.installed.status, ps.take(i as int)),
        decreases paragraphs.len() - i,
    {
        let fields = &paragraphs[i].fields;
        proof {
            assert(ps[i as int] == views(fields@));
            assert(ps.take(i + 1).drop_last() =~= ps.take(i as int));
            assert(ps.take(i + 1).last() == ps[i as int]);
        }
        match field_value(fields, "Package", false) {
            Some(name) => {
                let flag = match field_value(fields, "Auto-Installed", false) {
                    Some(value) => is_text(&value, "1"),
                    None => false,
                };
                proof {
                    lemma_flag_rows(views(status@), name@, flag);
                }
                status = set_auto(status, &name, flag);
            },
            None => {},
        }
        i = i + 1;
    }
    proof {
        assert(ps.take(ps.len() as int) =~= ps);
    }
    store.installed.status = status;
    Ok(())
}

} // verus!
