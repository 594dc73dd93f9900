use vstd::prelude::*;

verus! {

/// Why an operation on a package was given up.
#[derive(Clone, Copy, Debug, PartialEq, Eq, Structural)]
pub enum PackError {
    /// Unknown package name, or a download that did not succeed.
    NotFound,
    /// The fetched archive does not have the digest the index recorded for it.
    HashMismatch,
    /// Malformed control data.
    Parse,
    /// A constraint of the package database would be violated.
    Store,
    /// A file could not be written while a package was being unpacked.
    Filesystem,
}

/// The relation a dependency edge stands for.
#[derive(Clone, Copy, Debug, PartialEq, Eq, Structural)]
pub enum RelationKind {
    Depends,
    PreDepends,
    Provides,
    Suggests,
    Breaks,
    Replaces,
    Recommends,
    Enhances,
    Conflicts,
    BuildUsing,
}

/// Which copy of the status, dependency and conffile tables is meant.
#[derive(Clone, Copy, Debug, PartialEq, Eq, Structural)]
pub enum TableRole {
    /// Packages that are installed.
    Installed,
    /// Packages the mirror offers.
    Available,
    /// Rows of an install that is still in progress.
    Staging,
}

/// The text held by an optional column.
pub open spec fn opt_text(o: Option<String>) -> Option<Seq<char>> {
    match o {
        Some(s) => Some(s@),
        None => None,
    }
}

/// The views of a sequence of rows, row by row.
pub open spec fn views<T: View>(rows: Seq<T>) -> Seq<T::V> {
    rows.map_values(|r: T| r@)
}

/// Appending a row appends its view.
pub proof fn lemma_views_push<T: View>(rows: Seq<T>, row: T)
    ensures
        views(rows.push(row)) == views(rows).push(row@),
{
    assert(views(rows.push(row)) =~= views(rows).push(row@));
}

/// One row of a status table.
#[derive(Debug)]
pub struct StatusRow {
    pub package: String,
    pub status: Option<String>,
    pub priority: Option<u8>,
    pub section: Option<String>,
    pub source: Option<String>,
    pub version: String,
    pub maintainer_name: Option<String>,
    pub maintainer_mail: Option<String>,
    pub architecture: Option<String>,
    pub multi_arch: Option<String>,
    pub installed_size: Option<String>,
    pub description: Option<String>,
    pub homepage: Option<String>,
    pub auto_installed: bool,
    pub filename: Option<String>,
    pub prerm: Option<String>,
    pub postrm: Option<String>,
    pub md5: Option<String>,
    pub sha256: Option<String>,
}

/// What a status row holds, as plain text.
pub struct StatusRowView {
    pub package: Seq<char>,
    pub status: Option<Seq<char>>,
    pub priority: Option<u8>,
    pub section: Option<Seq<char>>,
    pub source: Option<Seq<char>>,
    pub version: Seq<char>,
    pub maintainer_name: Option<Seq<char>>,
    pub maintainer_mail: Option<Seq<char>>,
    pub architecture: Option<Seq<char>>,
    pub multi_arch: Option<Seq<char>>,
    pub installed_size: Option<Seq<char>>,
    pub description: Option<Seq<char>>,
    pub homepage: Option<Seq<char>>,
    pub auto_installed: bool,
    pub filename: Option<Seq<char>>,
    pub prerm: Option<Seq<char>>,
    pub postrm: Option<Seq<char>>,
    pub md5: Option<Seq<char>>,
    pub sha256: Option<Seq<char>>,
}

impl View for StatusRow {
    type V = StatusRowView;

    open spec fn view(&self) -> StatusRowView {
        StatusRowView {
            package: self.package@,
            status: opt_text(self.status),
            priority: self.priority,
            section: opt_text(self.section),
            source: opt_text(self.source),
            version: self.version@,
            maintainer_name: opt_text(self.maintainer_name),
            maintainer_mail: opt_text(self.maintainer_mail),
            architecture: opt_text(self.architecture),
            multi_arch: opt_text(self.multi_arch),
            installed_size: opt_text(self.installed_size),
            description: opt_text(self.description),
            homepage: opt_text(self.homepage),
            auto_installed: self.auto_installed,
            filename: opt_text(self.filename),
            prerm: opt_text(self.prerm),
            postrm: opt_text(self.postrm),
            md5: opt_text(self.md5),
            sha256: opt_text(self.sha256),
        }
    }
}

impl StatusRowView {
    /// The checks every status table makes on a row: a digest that is
    /// present has the length of its hexadecimal form.
    pub open spec fn admissible(self) -> bool {
        &&& self.md5 matches Some(h) ==> h.len() == 32
        &&& self.sha256 matches Some(h) ==> h.len() == 64
    }
}

/// One declared relation between a package and another name.
#[derive(Debug)]
pub struct DepEdge {
    pub package: String,
    pub kind: RelationKind,
    pub dependency: String,
    pub version: Option<String>,
}

pub struct DepEdgeView {
    pub package: Seq<char>,
    pub kind: RelationKind,
    pub dependency: Seq<char>,
    pub version: Option<Seq<char>>,
}

impl View for DepEdge {
    type V = DepEdgeView;

    open spec fn view(&self) -> DepEdgeView {
        DepEdgeView {
            package: self.package@,
            kind: self.kind,
            dependency: self.dependency@,
            version: opt_text(self.version),
        }
    }
}

/// A configuration file a package declares.
#[derive(Debug)]
pub struct Conffile {
    pub package: String,
    pub path: String,
    pub hash: String,
}

pub struct ConffileView {
    pub package: Seq<char>,
    pub path: Seq<char>,
    pub hash: Seq<char>,
}

impl View for Conffile {
    type V = ConffileView;

    open spec fn view(&self) -> ConffileView {
        ConffileView { package: self.package@, path: self.path@, hash: self.hash@ }
    }
}

/// A file on disk that belongs to an installed package.
#[derive(Debug)]
pub struct InstalledFile {
    pub package: String,
    pub file: String,
}

pub struct InstalledFileView {
    pub package: Seq<char>,
    pub file: Seq<char>,
}

impl View for InstalledFile {
    type V = InstalledFileView;

    open spec fn view(&self) -> InstalledFileView {
        InstalledFileView { package: self.package@, file: self.file@ }
    }
}

} // verus!
