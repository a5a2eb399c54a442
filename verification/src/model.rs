//! What Cargo tells about a project, and what is collected from it.
use crate::order::{is_text_before, text_before, OrderedKey};
use crate::order::{
    lemma_text_before_irreflexive, lemma_text_before_total, lemma_text_before_transitive,
};
use crate::text::{same_text, starts_with};
use vstd::prelude::*;

verus! {

/// Name and version of a crate.
#[derive(Debug, PartialEq, Eq, Hash, PartialOrd, Ord)]
pub struct CrateId {
    pub name: String,
    pub version: String,
}

pub struct CrateIdView {
    pub name: Seq<char>,
    pub version: Seq<char>,
}

impl DeepView for CrateId {
    type V = CrateIdView;

    open spec fn deep_view(&self) -> CrateIdView {
        CrateIdView { name: self.name@, version: self.version@ }
    }
}

impl Clone for CrateId {
    fn clone(&self) -> (r: Self)
        ensures
            r.deep_view() == self.deep_view(),
    {
        CrateId { name: self.name.clone(), version: self.version.clone() }
    }
}

impl CrateId {
    /// The crate of that name and version.
    pub fn new(name: &str, version: &str) -> (r: Self)
        ensures
            r.name@ == name@,
            r.version@ == version@,
    {
        CrateId { name: name.to_string(), version: version.to_string() }
    }
}

/// `a` comes before `b`: by name, and by version where the names are the same.
pub open spec fn id_before(a: CrateIdView, b: CrateIdView) -> bool {
    text_before(a.name, b.name) || (a.name == b.name && text_before(a.version, b.version))
}

impl OrderedKey for CrateId {
    open spec fn before(a: CrateIdView, b: CrateIdView) -> bool {
        id_before(a, b)
    }

    proof fn before_irreflexive(a: CrateIdView) {
        lemma_text_before_irreflexive(a.name);
        lemma_text_before_irreflexive(a.version);
    }

    proof fn before_transitive(a: CrateIdView, b: CrateIdView, c: CrateIdView) {
        if text_before(a.name, b.name) && text_before(b.name, c.name) {
            lemma_text_before_transitive(a.name, b.name, c.name);
        }
        if a.name == b.name && b.name == c.name {
            lemma_text_before_irreflexive(a.name);
            lemma_text_before_transitive(a.version, b.version, c.version);
        }
    }

    proof fn before_total(a: CrateIdView, b: CrateIdView) {
        lemma_text_before_total(a.name, b.name);
        lemma_text_before_total(a.version, b.version);
    }

    fn is_before(&self, other: &Self) -> (r: bool) {
        is_text_before(self.name.as_str(), other.name.as_str()) || (same_text(
            self.name.as_str(),
            other.name.as_str(),
        ) && is_text_before(self.version.as_str(), other.version.as_str()))
    }
}

/// The packages of a project, how they depend on each other, and which are its own.
#[derive(Debug)]
pub struct Metadata {
    pub packages: Vec<Package>,
    pub resolve: Option<Resolve>,
    pub workspace_members: Vec<String>,
}

pub struct MetadataView {
    pub packages: Seq<PackageView>,
    pub resolve: Option<Seq<NodeView>>,
    pub workspace_members: Seq<Seq<char>>,
}

impl DeepView for Metadata {
    type V = MetadataView;

    open spec fn deep_view(&self) -> MetadataView {
        MetadataView {
            packages: self.packages.deep_view(),
            resolve: match self.resolve {
                Some(r) => Some(r.nodes.deep_view()),
                None => None,
            },
            workspace_members: self.workspace_members.deep_view(),
        }
    }
}

impl MetadataView {
    /// The nodes of the dependency graph; none when the graph is missing.
    pub open spec fn nodes(self) -> Seq<NodeView> {
        match self.resolve {
            Some(nodes) => nodes,
            None => Seq::empty(),
        }
    }
}

/// A package that takes part in the build.
#[derive(Debug)]
pub struct Package {
    pub id: String,
    pub name: String,
    pub version: String,
    pub source: Option<String>,
    pub manifest_path: String,
    pub license: Option<String>,
}

pub struct PackageView {
    pub id: Seq<char>,
    pub name: Seq<char>,
    pub version: Seq<char>,
    pub source: Option<Seq<char>>,
    pub manifest_path: Seq<char>,
    pub license: Option<Seq<char>>,
}

impl DeepView for Package {
    type V = PackageView;

    open spec fn deep_view(&self) -> PackageView {
        PackageView {
            id: self.id@,
            name: self.name@,
            version: self.version@,
            source: self.source.deep_view(),
            manifest_path: self.manifest_path@,
            license: self.license.deep_view(),
        }
    }
}

impl PackageView {
    /// Name and version of the package.
    pub open spec fn crate_id(self) -> CrateIdView {
        CrateIdView { name: self.name, version: self.version }
    }

    /// The package comes from a git repository.
    pub open spec fn is_git_source(self) -> bool {
        self.source matches Some(s) && "git+"@.is_prefix_of(s)
    }

    /// The package comes from a registry.
    pub open spec fn is_registry_source(self) -> bool {
        self.source matches Some(s) && "registry+"@.is_prefix_of(s)
    }
}

impl Package {
    /// Name and version of the package.
    pub fn crate_id(&self) -> (r: CrateId)
        ensures
            r.deep_view() == self.deep_view().crate_id(),
    {
        CrateId::new(self.name.as_str(), self.version.as_str())
    }

    /// Whether the package comes from a git repository.
    pub fn is_git_source(&self) -> (r: bool)
        ensures
            r == self.deep_view().is_git_source(),
    {
        match &self.source {
            Some(s) => starts_with(s.as_str(), "git+"),
            None => false,
        }
    }

    /// Whether the package comes from a registry.
    pub fn is_registry_source(&self) -> (r: bool)
        ensures
            r == self.deep_view().is_registry_source(),
    {
        match &self.source {
            Some(s) => starts_with(s.as_str(), "registry+"),
            None => false,
        }
    }
}

/// How the packages depend on each other.
#[derive(Debug)]
pub struct Resolve {
    pub nodes: Vec<Node>,
}

/// A package and what it depends on.
#[derive(Debug)]
pub struct Node {
    pub id: String,
    pub deps: Vec<Dep>,
}

pub struct NodeView {
    pub id: Seq<char>,
    pub deps: Seq<DepView>,
}

impl DeepView for Node {
    type V = NodeView;

    open spec fn deep_view(&self) -> NodeView {
        NodeView { id: self.id@, deps: self.deps.deep_view() }
    }
}

/// A dependency on a package, and the kinds of it.
#[derive(Debug)]
pub struct Dep {
    pub pkg: String,
    pub dep_kinds: Vec<DepKind>,
}

pub struct DepView {
    pub pkg: Seq<char>,
    pub dep_kinds: Seq<Option<Seq<char>>>,
}

impl DeepView for Dep {
    type V = DepView;

    open spec fn deep_view(&self) -> DepView {
        DepView { pkg: self.pkg@, dep_kinds: self.dep_kinds.deep_view() }
    }
}

impl DepView {
    /// One of the kinds is the normal one, which has no name.
    pub open spec fn has_normal(self) -> bool {
        self.dep_kinds.contains(None)
    }
}

impl Dep {
    /// Whether one of the kinds is the normal one, which has no name.
    pub fn has_normal(&self) -> (r: bool)
        ensures
            r == self.deep_view().has_normal(),
    {
        let ghost kinds = self.dep_kinds.deep_view();
        let mut i: usize = 0;
        while i < self.dep_kinds.len()
            invariant
                kinds == self.dep_kinds.deep_view(),
                i <= self.dep_kinds@.len(),
                forall|j: int| 0 <= j < i ==> kinds[j] is Some,
            decreases self.dep_kinds@.len() - i,
        {
            if self.dep_kinds[i].kind.is_none() {
                assert(kinds[i as int] is None);
                return true;
            }
            i = i + 1;
        }
        false
    }
}

/// A kind of dependency: the normal one has no name.
#[derive(Debug)]
pub struct DepKind {
    pub kind: Option<String>,
}

impl DeepView for DepKind {
    type V = Option<Seq<char>>;

    open spec fn deep_view(&self) -> Option<Seq<char>> {
        self.kind.deep_view()
    }
}

/// A package of the lock file.
#[derive(Debug, PartialEq, Eq)]
pub struct LockPackage {
    pub name: String,
    pub version: String,
    pub source: Option<LockSource>,
    pub checksum: Option<String>,
}

pub struct LockPackageView {
    pub name: Seq<char>,
    pub version: Seq<char>,
    pub source: Option<LockSourceView>,
    pub checksum: Option<Seq<char>>,
}

impl DeepView for LockPackage {
    type V = LockPackageView;

    open spec fn deep_view(&self) -> LockPackageView {
        LockPackageView {
            name: self.name@,
            version: self.version@,
            source: self.source.deep_view(),
            checksum: self.checksum.deep_view(),
        }
    }
}

impl LockPackageView {
    /// Name and version of the package.
    pub open spec fn crate_id(self) -> CrateIdView {
        CrateIdView { name: self.name, version: self.version }
    }

    /// The package comes from a registry.
    pub open spec fn is_registry(self) -> bool {
        self.source matches Some(s) && (s.kind == SourceKind::Registry || s.kind
            == SourceKind::SparseRegistry)
    }

    /// The package comes from a git repository.
    pub open spec fn is_git(self) -> bool {
        self.source matches Some(s) && s.kind == SourceKind::Git
    }
}

impl CrateId {
    /// Name and version of a package of the lock file.
    pub fn from_lock_package(pkg: &LockPackage) -> (r: Self)
        ensures
            r.deep_view() == pkg.deep_view().crate_id(),
    {
        CrateId::new(pkg.name.as_str(), pkg.version.as_str())
    }
}

/// Where a package of the lock file comes from.
#[derive(Debug, PartialEq, Eq)]
pub struct LockSource {
    pub kind: SourceKind,
    pub url: String,
    pub precise: Option<String>,
}

pub struct LockSourceView {
    pub kind: SourceKind,
    pub url: Seq<char>,
    pub precise: Option<Seq<char>>,
}

impl DeepView for LockSource {
    type V = LockSourceView;

    open spec fn deep_view(&self) -> LockSourceView {
        LockSourceView { kind: self.kind, url: self.url@, precise: self.precise.deep_view() }
    }
}

/// The kinds of source that are told apart.
#[derive(Clone, Copy, Debug, PartialEq, Eq, Structural)]
pub enum SourceKind {
    Git,
    Registry,
    SparseRegistry,
    Other,
}

/// A crate to fetch from the registry.
#[derive(Debug, PartialEq, Eq)]
pub struct CrateInfo {
    pub name: String,
    pub version: String,
    pub checksum: String,
}

pub struct CrateInfoView {
    pub name: Seq<char>,
    pub version: Seq<char>,
    pub checksum: Seq<char>,
}

impl DeepView for CrateInfo {
    type V = CrateInfoView;

    open spec fn deep_view(&self) -> CrateInfoView {
        CrateInfoView { name: self.name@, version: self.version@, checksum: self.checksum@ }
    }
}

impl CrateInfoView {
    /// Name and version of the crate.
    pub open spec fn crate_id(self) -> CrateIdView {
        CrateIdView { name: self.name, version: self.version }
    }
}

/// A git repository to fetch.
#[derive(Debug, PartialEq, Eq)]
pub struct GitRepo {
    pub url: String,
    pub rev: String,
    pub name: String,
}

pub struct GitRepoView {
    pub url: Seq<char>,
    pub rev: Seq<char>,
    pub name: Seq<char>,
}

impl DeepView for GitRepo {
    type V = GitRepoView;

    open spec fn deep_view(&self) -> GitRepoView {
        GitRepoView { url: self.url@, rev: self.rev@, name: self.name@ }
    }
}

/// A crate that lies in a git repository.
#[derive(Debug, PartialEq, Eq)]
pub struct GitCrate {
    pub name: String,
    pub repo_name: String,
    pub path_in_repo: String,
}

pub struct GitCrateView {
    pub name: Seq<char>,
    pub repo_name: Seq<char>,
    pub path_in_repo: Seq<char>,
}

impl DeepView for GitCrate {
    type V = GitCrateView;

    open spec fn deep_view(&self) -> GitCrateView {
        GitCrateView {
            name: self.name@,
            repo_name: self.repo_name@,
            path_in_repo: self.path_in_repo@,
        }
    }
}

impl Clone for GitCrate {
    fn clone(&self) -> (r: Self)
        ensures
            r.deep_view() == self.deep_view(),
    {
        GitCrate {
            name: self.name.clone(),
            repo_name: self.repo_name.clone(),
            path_in_repo: self.path_in_repo.clone(),
        }
    }
}

impl GitCrateView {
    /// The place of the crate, seen from the sources of the project.
    pub open spec fn local_path(self) -> Seq<char> {
        if self.path_in_repo.len() == 0 {
            "../"@ + self.repo_name
        } else {
            "../"@ + self.repo_name + "/"@ + self.path_in_repo
        }
    }
}

impl GitCrate {
    /// The place of the crate, seen from the sources of the project.
    pub fn local_path(&self) -> (r: String)
        ensures
            r@ == self.deep_view().local_path(),
    {
        let mut out: String = "../".to_string();
        out.append(self.repo_name.as_str());
        if !self.path_in_repo.as_str().is_empty() {
            out.append("/");
            out.append(self.path_in_repo.as_str());
        }
        out
    }
}

} // verus!
