//! The data model: dependency references as written in a manifest
//! (`Mops`), fully pinned repositories (`RepoInfo`), and resolved
//! lockfile records (`Package`), together with the identity keys and
//! cache paths derived from them.

use vstd::prelude::*;
use crate::text::{spec_starts_with, starts_with, str_eq, substring};

verus! {

/// A fully resolved repository pin: owner/name, ref, concrete commit
/// id, and the subdirectory holding the sources.
#[derive(Clone)]
pub struct RepoInfo {
    pub repo: String,
    pub tag: String,
    pub commit: String,
    pub base_dir: String,
}

/// The mathematical value of a `RepoInfo`.
pub ghost struct RepoModel {
    pub repo: Seq<char>,
    pub tag: Seq<char>,
    pub commit: Seq<char>,
    pub base_dir: Seq<char>,
}

impl View for RepoInfo {
    type V = RepoModel;

    open spec fn view(&self) -> RepoModel {
        RepoModel {
            repo: self.repo@,
            tag: self.tag@,
            commit: self.commit@,
            base_dir: self.base_dir@,
        }
    }
}

impl RepoInfo {
    /// The marker the repository fetcher leaves once the pinned
    /// commit's content is fully in place.
    pub fn get_done_file(&self) -> (r: String)
        ensures
            r@ == ".mops-done"@,
    {
        ".mops-done".to_owned()
    }
}

/// Is the character a hexadecimal digit?
pub open spec fn is_hex_digit(c: char) -> bool {
    ('0' <= c <= '9') || ('a' <= c <= 'f') || ('A' <= c <= 'F')
}

/// Is the string a concrete object id: forty hexadecimal digits?
pub open spec fn spec_commit_ok(c: Seq<char>) -> bool {
    c.len() == 40 && forall|i: int| 0 <= i < c.len() ==> is_hex_digit(#[trigger] c[i])
}

/// Check that a string is a forty-digit hexadecimal object id.
pub fn is_hex_commit(s: &str) -> (r: bool)
    ensures
        r == spec_commit_ok(s@),
{
    let n = s.unicode_len();
    if n != 40 {
        return false;
    }
    let mut i: usize = 0;
    while i < n
        invariant
            0 <= i <= n,
            n == s@.len(),
            forall|j: int| 0 <= j < i ==> is_hex_digit(#[trigger] s@[j]),
        decreases n - i,
    {
        let c = s.get_char(i);
        if !(('0' <= c && c <= '9') || ('a' <= c && c <= 'f') || ('A' <= c && c <= 'F')) {
            return false;
        }
        i = i + 1;
    }
    true
}

impl RepoModel {
    /// The commit is a resolved concrete object id, never a symbolic
    /// ref: forty hexadecimal digits.
    pub open spec fn wf(self) -> bool {
        spec_commit_ok(self.commit)
    }
}

/// A dependency reference as written in a manifest: a registry
/// package pinned to an exact version, a source-host repository given
/// by URL, or a local directory given by path.
pub enum Mops {
    Mops { name: String, version: String },
    Repo { name: String, repo: String },
    Local { name: String, path: String },
}

/// The mathematical value of a `Mops` reference.
pub ghost enum MopsModel {
    Mops { name: Seq<char>, version: Seq<char> },
    Repo { name: Seq<char>, repo: Seq<char> },
    Local { name: Seq<char>, path: Seq<char> },
}

impl View for Mops {
    type V = MopsModel;

    open spec fn view(&self) -> MopsModel {
        match self {
            Mops::Mops { name, version } => MopsModel::Mops { name: name@, version: version@ },
            Mops::Repo { name, repo } => MopsModel::Repo { name: name@, repo: repo@ },
            Mops::Local { name, path } => MopsModel::Local { name: name@, path: path@ },
        }
    }
}

impl DeepView for Mops {
    type V = MopsModel;

    open spec fn deep_view(&self) -> MopsModel {
        self.view()
    }
}

/// A record of the lockfile.  `source` discriminates the kind: a
/// storage-service id for registry packages, the literal `github` for
/// repository packages, or `file://` and an absolute path for local
/// packages.
pub struct Package {
    pub name: String,
    pub version: Option<String>,
    pub source: String,
    pub base_dir: String,
    pub repo: Option<RepoInfo>,
    pub dependencies: Vec<String>,
}

/// The mathematical value of a `Package`.
pub ghost struct PackageModel {
    pub name: Seq<char>,
    pub version: Option<Seq<char>>,
    pub source: Seq<char>,
    pub base_dir: Seq<char>,
    pub repo: Option<RepoModel>,
    pub dependencies: Seq<Seq<char>>,
}

impl View for Package {
    type V = PackageModel;

    open spec fn view(&self) -> PackageModel {
        PackageModel {
            name: self.name@,
            version: match self.version {
                Some(v) => Some(v@),
                None => None,
            },
            source: self.source@,
            base_dir: self.base_dir@,
            repo: match self.repo {
                Some(r) => Some(r@),
                None => None,
            },
            dependencies: self.dependencies.deep_view(),
        }
    }
}

impl DeepView for Package {
    type V = PackageModel;

    open spec fn deep_view(&self) -> PackageModel {
        self.view()
    }
}

/// The kind of a package, together with what that kind carries.
pub enum PackageType<'a> {
    Mops { ver: &'a str, id: &'a str },
    Local(&'a str),
    Repo(&'a RepoInfo),
}

/// The kind of a package model.
pub ghost enum PackageKind {
    Registry { ver: Seq<char>, id: Seq<char> },
    Repo(RepoModel),
    Local(Seq<char>),
}

impl PackageModel {
    /// How the `source` field discriminates the package kind: a
    /// `file://` prefix means local, the literal `github` means
    /// repository, anything else is a registry storage id.
    pub open spec fn kind(self) -> PackageKind {
        if spec_starts_with(self.source, "file://"@) {
            PackageKind::Local(self.source.skip("file://"@.len() as int))
        } else if self.source == "github"@ {
            PackageKind::Repo(self.repo->Some_0)
        } else {
            PackageKind::Registry { ver: self.version->Some_0, id: self.source }
        }
    }

    /// The fields that the package's kind relies on are present.
    pub open spec fn wf(self) -> bool {
        match self.kind() {
            PackageKind::Registry { ver, id } => self.version is Some,
            PackageKind::Repo(r) => self.repo is Some && r.wf(),
            PackageKind::Local(l) => true,
        }
    }

    /// The identity by which the graph walker deduplicates: name plus
    /// version, commit, or canonical path, depending on the kind.
    pub open spec fn dedup_key(self) -> Seq<char> {
        match self.kind() {
            PackageKind::Registry { ver, id } => self.name + "-"@ + ver,
            PackageKind::Repo(r) => self.name + "-"@ + r.commit,
            PackageKind::Local(l) => self.name + "-"@ + l,
        }
    }

    /// The deterministic cache subpath of the package.
    pub open spec fn cache_path(self) -> Seq<char> {
        match self.kind() {
            PackageKind::Registry { ver, id } => "mops/"@ + self.name + "-"@ + ver,
            PackageKind::Repo(r) => "git/"@ + spec_dashed(r.repo) + "/"@ + r.commit.take(8),
            PackageKind::Local(l) => l,
        }
    }

    /// The completion sentinel of the package, empty for local
    /// packages, which are never fetched.
    pub open spec fn done_file(self) -> Seq<char> {
        match self.kind() {
            PackageKind::Registry { ver, id } => "DONE"@,
            PackageKind::Repo(r) => ".mops-done"@,
            PackageKind::Local(l) => Seq::empty(),
        }
    }
}

/// `s` with every slash replaced by a dash.
pub open spec fn spec_dashed(s: Seq<char>) -> Seq<char> {
    Seq::new(s.len(), |i: int| if s[i] == '/' { '-' } else { s[i] })
}

/// `name`, a dash, and `suffix`: the shape every identity key takes.
pub fn join_key(name: &str, suffix: &str) -> (r: String)
    ensures
        r@ == name@ + "-"@ + suffix@,
{
    let mut r = name.to_owned();
    r.append("-");
    r.append(suffix);
    r
}

impl Package {
    /// Discriminate the package by its `source` field.
    pub fn get_type<'a>(&'a self) -> (r: PackageType<'a>)
        requires
            self@.wf(),
        ensures
            match r {
                PackageType::Mops { ver, id } => self@.kind() == (PackageKind::Registry {
                    ver: ver@,
                    id: id@,
                }),
                PackageType::Repo(ri) => self@.kind() == PackageKind::Repo(ri@),
                PackageType::Local(l) => self@.kind() == PackageKind::Local(l@),
            },
    {
        let src = self.source.as_str();
        if starts_with(src, "file://") {
            proof {
                reveal_strlit("file://");
            }
            let n = src.unicode_len();
            let local = src.substring_char(7, n);
            proof {
                assert(local@ =~= self.source@.skip("file://"@.len() as int));
            }
            PackageType::Local(local)
        } else if str_eq(src, "github") {
            PackageType::Repo(self.repo.as_ref().unwrap())
        } else {
            PackageType::Mops { ver: self.version.as_ref().unwrap().as_str(), id: src }
        }
    }

    /// The DedupKey of the record.
    pub fn get_key(&self) -> (r: String)
        requires
            self@.wf(),
        ensures
            r@ == self@.dedup_key(),
    {
        match self.get_type() {
            PackageType::Mops { ver, id } => join_key(self.name.as_str(), ver),
            PackageType::Repo(ri) => join_key(self.name.as_str(), ri.commit.as_str()),
            PackageType::Local(l) => join_key(self.name.as_str(), l),
        }
    }

    /// The deterministic cache subpath of the record.
    pub fn get_path(&self) -> (r: String)
        requires
            self@.wf(),
        ensures
            r@ == self@.cache_path(),
    {
        match self.get_type() {
            PackageType::Mops { ver, id } => {
                let mut r = "mops/".to_owned();
                r.append(self.name.as_str());
                r.append("-");
                r.append(ver);
                r
            },
            PackageType::Repo(ri) => {
                let mut r = "git/".to_owned();
                let dashed = dashed_exec(ri.repo.as_str());
                r.append(dashed.as_str());
                r.append("/");
                let c = ri.commit.as_str();
                let head = c.substring_char(0, 8);
                r.append(head);
                proof {
                    assert(ri.commit@.subrange(0, 8) =~= ri.commit@.take(8));
                }
                r
            },
            PackageType::Local(l) => l.to_owned(),
        }
    }

    /// The file whose presence marks the record's cache directory as
    /// fully populated.
    pub fn get_done_file(&self) -> (r: String)
        requires
            self@.wf(),
        ensures
            r@ == self@.done_file(),
    {
        match self.get_type() {
            PackageType::Mops { ver, id } => "DONE".to_owned(),
            PackageType::Repo(ri) => ri.get_done_file(),
            PackageType::Local(l) => {
                let r = "".to_owned();
                proof {
                    reveal_strlit("");
                    assert(r@ =~= Seq::<char>::empty());
                }
                r
            },
        }
    }
}

/// Replace every slash by a dash.
pub fn dashed_exec(s: &str) -> (r: String)
    ensures
        r@ == spec_dashed(s@),
{
    let n = s.unicode_len();
    let mut r = String::new();
    let mut i: usize = 0;
    while i < n
        invariant
            0 <= i <= n,
            n == s@.len(),
            r@ == spec_dashed(s@).take(i as int),
        decreases n - i,
    {
        if s.get_char(i) == '/' {
            r.append("-");
            proof {
                reveal_strlit("-");
            }
        } else {
            let piece = s.substring_char(i, i + 1);
            r.append(piece);
        }
        proof {
            assert(r@ =~= spec_dashed(s@).take(i as int + 1));
        }
        i = i + 1;
    }
    proof {
        assert(spec_dashed(s@).take(n as int) =~= spec_dashed(s@));
    }
    r
}

impl Mops {
    /// The model of the reference.
    pub open spec fn model(self) -> MopsModel {
        self@
    }

    /// The DisplayKey recorded in a parent's dependency list: the
    /// name joined to exactly what the manifest wrote, before any
    /// resolution.
    pub fn get_display_key(&self) -> (r: String)
        ensures
            r@ == spec_display_key(self@),
    {
        match self {
            Mops::Mops { name, version } => join_key(name.as_str(), version.as_str()),
            Mops::Repo { name, repo } => join_key(name.as_str(), repo.as_str()),
            Mops::Local { name, path } => join_key(name.as_str(), path.as_str()),
        }
    }
}

/// What a manifest declares: the package's own version, when given,
/// and its dependency references in manifest order.
pub struct MopsConfig {
    pub version: Option<String>,
    pub dependencies: Vec<Mops>,
}

/// The mathematical value of a `MopsConfig`.
pub ghost struct MopsConfigModel {
    pub version: Option<Seq<char>>,
    pub dependencies: Seq<MopsModel>,
}

impl View for MopsConfig {
    type V = MopsConfigModel;

    open spec fn view(&self) -> MopsConfigModel {
        MopsConfigModel {
            version: match self.version {
                Some(v) => Some(v@),
                None => None,
            },
            dependencies: self.dependencies.deep_view(),
        }
    }
}

/// The DisplayKey of a dependency reference.
pub open spec fn spec_display_key(m: MopsModel) -> Seq<char> {
    match m {
        MopsModel::Mops { name, version } => name + "-"@ + version,
        MopsModel::Repo { name, repo } => name + "-"@ + repo,
        MopsModel::Local { name, path } => name + "-"@ + path,
    }
}

} // verus!
