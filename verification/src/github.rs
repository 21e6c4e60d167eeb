//! The source-host URL parser: splits a repository URL of the form
//! `https://<host>/<owner>/<repo>[.git][#<ref>[@<commit>]]` into its
//! parts, pins it to a concrete commit, guesses a version from the
//! ref, and builds the host-API request URLs.  The application makes
//! the HTTP requests; the response fields are read here.

use vstd::prelude::*;
use crate::error::Error;
use crate::model::{RepoInfo, RepoModel};
use crate::text::{find_from, find_char, lemma_find_from, spec_starts_with, spec_ends_with,
    starts_with, ends_with, substring};

verus! {

/// The parts a repository URL names outright: the `owner/name` pair,
/// and the ref and commit when the URL pins them.
pub struct ParsedRepoUrl {
    pub repo: String,
    pub tag: Option<String>,
    pub commit: Option<String>,
}

/// The mathematical value of a `ParsedRepoUrl`.
pub ghost struct ParsedUrlModel {
    pub repo: Seq<char>,
    pub tag: Option<Seq<char>>,
    pub commit: Option<Seq<char>>,
}

impl View for ParsedRepoUrl {
    type V = ParsedUrlModel;

    open spec fn view(&self) -> ParsedUrlModel {
        ParsedUrlModel {
            repo: self.repo@,
            tag: match self.tag {
                Some(t) => Some(t@),
                None => None,
            },
            commit: match self.commit {
                Some(c) => Some(c@),
                None => None,
            },
        }
    }
}

/// A segment of text between two separators: from `from` to the next
/// `sep` at or after `from`, or to the end.
pub open spec fn spec_segment(s: Seq<char>, sep: char, from: int) -> Seq<char> {
    match find_from(s, sep, from) {
        Some(e) => s.subrange(from, e),
        None => s.subrange(from, s.len() as int),
    }
}

/// What parsing a repository URL yields: nothing when the source-host
/// prefix is missing or the path has fewer than two segments;
/// otherwise `owner/name` — the name being what stands before any
/// `#`, with a trailing `.git` stripped — then the ref after `#` and
/// the commit after `@` when present.
pub open spec fn spec_parse_github_url(u: Seq<char>) -> Option<ParsedUrlModel> {
    if !spec_starts_with(u, "https://github.com/"@) {
        None
    } else {
        let rest = u.skip("https://github.com/"@.len() as int);
        match find_from(rest, '/', 0) {
            None => None,
            Some(s) => {
                let owner = rest.subrange(0, s);
                let seg = spec_segment(rest, '/', s + 1);
                let name0 = spec_segment(seg, '#', 0);
                let name = if spec_ends_with(name0, ".git"@) {
                    name0.take(name0.len() - ".git"@.len())
                } else {
                    name0
                };
                let repo = owner + "/"@ + name;
                if name0.len() == seg.len() {
                    Some(ParsedUrlModel { repo, tag: None, commit: None })
                } else {
                    let tc = spec_segment(seg, '#', name0.len() as int + 1);
                    let tag = spec_segment(tc, '@', 0);
                    if tag.len() == tc.len() {
                        Some(ParsedUrlModel { repo, tag: Some(tag), commit: None })
                    } else {
                        let commit = spec_segment(tc, '@', tag.len() as int + 1);
                        Some(ParsedUrlModel { repo, tag: Some(tag), commit: Some(commit) })
                    }
                }
            },
        }
    }
}

/// Extract the segment of `s` that starts at `from` and runs to the
/// next `sep` or the end.
fn segment_exec(s: &str, sep: char, from: usize) -> (r: String)
    requires
        from <= s@.len(),
    ensures
        r@ == spec_segment(s@, sep, from as int),
        r@.len() <= s@.len() - from,
{
    let n = s.unicode_len();
    match find_char(s, sep, from) {
        Some(e) => {
            proof {
                lemma_find_from(s@, sep, from as int);
            }
            substring(s, from, e)
        },
        None => substring(s, from, n),
    }
}

/// Parse a repository URL into its declared parts, without any
/// network traffic.
pub fn parse_github_url(url: &str) -> (r: Result<ParsedRepoUrl, Error>)
    ensures
        match spec_parse_github_url(url@) {
            Some(m) => r matches Ok(p) && p@ == m,
            None => r matches Err(Error::MalformedUrl),
        },
{
    proof {
        reveal_strlit("https://github.com/");
        reveal_strlit(".git");
    }
    if !starts_with(url, "https://github.com/") {
        return Err(Error::MalformedUrl);
    }
    let n = url.unicode_len();
    let rest = substring(url, 19, n);
    let ghost restg = url@.skip("https://github.com/"@.len() as int);
    proof {
        assert(rest@ =~= restg);
    }
    let slash = match find_char(rest.as_str(), '/', 0) {
        Some(s) => s,
        None => {
            return Err(Error::MalformedUrl);
        },
    };
    proof {
        lemma_find_from(rest@, '/', 0);
    }
    let owner = substring(rest.as_str(), 0, slash);
    let seg = segment_exec(rest.as_str(), '/', slash + 1);
    let name0 = segment_exec(seg.as_str(), '#', 0);
    let name = if ends_with(name0.as_str(), ".git") {
        let m = name0.as_str().unicode_len();
        let t = substring(name0.as_str(), 0, m - 4);
        proof {
            assert(t@ =~= name0@.take(name0@.len() - ".git"@.len()));
        }
        t
    } else {
        name0.clone()
    };
    let mut repo = owner;
    repo.append("/");
    repo.append(name.as_str());
    let segn = seg.as_str().unicode_len();
    let nn0 = name0.as_str().unicode_len();
    if nn0 == segn {
        return Ok(ParsedRepoUrl { repo, tag: None, commit: None });
    }
    let tc = segment_exec(seg.as_str(), '#', nn0 + 1);
    let tag = segment_exec(tc.as_str(), '@', 0);
    let cn = tc.as_str().unicode_len();
    let gn = tag.as_str().unicode_len();
    if gn == cn {
        return Ok(ParsedRepoUrl { repo, tag: Some(tag), commit: None });
    }
    let commit = segment_exec(tc.as_str(), '@', gn + 1);
    Ok(ParsedRepoUrl { repo, tag: Some(tag), commit: Some(commit) })
}

/// The ref and commit a pinned repository ends up with: what the URL
/// declared, or what the host API reported for the missing part.
pub open spec fn spec_pinned_tag(p: ParsedUrlModel, branch: Option<Seq<char>>) -> Option<
    Seq<char>,
> {
    if p.tag is Some {
        p.tag
    } else {
        branch
    }
}

pub open spec fn spec_pinned_commit(p: ParsedUrlModel, sha: Option<Seq<char>>) -> Option<
    Seq<char>,
> {
    if p.commit is Some {
        p.commit
    } else {
        sha
    }
}

/// Pin the parsed URL to a concrete repository: the ref defaults to
/// the reported default branch, the commit to the reported object id,
/// and the source subdirectory to `src`.  A commit that is not a
/// forty-digit hexadecimal object id is refused.
pub fn pin_repo(parts: ParsedRepoUrl, branch: Option<String>, sha: Option<String>) -> (r: Result<
    RepoInfo,
    Error,
>)
    requires
        parts@.tag is None ==> branch is Some,
        parts@.commit is None ==> sha is Some,
    ensures
        ({
            let tag = spec_pinned_tag(parts@, match branch {
                Some(b) => Some(b@),
                None => None,
            });
            let commit = spec_pinned_commit(parts@, match sha {
                Some(s) => Some(s@),
                None => None,
            });
            match r {
                Ok(info) => crate::model::spec_commit_ok(commit->Some_0) && info@ == (RepoModel {
                    repo: parts@.repo,
                    tag: tag->Some_0,
                    commit: commit->Some_0,
                    base_dir: "src"@,
                }) && info@.wf(),
                Err(e) => e is MalformedUrl && !crate::model::spec_commit_ok(commit->Some_0),
            }
        }),
{
    let tag = match parts.tag {
        Some(t) => t,
        None => branch.unwrap(),
    };
    let commit = match parts.commit {
        Some(c) => c,
        None => sha.unwrap(),
    };
    if !crate::model::is_hex_commit(commit.as_str()) {
        return Err(Error::MalformedUrl);
    }
    Ok(RepoInfo { repo: parts.repo, tag, commit, base_dir: "src".to_owned() })
}

/// Do all characters of `s` denote decimal digits?
pub open spec fn all_digits(s: Seq<char>) -> bool {
    s.len() > 0 && forall|i: int| 0 <= i < s.len() ==> '0' <= #[trigger] s[i] <= '9'
}

/// Is `s` a dotted numeric triple, as in `0.3.0`?
pub open spec fn spec_is_triple(s: Seq<char>) -> bool {
    match find_from(s, '.', 0) {
        Some(i) => match find_from(s, '.', i + 1) {
            Some(j) => all_digits(s.take(i)) && all_digits(s.subrange(i + 1, j)) && all_digits(
                s.skip(j + 1),
            ),
            None => false,
        },
        None => false,
    }
}

/// The version a repository ref suggests: the ref, a leading `v`
/// stripped, when what remains is a dotted numeric triple.
pub open spec fn spec_guess_version(tag: Seq<char>) -> Option<Seq<char>> {
    let t = if tag.len() > 0 && tag[0] == 'v' {
        tag.drop_first()
    } else {
        tag
    };
    if spec_is_triple(t) {
        Some(t)
    } else {
        None
    }
}

/// Are the characters of `s` from `from` (inclusive) to `to`
/// (exclusive) all decimal digits, with at least one present?
fn digits_exec(s: &str, from: usize, to: usize) -> (r: bool)
    requires
        from <= to <= s@.len(),
    ensures
        r == all_digits(s@.subrange(from as int, to as int)),
{
    let ghost piece = s@.subrange(from as int, to as int);
    if from == to {
        return false;
    }
    let mut i = from;
    while i < to
        invariant
            from <= i <= to <= s@.len(),
            piece == s@.subrange(from as int, to as int),
            forall|j: int| 0 <= j < i - from ==> '0' <= #[trigger] piece[j] <= '9',
        decreases to - i,
    {
        let c = s.get_char(i);
        proof {
            assert(piece[i - from] == s@[i as int]);
        }
        if c < '0' || c > '9' {
            return false;
        }
        i = i + 1;
    }
    true
}

impl RepoInfo {
    /// The version the pinned ref suggests, when it looks like one.
    pub fn guess_version(&self) -> (r: Option<String>)
        ensures
            match (r, spec_guess_version(self@.tag)) {
                (Some(v), Some(m)) => v@ == m,
                (None, None) => true,
                _ => false,
            },
    {
        let tag = self.tag.as_str();
        let n = tag.unicode_len();
        let start: usize = if n > 0 && tag.get_char(0) == 'v' {
            1
        } else {
            0
        };
        let ghost t = if self@.tag.len() > 0 && self@.tag[0] == 'v' {
            self@.tag.drop_first()
        } else {
            self@.tag
        };
        proof {
            assert(t =~= tag@.subrange(start as int, n as int));
        }
        let i = match find_char(tag, '.', start) {
            Some(i) => i,
            None => {
                proof {
                    lemma_shift_find(tag@, '.', start as int, 0);
                }
                return None;
            },
        };
        proof {
            lemma_find_from(tag@, '.', start as int);
        }
        let j = match find_char(tag, '.', i + 1) {
            Some(j) => j,
            None => {
                proof {
                    lemma_shift_find(tag@, '.', start as int, 0);
                    lemma_find_from(tag@, '.', start as int);
                    lemma_shift_find(tag@, '.', start as int, i + 1 - start as int);
                }
                return None;
            },
        };
        proof {
            lemma_find_from(tag@, '.', start as int);
            lemma_find_from(tag@, '.', i as int + 1);
            lemma_shift_find(tag@, '.', start as int, 0);
            lemma_shift_find(tag@, '.', start as int, i + 1 - start as int);
            assert(t.take(i - start) =~= tag@.subrange(start as int, i as int));
            assert(t.subrange(i + 1 - start, j - start) =~= tag@.subrange(i + 1, j as int));
            assert(t.skip(j + 1 - start) =~= tag@.subrange(j + 1, n as int));
        }
        if digits_exec(tag, start, i) && digits_exec(tag, i + 1, j) && digits_exec(tag, j + 1, n) {
            Some(substring(tag, start, n))
        } else {
            None
        }
    }
}

/// Searching a suffix is searching the whole, shifted.
proof fn lemma_shift_find(s: Seq<char>, c: char, off: int, from: int)
    requires
        0 <= off <= s.len(),
        0 <= from <= s.len() - off,
    ensures
        find_from(s.skip(off), c, from) == match find_from(s, c, off + from) {
            Some(i) => Some(i - off),
            None => None::<int>,
        },
    decreases s.len() - off - from,
{
    let t = s.skip(off);
    assert(forall|k: int| 0 <= k < t.len() ==> #[trigger] t[k] == s[off + k]);
    if from < t.len() && t[from] != c {
        lemma_shift_find(s, c, off, from + 1);
    }
}

/// The host-API URL that reports a repository's metadata, among it
/// the default branch.
pub fn branch_api_url(repo: &str) -> (r: String)
    ensures
        r@ == "https://api.github.com/repos/"@ + repo@,
{
    let mut r = "https://api.github.com/repos/".to_owned();
    r.append(repo);
    r
}

/// The host-API URL that reports the commit at a ref.
pub fn commits_api_url(repo: &str, tag: &str) -> (r: String)
    ensures
        r@ == "https://api.github.com/repos/"@ + repo@ + "/commits/"@ + tag@,
{
    let mut r = "https://api.github.com/repos/".to_owned();
    r.append(repo);
    r.append("/commits/");
    r.append(tag);
    r
}

/// The raw-file URL of `file` at the pinned commit.
pub fn raw_file_url(info: &RepoInfo, file: &str) -> (r: String)
    ensures
        r@ == "https://raw.githubusercontent.com/"@ + info@.repo + "/"@ + info@.commit + "/"@
            + file@,
{
    let mut r = "https://raw.githubusercontent.com/".to_owned();
    r.append(info.repo.as_str());
    r.append("/");
    r.append(info.commit.as_str());
    r.append("/");
    r.append(file);
    r
}

/// The default branch named by a repository-metadata response body,
/// a function of the body text alone.
pub uninterp spec fn default_branch_of(body: Seq<char>) -> Option<Seq<char>>;

/// Relies on serde_json: `from_str` to parse the response body, and
/// `Value::get` with `Value::as_str` to read its `default_branch`
/// string field.  The result depends on the body alone.
#[verifier::external_body]
fn json_default_branch(body: &str) -> (r: Option<String>)
    ensures
        match (r, default_branch_of(body@)) {
            (Some(s), Some(m)) => s@ == m,
            (None, None) => true,
            _ => false,
        },
{
    let v: serde_json::Value = serde_json::from_str(body).ok()?;
    Some(v.get("default_branch")?.as_str()?.to_string())
}

/// The commit object id named by a commits-endpoint response body, a
/// function of the body text alone.
pub uninterp spec fn commit_sha_of(body: Seq<char>) -> Option<Seq<char>>;

/// Relies on serde_json: `from_str` to parse the response body, and
/// `Value::get` with `Value::as_str` to read its `sha` string field.
/// The result depends on the body alone.
#[verifier::external_body]
fn json_commit_sha(body: &str) -> (r: Option<String>)
    ensures
        match (r, commit_sha_of(body@)) {
            (Some(s), Some(m)) => s@ == m,
            (None, None) => true,
            _ => false,
        },
{
    let v: serde_json::Value = serde_json::from_str(body).ok()?;
    Some(v.get("sha")?.as_str()?.to_string())
}

/// Read the default branch out of a repository-metadata response; a
/// body of another shape is surfaced verbatim as a decode error.
pub fn branch_from_response(body: &str) -> (r: Result<String, Error>)
    ensures
        match default_branch_of(body@) {
            Some(b) => r matches Ok(s) && s@ == b,
            None => r matches Err(Error::Decode(m)) && m@ == body@,
        },
{
    match json_default_branch(body) {
        Some(s) => Ok(s),
        None => Err(Error::Decode(body.to_owned())),
    }
}

/// Read the commit id out of a commits-endpoint response; a body of
/// another shape is surfaced verbatim as a decode error.
pub fn sha_from_response(body: &str) -> (r: Result<String, Error>)
    ensures
        match commit_sha_of(body@) {
            Some(c) => r matches Ok(s) && s@ == c,
            None => r matches Err(Error::Decode(m)) && m@ == body@,
        },
{
    match json_commit_sha(body) {
        Some(s) => Ok(s),
        None => Err(Error::Decode(body.to_owned())),
    }
}

/// A raw-file body that begins with `404: Not Found` marks an absent
/// file; any other body is the file's text.
pub fn body_or_not_found(body: String) -> (r: Result<String, Error>)
    ensures
        if spec_starts_with(body@, "404: Not Found"@) {
            r matches Err(Error::NotFound(m)) && m@ == "file not found"@
        } else {
            r matches Ok(b) && b@ == body@
        },
{
    if starts_with(body.as_str(), "404: Not Found") {
        Err(Error::NotFound("file not found".to_owned()))
    } else {
        Ok(body)
    }
}

} // verus!
