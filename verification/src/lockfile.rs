//! The lockfile codec: the records as one array of tables under the
//! key `package`, preceded by a two-line comment header marking the
//! file as generated.  Serialization is a function of the records
//! alone, so equal inputs give byte-identical lockfiles; parsing is
//! its exact inverse.

use vstd::prelude::*;
use crate::error::Error;
use crate::model::{Package, PackageModel, RepoInfo, RepoModel};
use crate::text::{spec_join, lemma_join_snoc, spec_unlines, spec_lines, join_lines, split_lines,
    lemma_lines_unlines, find_from, lemma_find_from, lemma_find_from_hit, find_char, str_eq,
    starts_with, spec_starts_with, substring};

verus! {

/// The first header line.
pub open spec fn spec_header_one() -> Seq<char> {
    "# This file is auto-generated by mops."@
}

/// The second header line.
pub open spec fn spec_header_two() -> Seq<char> {
    "# It is not intended for manual editing."@
}

/// A scalar field line: the key, ` = `, and the value in quotes.
pub open spec fn spec_kv_line(key: Seq<char>, val: Seq<char>) -> Seq<char> {
    key + " = \""@ + val + "\""@
}

/// The nested repository table, inline on one line.
pub open spec fn spec_repo_line(r: RepoModel) -> Seq<char> {
    "repo = { repo = \""@ + r.repo + "\", tag = \""@ + r.tag + "\", commit = \""@ + r.commit
        + "\", base_dir = \""@ + r.base_dir + "\" }"@
}

/// The dependency list: DisplayKeys, quoted, comma-separated.
pub open spec fn spec_deps_line(ds: Seq<Seq<char>>) -> Seq<char> {
    if ds.len() == 0 {
        "dependencies = []"@
    } else {
        "dependencies = [\""@ + spec_join(ds, "\", \""@) + "\"]"@
    }
}

/// The lines of one record: the table header and its fields, the
/// optional ones present exactly when the record carries them.
pub open spec fn spec_package_lines(p: PackageModel) -> Seq<Seq<char>> {
    seq!["[[package]]"@, spec_kv_line("name"@, p.name)] + (match p.version {
        Some(v) => seq![spec_kv_line("version"@, v)],
        None => Seq::<Seq<char>>::empty(),
    }) + seq![spec_kv_line("source"@, p.source), spec_kv_line("base_dir"@, p.base_dir)] + (
    match p.repo {
        Some(r) => seq![spec_repo_line(r)],
        None => Seq::<Seq<char>>::empty(),
    }) + seq![spec_deps_line(p.dependencies)]
}

/// The record blocks, each preceded by a blank line.
pub open spec fn spec_lock_blocks(ps: Seq<PackageModel>) -> Seq<Seq<char>>
    decreases ps.len(),
{
    if ps.len() == 0 {
        Seq::empty()
    } else {
        spec_lock_blocks(ps.drop_last()) + seq![Seq::<char>::empty()] + spec_package_lines(
            ps.last(),
        )
    }
}

/// All lines of the lockfile: header, blocks, and a final empty line
/// so the text ends in a newline.
pub open spec fn spec_lock_lines(ps: Seq<PackageModel>) -> Seq<Seq<char>> {
    seq![spec_header_one(), spec_header_two()] + spec_lock_blocks(ps) + seq![Seq::<char>::empty()]
}

/// The lockfile text of the records: a function of the records alone.
pub open spec fn spec_serialize_lock(ps: Seq<PackageModel>) -> Seq<char> {
    spec_unlines(spec_lock_lines(ps))
}

/// Render one scalar field line.
fn kv_line(key: &str, val: &str) -> (r: String)
    ensures
        r@ == spec_kv_line(key@, val@),
{
    let mut r = key.to_owned();
    r.append(" = \"");
    r.append(val);
    r.append("\"");
    r
}

/// Render the inline repository table.
fn repo_line(info: &RepoInfo) -> (r: String)
    ensures
        r@ == spec_repo_line(info@),
{
    let mut r = "repo = { repo = \"".to_owned();
    r.append(info.repo.as_str());
    r.append("\", tag = \"");
    r.append(info.tag.as_str());
    r.append("\", commit = \"");
    r.append(info.commit.as_str());
    r.append("\", base_dir = \"");
    r.append(info.base_dir.as_str());
    r.append("\" }");
    r
}

/// Render the dependency list line.
fn deps_line(ds: &Vec<String>) -> (r: String)
    ensures
        r@ == spec_deps_line(ds.deep_view()),
{
    let n = ds.len();
    if n == 0 {
        proof {
            assert(ds.deep_view().len() == 0);
        }
        return "dependencies = []".to_owned();
    }
    let mut r = "dependencies = [\"".to_owned();
    r.append(ds[0].as_str());
    let mut i: usize = 1;
    let ghost items = ds.deep_view();
    while i < n
        invariant
            1 <= i <= n,
            n == ds@.len(),
            items == ds.deep_view(),
            items.len() == n,
            r@ == "dependencies = [\""@ + spec_join(items.take(i as int), "\", \""@),
        decreases n - i,
    {
        r.append("\", \"");
        r.append(ds[i].as_str());
        proof {
            lemma_join_snoc(items.take(i as int), "\", \""@, items[i as int]);
            assert(items.take(i as int).push(items[i as int]) =~= items.take(i as int + 1));
            assert(r@ =~= "dependencies = [\""@ + spec_join(items.take(i as int + 1), "\", \""@));
        }
        i = i + 1;
    }
    r.append("\"]");
    proof {
        assert(items.take(n as int) =~= items);
        assert(r@ =~= spec_deps_line(items));
    }
    r
}

/// Render the lines of one record.
pub fn package_lines(p: &Package) -> (r: Vec<String>)
    ensures
        r.deep_view() == spec_package_lines(p@),
{
    let mut r: Vec<String> = Vec::new();
    r.push("[[package]]".to_owned());
    r.push(kv_line("name", p.name.as_str()));
    match &p.version {
        Some(v) => {
            r.push(kv_line("version", v.as_str()));
        },
        None => {},
    }
    r.push(kv_line("source", p.source.as_str()));
    r.push(kv_line("base_dir", p.base_dir.as_str()));
    match &p.repo {
        Some(info) => {
            r.push(repo_line(info));
        },
        None => {},
    }
    r.push(deps_line(&p.dependencies));
    proof {
        assert(r.deep_view() =~= spec_package_lines(p@));
    }
    r
}

/// Serialize the records to the lockfile text.  Given equal record
/// sequences the text is byte-identical: it is a function of them.
/// The records must be representable — well-formed, fields free of
/// quotes and newlines — so that everything written parses back.
pub fn serialize_lock(pkgs: &Vec<Package>) -> (r: String)
    requires
        forall|i: int| 0 <= i < pkgs.deep_view().len() ==> lock_wf(#[trigger] pkgs.deep_view()[i]),
    ensures
        r@ == spec_serialize_lock(pkgs.deep_view()),
{
    let mut lines: Vec<String> = Vec::new();
    lines.push("# This file is auto-generated by mops.".to_owned());
    lines.push("# It is not intended for manual editing.".to_owned());
    let ghost ps = pkgs.deep_view();
    let n = pkgs.len();
    let mut i: usize = 0;
    proof {
        assert(lines.deep_view() =~= seq![spec_header_one(), spec_header_two()]
            + spec_lock_blocks(ps.take(0)));
    }
    while i < n
        invariant
            0 <= i <= n,
            n == pkgs@.len(),
            ps == pkgs.deep_view(),
            ps.len() == n,
            lines.deep_view() == seq![spec_header_one(), spec_header_two()] + spec_lock_blocks(
                ps.take(i as int),
            ),
        decreases n - i,
    {
        lines.push(String::new());
        let mut block = package_lines(&pkgs[i]);
        let ghost blockg = spec_package_lines(ps[i as int]);
        let ghost mut k: int = 0;
        while block.len() > 0
            invariant
                0 <= k <= blockg.len(),
                block.deep_view() == blockg.skip(k),
                lines.deep_view() == seq![spec_header_one(), spec_header_two()]
                    + spec_lock_blocks(ps.take(i as int)) + seq![Seq::<char>::empty()]
                    + blockg.take(k),
            decreases block@.len(),
        {
            let ghost prev = block.deep_view();
            let ghost lprev = lines.deep_view();
            let l = block.remove(0);
            lines.push(l);
            proof {
                assert(block.deep_view() =~= prev.drop_first());
                assert(prev.drop_first() =~= blockg.skip(k + 1));
                assert(l@ == prev[0]);
                assert(prev[0] == blockg[k]);
                assert(lines.deep_view() =~= lprev.push(blockg[k]));
                assert(lines.deep_view() =~= seq![spec_header_one(), spec_header_two()]
                    + spec_lock_blocks(ps.take(i as int)) + seq![Seq::<char>::empty()]
                    + blockg.take(k + 1));
                k = k + 1;
            }
        }
        proof {
            assert(blockg.take(k) =~= blockg);
            assert(ps.take(i as int + 1).drop_last() =~= ps.take(i as int));
            assert(ps.take(i as int + 1).last() == ps[i as int]);
            assert(lines.deep_view() =~= seq![spec_header_one(), spec_header_two()]
                + spec_lock_blocks(ps.take(i as int + 1)));
        }
        i = i + 1;
    }
    lines.push(String::new());
    proof {
        assert(ps.take(n as int) =~= ps);
        assert(lines.deep_view() =~= spec_lock_lines(ps));
    }
    join_lines(&lines)
}

/// Serialize one record alone, as conflict diagnostics show it.
pub fn serialize_package(p: &Package) -> (r: String)
    requires
        lock_wf(p@),
    ensures
        r@ == spec_unlines(spec_package_lines(p@)),
{
    let lines = package_lines(p);
    proof {
        assert(lines.deep_view().len() > 0);
    }
    join_lines(&lines)
}

/// Text that can stand inside quotes on one line: no quote, no
/// newline.
pub open spec fn text_ok(s: Seq<char>) -> bool {
    forall|i: int| 0 <= i < s.len() ==> #[trigger] s[i] != '"' && s[i] != '\n'
}

/// A record the codec round-trips: well-formed, every field fit for a
/// quoted single-line value.
pub open spec fn lock_wf(p: PackageModel) -> bool {
    &&& p.wf()
    &&& text_ok(p.name)
    &&& (p.version matches Some(v) ==> text_ok(v))
    &&& text_ok(p.source)
    &&& text_ok(p.base_dir)
    &&& (p.repo matches Some(r) ==> text_ok(r.repo) && text_ok(r.tag) && text_ok(r.commit)
        && text_ok(r.base_dir))
    &&& forall|i: int| 0 <= i < p.dependencies.len() ==> text_ok(#[trigger] p.dependencies[i])
}

/// Does `lit` stand in `line` at `pos`?
pub open spec fn spec_lit_at(line: Seq<char>, pos: int, lit: Seq<char>) -> bool {
    0 <= pos && pos + lit.len() <= line.len() && line.subrange(pos, pos + lit.len()) == lit
}

pub fn lit_at(line: &str, pos: usize, lit: &str) -> (r: bool)
    requires
        pos <= line@.len(),
    ensures
        r == spec_lit_at(line@, pos as int, lit@),
{
    let n = line.unicode_len();
    let m = lit.unicode_len();
    if n - pos < m {
        return false;
    }
    let mut i: usize = 0;
    while i < m
        invariant
            0 <= i <= m,
            m == lit@.len(),
            n == line@.len(),
            pos + m <= n,
            forall|j: int| 0 <= j < i ==> line@[pos + j] == lit@[j],
        decreases m - i,
    {
        if line.get_char(pos + i) != lit.get_char(i) {
            proof {
                assert(line@.subrange(pos as int, pos + m)[i as int] != lit@[i as int]);
            }
            return false;
        }
        i = i + 1;
    }
    proof {
        assert(line@.subrange(pos as int, pos + m) =~= lit@);
    }
    true
}

/// The quoted run from `pos` to the next quote, and the position
/// just past that quote.
pub open spec fn spec_quoted_at(line: Seq<char>, pos: int) -> Option<(Seq<char>, int)> {
    match find_from(line, '"', pos) {
        Some(e) => Some((line.subrange(pos, e), e + 1)),
        None => None,
    }
}

pub fn quoted_at(line: &str, pos: usize) -> (r: Option<(String, usize)>)
    requires
        pos <= line@.len(),
    ensures
        match r {
            Some(p) => spec_quoted_at(line@, pos as int) == Some((p.0@, p.1 as int)) && p.1
                <= line@.len(),
            None => spec_quoted_at(line@, pos as int) is None,
        },
{
    let n = line.unicode_len();
    match find_char(line, '"', pos) {
        Some(e) => {
            proof {
                lemma_find_from(line@, '"', pos as int);
            }
            let v = substring(line, pos, e);
            Some((v, e + 1))
        },
        None => None,
    }
}

/// Scanning text that holds a clear run, a quote, and a remainder
/// finds exactly the run.
pub proof fn lemma_quoted_of(line: Seq<char>, pos: int, v: Seq<char>, rest: Seq<char>)
    requires
        0 <= pos <= line.len(),
        line.skip(pos) == v + seq!['"'] + rest,
        text_ok(v),
    ensures
        spec_quoted_at(line, pos) == Some((v, pos + v.len() + 1)),
{
    let e = pos + v.len() as int;
    let sk = line.skip(pos);
    assert(sk.len() == line.len() - pos);
    assert(sk.len() == v.len() + 1 + rest.len());
    assert(e < line.len());
    assert(forall|k: int| 0 <= k < sk.len() ==> #[trigger] sk[k] == line[pos + k]);
    assert(sk[v.len() as int] == (v + seq!['"'] + rest)[v.len() as int]);
    assert(line[e] == '"');
    assert(forall|j: int| pos <= j < e ==> line[j] == sk[j - pos]);
    assert(forall|j: int| pos <= j < e ==> line[j] != '"');
    lemma_find_from_hit(line, '"', pos, e);
    assert(line.subrange(pos, e) =~= v);
}

/// Parse one scalar field line of the given key.
pub open spec fn spec_parse_kv(line: Seq<char>, key: Seq<char>) -> Option<Seq<char>> {
    let pre = key + " = \""@;
    if spec_lit_at(line, 0, pre) && line.len() >= pre.len() + 1 && line.last() == '"' && (
    forall|j: int| pre.len() <= j < line.len() - 1 ==> line[j] != '"') {
        Some(line.subrange(pre.len() as int, line.len() - 1))
    } else {
        None
    }
}

pub fn parse_kv(line: &str, key: &str) -> (r: Option<String>)
    ensures
        match r {
            Some(v) => spec_parse_kv(line@, key@) == Some(v@),
            None => spec_parse_kv(line@, key@) is None,
        },
{
    proof {
        reveal_strlit(" = \"");
        reveal_strlit("\"");
    }
    let mut pre = key.to_owned();
    pre.append(" = \"");
    let n = line.unicode_len();
    let m = pre.as_str().unicode_len();
    if !lit_at(line, 0, pre.as_str()) {
        return None;
    }
    if n <= m || line.get_char(n - 1) != '"' {
        return None;
    }
    let mut j = m;
    while j < n - 1
        invariant
            m <= j <= n - 1,
            n == line@.len(),
            m == key@.len() + " = \""@.len(),
            forall|k: int| m <= k < j ==> line@[k] != '"',
        decreases n - j,
    {
        if line.get_char(j) == '"' {
            return None;
        }
        j = j + 1;
    }
    Some(substring(line, m, n - 1))
}

/// A field line of one key never parses as a field line of another.
pub proof fn lemma_kv_distinct(line: Seq<char>, k1: Seq<char>, k2: Seq<char>)
    requires
        k1.len() > 0,
        k2.len() > 0,
        k1[0] != k2[0],
        spec_parse_kv(line, k1) is Some,
    ensures
        spec_parse_kv(line, k2) is None,
{
    let p1 = k1 + " = \""@;
    let p2 = k2 + " = \""@;
    assert(line.subrange(0, p1.len() as int)[0] == line[0]);
    assert(line[0] == k1[0]);
    if spec_lit_at(line, 0, p2) {
        assert(line.subrange(0, p2.len() as int)[0] == line[0]);
        assert(line[0] == k2[0]);
        assert(false);
    }
}

/// Rendering a field line and parsing it under the same key gives the
/// value back.
pub proof fn lemma_kv_roundtrip(key: Seq<char>, val: Seq<char>)
    requires
        text_ok(val),
    ensures
        spec_parse_kv(spec_kv_line(key, val), key) == Some(val),
{
    reveal_strlit(" = \"");
    reveal_strlit("\"");
    let pre = key + " = \""@;
    let line = spec_kv_line(key, val);
    assert(line.subrange(0, pre.len() as int) =~= pre);
    assert(line.last() == '"');
    assert(forall|j: int|
        pre.len() <= j < line.len() - 1 ==> line[j] == val[j - pre.len()]);
    assert(line.subrange(pre.len() as int, line.len() - 1) =~= val);
}

/// Parse the inline repository table.
pub open spec fn spec_parse_repo(line: Seq<char>) -> Option<RepoModel> {
    let l1 = "repo = { repo = \""@;
    let l2 = ", tag = \""@;
    let l3 = ", commit = \""@;
    let l4 = ", base_dir = \""@;
    let l5 = " }"@;
    if !spec_lit_at(line, 0, l1) {
        None
    } else {
        match spec_quoted_at(line, l1.len() as int) {
            None => None,
            Some((repo, p1)) => if !spec_lit_at(line, p1, l2) {
                None
            } else {
                match spec_quoted_at(line, p1 + l2.len()) {
                    None => None,
                    Some((tag, p2)) => if !spec_lit_at(line, p2, l3) {
                        None
                    } else {
                        match spec_quoted_at(line, p2 + l3.len()) {
                            None => None,
                            Some((commit, p3)) => if !spec_lit_at(line, p3, l4) {
                                None
                            } else {
                                match spec_quoted_at(line, p3 + l4.len()) {
                                    None => None,
                                    Some((base_dir, p4)) => if p4 + l5.len() == line.len()
                                        && spec_lit_at(line, p4, l5) {
                                        Some(RepoModel { repo, tag, commit, base_dir })
                                    } else {
                                        None
                                    },
                                }
                            },
                        }
                    },
                }
            },
        }
    }
}

pub fn parse_repo_line(line: &str) -> (r: Option<RepoInfo>)
    ensures
        match r {
            Some(info) => spec_parse_repo(line@) == Some(info@),
            None => spec_parse_repo(line@) is None,
        },
{
    proof {
        reveal_strlit("repo = { repo = \"");
        reveal_strlit(", tag = \"");
        reveal_strlit(", commit = \"");
        reveal_strlit(", base_dir = \"");
        reveal_strlit(" }");
    }
    let n = line.unicode_len();
    if !lit_at(line, 0, "repo = { repo = \"") {
        return None;
    }
    let (repo, p1) = match quoted_at(line, 17) {
        Some(x) => x,
        None => {
            return None;
        },
    };
    if !lit_at(line, p1, ", tag = \"") {
        return None;
    }
    let (tag, p2) = match quoted_at(line, p1 + 9) {
        Some(x) => x,
        None => {
            return None;
        },
    };
    if !lit_at(line, p2, ", commit = \"") {
        return None;
    }
    let (commit, p3) = match quoted_at(line, p2 + 12) {
        Some(x) => x,
        None => {
            return None;
        },
    };
    if !lit_at(line, p3, ", base_dir = \"") {
        return None;
    }
    let (base_dir, p4) = match quoted_at(line, p3 + 14) {
        Some(x) => x,
        None => {
            return None;
        },
    };
    if p4 <= n && n - p4 == 2 && lit_at(line, p4, " }") {
        Some(RepoInfo { repo, tag, commit, base_dir })
    } else {
        None
    }
}

/// Rendering the repository table and parsing it gives the pin back.
#[verifier::rlimit(100)]
pub proof fn lemma_repo_roundtrip(info: RepoModel)
    requires
        text_ok(info.repo),
        text_ok(info.tag),
        text_ok(info.commit),
        text_ok(info.base_dir),
    ensures
        spec_parse_repo(spec_repo_line(info)) == Some(info),
{
    reveal_strlit("repo = { repo = \"");
    reveal_strlit(", tag = \"");
    reveal_strlit(", commit = \"");
    reveal_strlit(", base_dir = \"");
    reveal_strlit(" }");
    reveal_strlit("\", tag = \"");
    reveal_strlit("\", commit = \"");
    reveal_strlit("\", base_dir = \"");
    reveal_strlit("\" }");
    let l1 = "repo = { repo = \""@;
    let l2 = ", tag = \""@;
    let l3 = ", commit = \""@;
    let l4 = ", base_dir = \""@;
    let l5 = " }"@;
    let q = seq!['"'];
    let line = spec_repo_line(info);
    assert(line =~= l1 + info.repo + q + l2 + info.tag + q + l3 + info.commit + q + l4
        + info.base_dir + q + l5);
    assert(line.subrange(0, l1.len() as int) =~= l1);
    let rest1 = l2 + info.tag + q + l3 + info.commit + q + l4 + info.base_dir + q + l5;
    assert(line.skip(l1.len() as int) =~= info.repo + q + rest1);
    lemma_quoted_of(line, l1.len() as int, info.repo, rest1);
    let p1: int = l1.len() as int + info.repo.len() as int + 1;
    assert(line.subrange(p1, p1 + l2.len() as int) =~= l2);
    let rest2 = l3 + info.commit + q + l4 + info.base_dir + q + l5;
    assert(line.skip(p1 + l2.len() as int) =~= info.tag + q + rest2);
    lemma_quoted_of(line, p1 + l2.len() as int, info.tag, rest2);
    let p2: int = p1 + l2.len() as int + info.tag.len() as int + 1;
    assert(line.subrange(p2, p2 + l3.len() as int) =~= l3);
    let rest3 = l4 + info.base_dir + q + l5;
    assert(line.skip(p2 + l3.len() as int) =~= info.commit + q + rest3);
    lemma_quoted_of(line, p2 + l3.len() as int, info.commit, rest3);
    let p3: int = p2 + l3.len() as int + info.commit.len() as int + 1;
    assert(line.subrange(p3, p3 + l4.len() as int) =~= l4);
    assert(line.skip(p3 + l4.len() as int) =~= info.base_dir + q + l5);
    lemma_quoted_of(line, p3 + l4.len() as int, info.base_dir, l5);
    let p4: int = p3 + l4.len() as int + info.base_dir.len() as int + 1;
    assert(line.subrange(p4, p4 + l5.len() as int) =~= l5);
    assert(p4 + l5.len() as int == line.len());
}

/// Parse a comma-separated run of quoted values.
pub open spec fn spec_parse_list(s: Seq<char>) -> Option<Seq<Seq<char>>>
    decreases s.len(),
{
    if s.len() == 0 {
        Some(Seq::empty())
    } else if s[0] != '"' {
        None
    } else {
        match find_from(s, '"', 1) {
            Some(e) => if 1 <= e < s.len() {
                let v = s.subrange(1, e);
                if e + 1 == s.len() {
                    Some(seq![v])
                } else if e + 3 <= s.len() && spec_lit_at(s, e + 1, ", "@) {
                    match spec_parse_list(s.skip(e + 3)) {
                        Some(r) => Some(seq![v] + r),
                        None => None,
                    }
                } else {
                    None
                }
            } else {
                None
            },
            None => None,
        }
    }
}

/// Parse the dependency list line.
pub open spec fn spec_parse_deps(line: Seq<char>) -> Option<Seq<Seq<char>>> {
    let pre = "dependencies = ["@;
    if spec_lit_at(line, 0, pre) && line.len() > pre.len() && line.last() == ']' {
        spec_parse_list(line.subrange(pre.len() as int, line.len() - 1))
    } else {
        None
    }
}

pub fn parse_deps_line(line: &str) -> (r: Option<Vec<String>>)
    ensures
        match r {
            Some(ds) => spec_parse_deps(line@) == Some(ds.deep_view()),
            None => spec_parse_deps(line@) is None,
        },
{
    proof {
        reveal_strlit("dependencies = [");
        reveal_strlit(", ");
    }
    let n = line.unicode_len();
    if !lit_at(line, 0, "dependencies = [") {
        return None;
    }
    if n <= 16 || line.get_char(n - 1) != ']' {
        return None;
    }
    let inner = substring(line, 16, n - 1);
    let ghost inn = inner@;
    let m = inner.as_str().unicode_len();
    let mut out: Vec<String> = Vec::new();
    let mut pos: usize = 0;
    proof {
        assert(out.deep_view() =~= Seq::<Seq<char>>::empty());
        assert(inn.skip(0) =~= inn);
    }
    proof {
        assert(inn =~= line@.subrange(16, line@.len() - 1));
        assert(spec_parse_deps(line@) == spec_parse_list(inn));
    }
    loop
        invariant
            0 <= pos <= m,
            m == inn.len(),
            inn == inner@,
            spec_parse_deps(line@) == spec_parse_list(inn),
            match spec_parse_list(inn.skip(pos as int)) {
                Some(rest) => spec_parse_list(inn) == Some(out.deep_view() + rest),
                None => spec_parse_list(inn) is None,
            },
        decreases m - pos,
    {
        proof {
            reveal_strlit(", ");
        }
        let ghost tail = inn.skip(pos as int);
        if pos == m {
            proof {
                assert(tail.len() == 0);
                assert(out.deep_view() + Seq::<Seq<char>>::empty() =~= out.deep_view());
            }
            return Some(out);
        }
        if inner.as_str().get_char(pos) != '"' {
            proof {
                assert(tail[0] == inn[pos as int]);
            }
            return None;
        }
        proof {
            assert(tail[0] == inn[pos as int]);
            lemma_shift_find_quote(inn, pos as int + 1);
        }
        let e = match find_char(inner.as_str(), '"', pos + 1) {
            Some(e) => e,
            None => {
                return None;
            },
        };
        proof {
            lemma_find_from(inn, '"', pos as int + 1);
        }
        let v = substring(inner.as_str(), pos + 1, e);
        proof {
            assert(v@ =~= tail.subrange(1, e - pos as int));
        }
        let ghost pre_out = out.deep_view();
        if e + 1 == m {
            out.push(v);
            proof {
                assert(out.deep_view() =~= pre_out.push(v@));
                assert(spec_parse_list(tail) == Some(seq![v@]));
                assert(pre_out + seq![v@] =~= out.deep_view());
                assert(out.deep_view() + Seq::<Seq<char>>::empty() =~= out.deep_view());
                assert(inn.skip(m as int).len() == 0);
            }
            pos = m;
        } else {
            if !lit_at(inner.as_str(), e + 1, ", ") {
                proof {
                    assert(forall|k: int|
                        0 <= k < tail.len() ==> #[trigger] tail[k] == inn[pos + k]);
                    if spec_lit_at(tail, e - pos as int + 1, ", "@) {
                        assert(tail.subrange(e - pos as int + 1, e - pos as int + 3) =~= inn
                            .subrange(e as int + 1, e as int + 3));
                        assert(spec_lit_at(inn, e as int + 1, ", "@));
                    }
                }
                return None;
            }
            out.push(v);
            proof {
                assert(out.deep_view() =~= pre_out.push(v@));
                assert(inn.subrange(e as int + 1, e as int + 3) =~= tail.subrange(
                    e - pos as int + 1,
                    e - pos as int + 3,
                ));
                assert(spec_lit_at(tail, e - pos as int + 1, ", "@));
                assert(tail.skip(e - pos as int + 3) =~= inn.skip(e as int + 3));
                assert(spec_parse_list(tail) == (match spec_parse_list(inn.skip(e as int + 3)) {
                    Some(r) => Some(seq![v@] + r),
                    None => None::<Seq<Seq<char>>>,
                }));
                assert(pre_out + (seq![v@]) =~= out.deep_view());
                if spec_parse_list(inn.skip(e as int + 3)) is Some {
                    assert(pre_out + (seq![v@] + spec_parse_list(
                        inn.skip(e as int + 3),
                    )->Some_0) =~= out.deep_view() + spec_parse_list(inn.skip(e as int + 3))->Some_0);
                }
            }
            pos = e + 3;
        }
    }
}

/// Searching a suffix for a quote is searching the whole, shifted.
proof fn lemma_shift_find_quote(s: Seq<char>, from: int)
    requires
        0 <= from,
    ensures
        forall|pos: int|
            0 <= pos < from <= s.len() ==> find_from(s.skip(pos), '"', from - pos)
                == (match find_from(s, '"', from) {
                Some(i) => Some(i - pos),
                None => None::<int>,
            }),
{
    assert forall|pos: int| 0 <= pos < from <= s.len() implies find_from(s.skip(pos), '"', from
        - pos) == (match find_from(s, '"', from) {
        Some(i) => Some(i - pos),
        None => None::<int>,
    }) by {
        lemma_shift_find_at(s, pos, from - pos);
    }
}

proof fn lemma_shift_find_at(s: Seq<char>, off: int, from: int)
    requires
        0 <= off <= s.len(),
        0 <= from <= s.len() - off,
    ensures
        find_from(s.skip(off), '"', from) == (match find_from(s, '"', off + from) {
            Some(i) => Some(i - off),
            None => None::<int>,
        }),
    decreases s.len() - off - from,
{
    let t = s.skip(off);
    assert(forall|k: int| 0 <= k < t.len() ==> #[trigger] t[k] == s[off + k]);
    if from < t.len() && t[from] != '"' {
        lemma_shift_find_at(s, off, from + 1);
    }
}

/// Parse the lines of one record, after its table-header line; the
/// count of lines consumed comes back beside the record.
pub open spec fn spec_parse_block(ls: Seq<Seq<char>>) -> Option<(PackageModel, int)> {
    if ls.len() < 1 {
        None
    } else {
        match spec_parse_kv(ls[0], "name"@) {
            None => None,
            Some(name) => {
                let has_version = 1 < ls.len() && spec_parse_kv(ls[1], "version"@) is Some;
                let version = if has_version {
                    spec_parse_kv(ls[1], "version"@)
                } else {
                    None
                };
                let i: int = if has_version {
                    2
                } else {
                    1
                };
                if ls.len() < i + 3 {
                    None
                } else {
                    match (spec_parse_kv(ls[i], "source"@), spec_parse_kv(ls[i + 1], "base_dir"@)) {
                        (Some(source), Some(base_dir)) => {
                            let has_repo = spec_parse_repo(ls[i + 2]) is Some;
                            let repo = if has_repo {
                                spec_parse_repo(ls[i + 2])
                            } else {
                                None
                            };
                            let j: int = if has_repo {
                                i + 3
                            } else {
                                i + 2
                            };
                            if ls.len() < j + 1 {
                                None
                            } else {
                                match spec_parse_deps(ls[j]) {
                                    Some(ds) => {
                                        let p = PackageModel {
                                            name,
                                            version,
                                            source,
                                            base_dir,
                                            repo,
                                            dependencies: ds,
                                        };
                                        if p.wf() {
                                            Some((p, j + 1))
                                        } else {
                                            None
                                        }
                                    },
                                    None => None,
                                }
                            }
                        },
                        _ => None,
                    }
                }
            },
        }
    }
}

/// Is every character of `s` fit for a quoted single-line value?
fn text_ok_exec(s: &str) -> (r: bool)
    ensures
        r == text_ok(s@),
{
    let n = s.unicode_len();
    let mut i: usize = 0;
    while i < n
        invariant
            0 <= i <= n,
            n == s@.len(),
            forall|j: int| 0 <= j < i ==> #[trigger] s@[j] != '"' && s@[j] != '\n',
        decreases n - i,
    {
        let c = s.get_char(i);
        if c == '"' || c == '\n' {
            return false;
        }
        i = i + 1;
    }
    true
}

/// Can the codec carry this record: well-formed, every field fit for
/// a quoted single-line value?
pub fn is_lock_wf(p: &Package) -> (r: bool)
    ensures
        r == lock_wf(p@),
{
    if !package_ok(p) {
        return false;
    }
    if !text_ok_exec(p.name.as_str()) || !text_ok_exec(p.source.as_str()) || !text_ok_exec(
        p.base_dir.as_str(),
    ) {
        return false;
    }
    match &p.version {
        Some(v) => {
            if !text_ok_exec(v.as_str()) {
                return false;
            }
        },
        None => {},
    }
    match &p.repo {
        Some(info) => {
            if !text_ok_exec(info.repo.as_str()) || !text_ok_exec(info.tag.as_str())
                || !text_ok_exec(info.commit.as_str()) || !text_ok_exec(info.base_dir.as_str()) {
                return false;
            }
        },
        None => {},
    }
    let n = p.dependencies.len();
    let mut i: usize = 0;
    while i < n
        invariant
            0 <= i <= n,
            n == p.dependencies@.len(),
            forall|j: int| 0 <= j < i ==> text_ok(#[trigger] p.dependencies.deep_view()[j]),
        decreases n - i,
    {
        proof {
            assert(p.dependencies.deep_view()[i as int] == p.dependencies@[i as int]@);
        }
        if !text_ok_exec(p.dependencies[i].as_str()) {
            proof {
                assert(!text_ok(p@.dependencies[i as int]));
                assert(!lock_wf(p@));
            }
            return false;
        }
        i = i + 1;
    }
    true
}

/// Does the record carry what its kind relies on?
fn package_ok(p: &Package) -> (r: bool)
    ensures
        r == p@.wf(),
{
    if starts_with(p.source.as_str(), "file://") {
        true
    } else if str_eq(p.source.as_str(), "github") {
        match &p.repo {
            Some(info) => crate::model::is_hex_commit(info.commit.as_str()),
            None => false,
        }
    } else {
        match &p.version {
            Some(v) => true,
            None => false,
        }
    }
}

/// Parse one record's lines starting at `at`.
fn parse_block_at(lines: &Vec<String>, at: usize) -> (r: Option<(Package, usize)>)
    requires
        at <= lines@.len(),
    ensures
        match r {
            Some(pu) => spec_parse_block(lines.deep_view().skip(at as int)) == Some(
                (pu.0@, pu.1 as int),
            ) && at + pu.1 <= lines@.len() && pu.1 >= 1,
            None => spec_parse_block(lines.deep_view().skip(at as int)) is None,
        },
{
    let ghost ls = lines.deep_view().skip(at as int);
    let n = lines.len();
    proof {
        assert(forall|k: int|
            0 <= k < ls.len() ==> #[trigger] ls[k] == lines.deep_view()[at + k]);
        assert(forall|k: int|
            0 <= k < ls.len() ==> #[trigger] lines.deep_view()[at + k] == lines@[at + k]@);
    }
    if at >= n {
        return None;
    }
    let name = match parse_kv(lines[at].as_str(), "name") {
        Some(v) => v,
        None => {
            return None;
        },
    };
    let mut i = at + 1;
    let mut version: Option<String> = None;
    if i < n {
        match parse_kv(lines[i].as_str(), "version") {
            Some(v) => {
                version = Some(v);
                i = i + 1;
            },
            None => {},
        }
    }
    let ghost si: int = i - at;
    if n - i < 3 {
        return None;
    }
    let source = match parse_kv(lines[i].as_str(), "source") {
        Some(v) => v,
        None => {
            return None;
        },
    };
    let base_dir = match parse_kv(lines[i + 1].as_str(), "base_dir") {
        Some(v) => v,
        None => {
            return None;
        },
    };
    let mut j = i + 2;
    let mut repo: Option<RepoInfo> = None;
    match parse_repo_line(lines[j].as_str()) {
        Some(info) => {
            repo = Some(info);
            j = j + 1;
        },
        None => {},
    }
    let ghost sj: int = j - at;
    if j >= n {
        return None;
    }
    let dependencies = match parse_deps_line(lines[j].as_str()) {
        Some(ds) => ds,
        None => {
            return None;
        },
    };
    let p = Package { name, version, source, base_dir, repo, dependencies };
    if package_ok(&p) {
        let used = j + 1 - at;
        proof {
            assert(spec_parse_block(ls) == Some((p@, used as int)));
        }
        Some((p, used))
    } else {
        None
    }
}

/// Parse the record blocks of the lockfile's lines: blank and comment
/// lines are skipped; each `[[package]]` line opens one record.
pub open spec fn spec_parse_blocks(lines: Seq<Seq<char>>) -> Option<Seq<PackageModel>>
    decreases lines.len(),
{
    if lines.len() == 0 {
        Some(Seq::empty())
    } else if lines[0].len() == 0 || lines[0][0] == '#' {
        spec_parse_blocks(lines.drop_first())
    } else if lines[0] == "[[package]]"@ {
        match spec_parse_block(lines.drop_first()) {
            Some((p, used)) => if 0 <= used && 1 + used <= lines.len() {
                match spec_parse_blocks(lines.skip(1 + used)) {
                    Some(r) => Some(seq![p] + r),
                    None => None,
                }
            } else {
                None
            },
            None => None,
        }
    } else {
        None
    }
}

/// What parsing the lockfile text yields.
pub open spec fn spec_parse_lock(text: Seq<char>) -> Option<Seq<PackageModel>> {
    spec_parse_blocks(spec_lines(text))
}

/// Parse lockfile text into its records; text the codec's grammar
/// refuses is a decode error, as a corrupt lockfile is fatal.
pub fn parse_mops_lock(text: &str) -> (r: Result<Vec<Package>, Error>)
    ensures
        match r {
            Ok(pkgs) => spec_parse_lock(text@) == Some(pkgs.deep_view()) && forall|i: int|
                0 <= i < pkgs.deep_view().len() ==> (#[trigger] pkgs.deep_view()[i]).wf(),
            Err(e) => spec_parse_lock(text@) is None && (e matches Error::Decode(m) && m@
                == "invalid lockfile"@),
        },
{
    let lines = split_lines(text);
    let ghost dv = lines.deep_view();
    let n = lines.len();
    let mut out: Vec<Package> = Vec::new();
    let mut idx: usize = 0;
    proof {
        assert(dv.skip(0) =~= dv);
        if spec_parse_blocks(dv) is Some {
            assert(out.deep_view() + spec_parse_blocks(dv)->Some_0 =~= spec_parse_blocks(
                dv,
            )->Some_0);
        }
    }
    while idx < n
        invariant
            0 <= idx <= n,
            n == lines@.len(),
            dv == lines.deep_view(),
            dv == spec_lines(text@),
            dv.len() == n,
            forall|i: int| 0 <= i < out.deep_view().len() ==> (#[trigger] out.deep_view()[i]).wf(),
            match spec_parse_blocks(dv.skip(idx as int)) {
                Some(rest) => spec_parse_blocks(dv) == Some(out.deep_view() + rest),
                None => spec_parse_blocks(dv) is None,
            },
        decreases n - idx,
    {
        let ghost tail = dv.skip(idx as int);
        proof {
            assert(tail[0] == dv[idx as int]);
            assert(dv[idx as int] == lines@[idx as int]@);
            assert(tail.drop_first() =~= dv.skip(idx as int + 1));
        }
        let line = &lines[idx];
        let ln = line.as_str().unicode_len();
        if ln == 0 || line.as_str().get_char(0) == '#' {
            idx = idx + 1;
        } else if str_eq(line.as_str(), "[[package]]") {
            match parse_block_at(&lines, idx + 1) {
                Some((p, used)) => {
                    proof {
                        assert(lines.deep_view().skip(idx as int + 1) =~= tail.drop_first());
                        assert(spec_parse_block(tail.drop_first()) == Some((p@, used as int)));
                        assert(tail.skip(1 + used as int) =~= dv.skip(idx as int + 1 + used as int));
                    }
                    let ghost pre_out = out.deep_view();
                    out.push(p);
                    proof {
                        assert(out.deep_view() =~= pre_out.push(p@));
                        if spec_parse_blocks(dv.skip(idx as int + 1 + used as int)) is Some {
                            let rest = spec_parse_blocks(
                                dv.skip(idx as int + 1 + used as int),
                            )->Some_0;
                            assert(pre_out + (seq![p@] + rest) =~= out.deep_view() + rest);
                        }
                    }
                    idx = idx + 1 + used;
                },
                None => {
                    return Err(Error::Decode("invalid lockfile".to_owned()));
                },
            }
        } else {
            proof {
                assert(tail[0] != "[[package]]"@);
                assert(tail[0].len() != 0);
                assert(tail[0][0] != '#');
            }
            return Err(Error::Decode("invalid lockfile".to_owned()));
        }
    }
    proof {
        assert(dv.skip(n as int) =~= Seq::<Seq<char>>::empty());
        assert(out.deep_view() + Seq::<PackageModel>::empty() =~= out.deep_view());
    }
    Ok(out)
}

/// A line the joiner keeps whole: no newline inside.
pub open spec fn line_ok(s: Seq<char>) -> bool {
    forall|i: int| 0 <= i < s.len() ==> #[trigger] s[i] != '\n'
}

/// The rendered list of quoted values holds no newline and no quote
/// outside the value boundaries it renders.
proof fn lemma_join_clean(ds: Seq<Seq<char>>, sep: Seq<char>)
    requires
        forall|i: int| 0 <= i < ds.len() ==> text_ok(#[trigger] ds[i]),
        line_ok(sep),
    ensures
        line_ok(spec_join(ds, sep)),
    decreases ds.len(),
{
    if ds.len() > 1 {
        lemma_join_clean(ds.drop_first(), sep);
        assert(forall|i: int|
            0 <= i < ds.drop_first().len() ==> text_ok(#[trigger] ds.drop_first()[i]));
    }
}

/// Every line the codec renders for one record is newline-free.
proof fn lemma_package_lines_clean(p: PackageModel)
    requires
        lock_wf(p),
    ensures
        forall|k: int|
            0 <= k < spec_package_lines(p).len() ==> line_ok(#[trigger] spec_package_lines(p)[k]),
{
    reveal_strlit("[[package]]");
    reveal_strlit("name");
    reveal_strlit("version");
    reveal_strlit("source");
    reveal_strlit("base_dir");
    reveal_strlit(" = \"");
    reveal_strlit("\"");
    reveal_strlit("repo = { repo = \"");
    reveal_strlit("\", tag = \"");
    reveal_strlit("\", commit = \"");
    reveal_strlit("\", base_dir = \"");
    reveal_strlit("\" }");
    reveal_strlit("dependencies = []");
    reveal_strlit("dependencies = [\"");
    reveal_strlit("\", \"");
    reveal_strlit("\"]");
    assert(line_ok("[[package]]"@));
    assert(line_ok(spec_kv_line("name"@, p.name)));
    match p.version {
        Some(v) => {
            assert(line_ok(spec_kv_line("version"@, v)));
        },
        None => {},
    }
    assert(line_ok(spec_kv_line("source"@, p.source)));
    assert(line_ok(spec_kv_line("base_dir"@, p.base_dir)));
    match p.repo {
        Some(r) => {
            assert(line_ok(spec_repo_line(r)));
        },
        None => {},
    }
    lemma_join_clean(p.dependencies, "\", \""@);
    assert(line_ok(spec_deps_line(p.dependencies)));
    let bl = spec_package_lines(p);
    assert forall|k: int| 0 <= k < bl.len() implies line_ok(#[trigger] bl[k]) by {
        lemma_block_shape(p);
    }
}

/// The concrete shape of a record's lines, case by case over its
/// optional fields.
proof fn lemma_block_shape(p: PackageModel)
    ensures
        match (p.version, p.repo) {
            (Some(v), Some(r)) => spec_package_lines(p) == seq![
                "[[package]]"@,
                spec_kv_line("name"@, p.name),
                spec_kv_line("version"@, v),
                spec_kv_line("source"@, p.source),
                spec_kv_line("base_dir"@, p.base_dir),
                spec_repo_line(r),
                spec_deps_line(p.dependencies),
            ],
            (Some(v), None) => spec_package_lines(p) == seq![
                "[[package]]"@,
                spec_kv_line("name"@, p.name),
                spec_kv_line("version"@, v),
                spec_kv_line("source"@, p.source),
                spec_kv_line("base_dir"@, p.base_dir),
                spec_deps_line(p.dependencies),
            ],
            (None, Some(r)) => spec_package_lines(p) == seq![
                "[[package]]"@,
                spec_kv_line("name"@, p.name),
                spec_kv_line("source"@, p.source),
                spec_kv_line("base_dir"@, p.base_dir),
                spec_repo_line(r),
                spec_deps_line(p.dependencies),
            ],
            (None, None) => spec_package_lines(p) == seq![
                "[[package]]"@,
                spec_kv_line("name"@, p.name),
                spec_kv_line("source"@, p.source),
                spec_kv_line("base_dir"@, p.base_dir),
                spec_deps_line(p.dependencies),
            ],
        },
{
    match (p.version, p.repo) {
        (Some(v), Some(r)) => {
            assert(spec_package_lines(p) =~= seq![
                "[[package]]"@,
                spec_kv_line("name"@, p.name),
                spec_kv_line("version"@, v),
                spec_kv_line("source"@, p.source),
                spec_kv_line("base_dir"@, p.base_dir),
                spec_repo_line(r),
                spec_deps_line(p.dependencies),
            ]);
        },
        (Some(v), None) => {
            assert(spec_package_lines(p) =~= seq![
                "[[package]]"@,
                spec_kv_line("name"@, p.name),
                spec_kv_line("version"@, v),
                spec_kv_line("source"@, p.source),
                spec_kv_line("base_dir"@, p.base_dir),
                spec_deps_line(p.dependencies),
            ]);
        },
        (None, Some(r)) => {
            assert(spec_package_lines(p) =~= seq![
                "[[package]]"@,
                spec_kv_line("name"@, p.name),
                spec_kv_line("source"@, p.source),
                spec_kv_line("base_dir"@, p.base_dir),
                spec_repo_line(r),
                spec_deps_line(p.dependencies),
            ]);
        },
        (None, None) => {
            assert(spec_package_lines(p) =~= seq![
                "[[package]]"@,
                spec_kv_line("name"@, p.name),
                spec_kv_line("source"@, p.source),
                spec_kv_line("base_dir"@, p.base_dir),
                spec_deps_line(p.dependencies),
            ]);
        },
    }
}

/// Rendering the dependency list and parsing it gives the keys back.
proof fn lemma_list_roundtrip(ds: Seq<Seq<char>>)
    requires
        ds.len() > 0,
        forall|i: int| 0 <= i < ds.len() ==> text_ok(#[trigger] ds[i]),
    ensures
        spec_parse_list(seq!['"'] + spec_join(ds, "\", \""@) + seq!['"']) == Some(ds),
    decreases ds.len(),
{
    reveal_strlit("\", \"");
    reveal_strlit(", ");
    let sep = "\", \""@;
    let q = seq!['"'];
    let s = q + spec_join(ds, sep) + q;
    if ds.len() == 1 {
        assert(s =~= q + ds[0] + q);
        let e = 1 + ds[0].len() as int;
        assert(s[e] == '"');
        assert(forall|j: int| 1 <= j < e ==> s[j] == ds[0][j - 1]);
        lemma_find_from_hit(s, '"', 1, e);
        assert(s.subrange(1, e) =~= ds[0]);
        assert(seq![ds[0]] =~= ds);
    } else {
        let rest = ds.drop_first();
        assert(forall|i: int| 0 <= i < rest.len() ==> text_ok(#[trigger] rest[i]));
        lemma_list_roundtrip(rest);
        let s2 = q + spec_join(rest, sep) + q;
        assert(sep =~= q + ", "@ + q);
        assert(s =~= q + ds[0] + q + ", "@ + s2);
        let e = 1 + ds[0].len() as int;
        assert(s[e] == '"');
        assert(forall|j: int| 1 <= j < e ==> s[j] == ds[0][j - 1]);
        lemma_find_from_hit(s, '"', 1, e);
        assert(s.subrange(1, e) =~= ds[0]);
        assert(s2.len() >= 2);
        assert(e + 1 < s.len());
        assert(s.subrange(e + 1, e + 3) =~= ", "@);
        assert(spec_lit_at(s, e + 1, ", "@));
        assert(s.skip(e + 3) =~= s2);
        assert(seq![ds[0]] + rest =~= ds);
    }
}

/// Rendering the dependency line and parsing it gives the keys back.
proof fn lemma_deps_roundtrip(ds: Seq<Seq<char>>)
    requires
        forall|i: int| 0 <= i < ds.len() ==> text_ok(#[trigger] ds[i]),
    ensures
        spec_parse_deps(spec_deps_line(ds)) == Some(ds),
{
    reveal_strlit("dependencies = []");
    reveal_strlit("dependencies = [");
    reveal_strlit("dependencies = [\"");
    reveal_strlit("\"]");
    let pre = "dependencies = ["@;
    let line = spec_deps_line(ds);
    if ds.len() == 0 {
        assert(line.subrange(0, pre.len() as int) =~= pre);
        assert(line.last() == ']');
        assert(line.subrange(pre.len() as int, line.len() - 1) =~= Seq::<char>::empty());
    } else {
        lemma_list_roundtrip(ds);
        assert(line =~= pre + (seq!['"'] + spec_join(ds, "\", \""@) + seq!['"']) + seq![']']);
        assert(line.subrange(0, pre.len() as int) =~= pre);
        assert(line.last() == ']');
        assert(line.subrange(pre.len() as int, line.len() - 1) =~= seq!['"'] + spec_join(
            ds,
            "\", \""@,
        ) + seq!['"']);
    }
}

/// A dependency line never parses as a repository line.
proof fn lemma_repo_not_deps(ds: Seq<Seq<char>>)
    ensures
        spec_parse_repo(spec_deps_line(ds)) is None,
{
    reveal_strlit("dependencies = []");
    reveal_strlit("dependencies = [\"");
    reveal_strlit("repo = { repo = \"");
    let line = spec_deps_line(ds);
    let l1 = "repo = { repo = \""@;
    assert(line[0] == 'd');
    if spec_lit_at(line, 0, l1) {
        assert(line.subrange(0, l1.len() as int)[0] == line[0]);
        assert(false);
    }
}

/// The lines a record renders to parse back to exactly that record,
/// whatever follows them.
#[verifier::rlimit(100)]
proof fn lemma_block_roundtrip(p: PackageModel, rest: Seq<Seq<char>>)
    requires
        lock_wf(p),
    ensures
        spec_parse_block(spec_package_lines(p).skip(1) + rest) == Some(
            (p, spec_package_lines(p).len() - 1),
        ),
{
    reveal_strlit("name");
    reveal_strlit("version");
    reveal_strlit("source");
    reveal_strlit("base_dir");
    lemma_block_shape(p);
    let bl = spec_package_lines(p);
    let ls = bl.skip(1) + rest;
    assert(forall|k: int| 0 <= k < bl.len() - 1 ==> #[trigger] ls[k] == bl[k + 1]);
    lemma_kv_roundtrip("name"@, p.name);
    lemma_kv_roundtrip("source"@, p.source);
    lemma_kv_roundtrip("base_dir"@, p.base_dir);
    lemma_deps_roundtrip(p.dependencies);
    match (p.version, p.repo) {
        (Some(v), Some(r)) => {
            lemma_kv_roundtrip("version"@, v);
            lemma_repo_roundtrip(r);
            assert(ls[0] == spec_kv_line("name"@, p.name));
            assert(ls[1] == spec_kv_line("version"@, v));
            assert(ls[2] == spec_kv_line("source"@, p.source));
            assert(ls[3] == spec_kv_line("base_dir"@, p.base_dir));
            assert(ls[4] == spec_repo_line(r));
            assert(ls[5] == spec_deps_line(p.dependencies));
            assert(spec_parse_block(ls) == Some((p, 6int)));
        },
        (Some(v), None) => {
            lemma_kv_roundtrip("version"@, v);
            lemma_repo_not_deps(p.dependencies);
            assert(ls[0] == spec_kv_line("name"@, p.name));
            assert(ls[1] == spec_kv_line("version"@, v));
            assert(ls[2] == spec_kv_line("source"@, p.source));
            assert(ls[3] == spec_kv_line("base_dir"@, p.base_dir));
            assert(ls[4] == spec_deps_line(p.dependencies));
            assert(spec_parse_block(ls) == Some((p, 5int)));
        },
        (None, Some(r)) => {
            lemma_repo_roundtrip(r);
            assert(ls[0] == spec_kv_line("name"@, p.name));
            assert(ls[1] == spec_kv_line("source"@, p.source));
            lemma_kv_distinct(ls[1], "source"@, "version"@);
            assert(ls[2] == spec_kv_line("base_dir"@, p.base_dir));
            assert(ls[3] == spec_repo_line(r));
            assert(ls[4] == spec_deps_line(p.dependencies));
            assert(spec_parse_block(ls) == Some((p, 5int)));
        },
        (None, None) => {
            lemma_repo_not_deps(p.dependencies);
            assert(ls[0] == spec_kv_line("name"@, p.name));
            assert(ls[1] == spec_kv_line("source"@, p.source));
            lemma_kv_distinct(ls[1], "source"@, "version"@);
            assert(ls[2] == spec_kv_line("base_dir"@, p.base_dir));
            assert(ls[3] == spec_deps_line(p.dependencies));
            assert(spec_parse_block(ls) == Some((p, 4int)));
        },
    }
}

/// The blocks of a record sequence, taken from the front.
proof fn lemma_blocks_front(ps: Seq<PackageModel>)
    requires
        ps.len() > 0,
    ensures
        spec_lock_blocks(ps) == seq![Seq::<char>::empty()] + spec_package_lines(ps[0])
            + spec_lock_blocks(ps.drop_first()),
    decreases ps.len(),
{
    if ps.len() == 1 {
        assert(ps.drop_last() =~= Seq::<PackageModel>::empty());
        assert(ps.drop_first() =~= Seq::<PackageModel>::empty());
        assert(spec_lock_blocks(ps) =~= seq![Seq::<char>::empty()] + spec_package_lines(ps[0])
            + spec_lock_blocks(ps.drop_first()));
    } else {
        lemma_blocks_front(ps.drop_last());
        assert(ps.drop_last()[0] == ps[0]);
        assert(ps.drop_last().drop_first() =~= ps.drop_first().drop_last());
        assert(ps.drop_first().last() == ps.last());
        assert(spec_lock_blocks(ps) =~= seq![Seq::<char>::empty()] + spec_package_lines(ps[0])
            + spec_lock_blocks(ps.drop_first()));
    }
}

/// Parsing the rendered blocks, with the closing empty line, gives
/// the records back.
#[verifier::rlimit(100)]
proof fn lemma_parse_blocks_tail(ps: Seq<PackageModel>)
    requires
        forall|i: int| 0 <= i < ps.len() ==> lock_wf(#[trigger] ps[i]),
    ensures
        spec_parse_blocks(spec_lock_blocks(ps) + seq![Seq::<char>::empty()]) == Some(ps),
    decreases ps.len(),
{
    reveal_strlit("[[package]]");
    let lines = spec_lock_blocks(ps) + seq![Seq::<char>::empty()];
    if ps.len() == 0 {
        reveal_with_fuel(spec_parse_blocks, 2);
        assert(lines =~= seq![Seq::<char>::empty()]);
        assert(lines[0].len() == 0);
        assert(lines.drop_first() =~= Seq::<Seq<char>>::empty());
        assert(spec_parse_blocks(lines) == Some(Seq::<PackageModel>::empty()));
        assert(ps =~= Seq::<PackageModel>::empty());
    } else {
        reveal_with_fuel(spec_parse_blocks, 3);
        lemma_blocks_front(ps);
        let bl = spec_package_lines(ps[0]);
        let tail2 = spec_lock_blocks(ps.drop_first()) + seq![Seq::<char>::empty()];
        assert(lines =~= seq![Seq::<char>::empty()] + bl + tail2);
        assert(lines[0].len() == 0);
        let lines1 = lines.drop_first();
        assert(lines1 =~= bl + tail2);
        assert(lines1[0] == bl[0]);
        lemma_block_shape(ps[0]);
        assert(bl[0] == "[[package]]"@);
        assert(lines1[0].len() > 0 && lines1[0][0] != '#');
        assert(lines1.drop_first() =~= bl.skip(1) + tail2);
        lemma_block_roundtrip(ps[0], tail2);
        let used = bl.len() - 1;
        assert(spec_parse_block(lines1.drop_first()) == Some((ps[0], used as int)));
        assert(1 + used <= lines1.len());
        assert(lines1.skip(1 + used as int) =~= tail2);
        assert(forall|i: int|
            0 <= i < ps.drop_first().len() ==> lock_wf(#[trigger] ps.drop_first()[i]));
        lemma_parse_blocks_tail(ps.drop_first());
        assert(seq![ps[0]] + ps.drop_first() =~= ps);
    }
}

/// Parsing a serialized lockfile gives back exactly the records it
/// was made of: the codec round-trips on every lockfile it produces.
#[verifier::rlimit(100)]
pub proof fn lemma_lock_roundtrip(ps: Seq<PackageModel>)
    requires
        forall|i: int| 0 <= i < ps.len() ==> lock_wf(#[trigger] ps[i]),
    ensures
        spec_parse_lock(spec_serialize_lock(ps)) == Some(ps),
{
    reveal_strlit("# This file is auto-generated by mops.");
    reveal_strlit("# It is not intended for manual editing.");
    let lines = spec_lock_lines(ps);
    assert forall|i: int, j: int|
        0 <= i < lines.len() && 0 <= j < lines[i].len() implies #[trigger] lines[i][j]
        != '\n' by {
        assert(line_ok(spec_header_one()));
        assert(line_ok(spec_header_two()));
        lemma_lines_all_clean(ps);
        assert(line_ok(lines[i]));
    }
    lemma_lines_unlines(lines);
    assert(spec_lines(spec_serialize_lock(ps)) == lines);
    assert(lines[0] == spec_header_one());
    assert(lines[0][0] == '#');
    assert(lines.drop_first() =~= seq![spec_header_two()] + spec_lock_blocks(ps) + seq![
        Seq::<char>::empty(),
    ]);
    let lines2 = lines.drop_first();
    assert(lines2[0][0] == '#');
    assert(lines2.drop_first() =~= spec_lock_blocks(ps) + seq![Seq::<char>::empty()]);
    lemma_parse_blocks_tail(ps);
    assert(spec_parse_blocks(lines) == spec_parse_blocks(lines2)) by {
        reveal_with_fuel(spec_parse_blocks, 2);
    }
    assert(spec_parse_blocks(lines2) == spec_parse_blocks(lines2.drop_first())) by {
        reveal_with_fuel(spec_parse_blocks, 2);
    }
}

/// Every line of the lockfile is newline-free.
proof fn lemma_lines_all_clean(ps: Seq<PackageModel>)
    requires
        forall|i: int| 0 <= i < ps.len() ==> lock_wf(#[trigger] ps[i]),
    ensures
        forall|k: int|
            0 <= k < spec_lock_lines(ps).len() ==> line_ok(#[trigger] spec_lock_lines(ps)[k]),
{
    reveal_strlit("# This file is auto-generated by mops.");
    reveal_strlit("# It is not intended for manual editing.");
    assert(line_ok(spec_header_one()));
    assert(line_ok(spec_header_two()));
    lemma_blocks_clean(ps);
    let lines = spec_lock_lines(ps);
    assert forall|k: int| 0 <= k < lines.len() implies line_ok(#[trigger] lines[k]) by {
        if 2 <= k < 2 + spec_lock_blocks(ps).len() {
            assert(lines[k] == spec_lock_blocks(ps)[k - 2]);
        }
    }
}

/// Every rendered block line is newline-free.
proof fn lemma_blocks_clean(ps: Seq<PackageModel>)
    requires
        forall|i: int| 0 <= i < ps.len() ==> lock_wf(#[trigger] ps[i]),
    ensures
        forall|k: int|
            0 <= k < spec_lock_blocks(ps).len() ==> line_ok(#[trigger] spec_lock_blocks(ps)[k]),
    decreases ps.len(),
{
    if ps.len() > 0 {
        assert(forall|i: int|
            0 <= i < ps.drop_last().len() ==> lock_wf(#[trigger] ps.drop_last()[i]));
        lemma_blocks_clean(ps.drop_last());
        lemma_package_lines_clean(ps.last());
        let whole = spec_lock_blocks(ps);
        let pre = spec_lock_blocks(ps.drop_last());
        let bl = spec_package_lines(ps.last());
        assert forall|k: int| 0 <= k < whole.len() implies line_ok(#[trigger] whole[k]) by {
            if k < pre.len() {
                assert(whole[k] == pre[k]);
            } else if k == pre.len() {
                assert(whole[k] =~= Seq::<char>::empty());
            } else {
                assert(whole[k] == bl[k - pre.len() - 1]);
            }
        }
    }
}

} // verus!
