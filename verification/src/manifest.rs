//! The manifest parser: read the human-edited manifest text, yield
//! the package's own version (when declared) and the `dependencies`
//! table as name/value pairs in manifest order, and classify each
//! value as a registry pin, a repository URL, or a local path.
//!
//! The accepted shape is line-based: blank lines and `#` comment
//! lines anywhere; `[section]` headers; `key = "value"` entries with
//! basic or literal (single-quoted) string values, a trailing `#`
//! comment allowed after the value or a header; dotted top-level keys
//! such as `dependencies.a` or `package.version`.  Only
//! `package.version` and the `dependencies` table are read; entries
//! of other sections are ignored.  A line of any other shape, a
//! `dependencies` entry whose value is not a string, or a non-string
//! `package.version` is an error; escape sequences inside basic
//! strings are not interpreted, so a value holding its own quote kind
//! is refused rather than misread.

use vstd::prelude::*;
use crate::error::Error;
use crate::model::{Mops, MopsModel, MopsConfig};
use crate::text::{find_from, find_char, lemma_find_from, spec_lines, split_lines, spec_starts_with,
    starts_with, str_eq, substring};

verus! {

pub open spec fn is_space(c: char) -> bool {
    c == ' ' || c == '\t'
}

/// `s` without leading spaces.
pub open spec fn spec_trim_front(s: Seq<char>) -> Seq<char>
    decreases s.len(),
{
    if s.len() > 0 && is_space(s[0]) {
        spec_trim_front(s.drop_first())
    } else {
        s
    }
}

/// `s` without trailing spaces.
pub open spec fn spec_trim_back(s: Seq<char>) -> Seq<char>
    decreases s.len(),
{
    if s.len() > 0 && is_space(s.last()) {
        spec_trim_back(s.drop_last())
    } else {
        s
    }
}

/// `s` without leading and trailing spaces.
pub open spec fn spec_trim(s: Seq<char>) -> Seq<char> {
    spec_trim_back(spec_trim_front(s))
}

/// Dropping a run of leading spaces does not change the trim.
proof fn lemma_trim_front_skip(s: Seq<char>, i: int)
    requires
        0 <= i <= s.len(),
        forall|j: int| 0 <= j < i ==> is_space(#[trigger] s[j]),
    ensures
        spec_trim_front(s) == spec_trim_front(s.skip(i)),
    decreases i,
{
    if i > 0 {
        assert(s.drop_first() =~= s.skip(1));
        assert(forall|j: int| 0 <= j < i - 1 ==> is_space(#[trigger] s.skip(1)[j]));
        lemma_trim_front_skip(s.skip(1), i - 1);
        assert(s.skip(1).skip(i - 1) =~= s.skip(i));
    } else {
        assert(s.skip(0) =~= s);
    }
}

/// Dropping a run of trailing spaces does not change the trim.
proof fn lemma_trim_back_take(s: Seq<char>, l: int)
    requires
        0 <= l <= s.len(),
        forall|j: int| l <= j < s.len() ==> is_space(#[trigger] s[j]),
    ensures
        spec_trim_back(s) == spec_trim_back(s.take(l)),
    decreases s.len() - l,
{
    if l < s.len() {
        assert(is_space(s.last()));
        assert(s.drop_last() =~= s.take(s.len() - 1));
        assert(forall|j: int| l <= j < s.len() - 1 ==> is_space(#[trigger] s.take(s.len() - 1)[j]));
        lemma_trim_back_take(s.take(s.len() - 1), l);
        assert(s.take(s.len() - 1).take(l) =~= s.take(l));
    } else {
        assert(s.take(s.len() as int) =~= s);
    }
}

/// Is the character a space or a tab?
fn space_char(c: char) -> (r: bool)
    ensures
        r == is_space(c),
{
    c == ' ' || c == '\t'
}

/// Strip leading and trailing spaces and tabs.
pub fn trim_exec(s: &str) -> (r: String)
    ensures
        r@ == spec_trim(s@),
{
    let n = s.unicode_len();
    let mut start: usize = 0;
    while start < n && space_char(s.get_char(start))
        invariant
            0 <= start <= n,
            n == s@.len(),
            forall|j: int| 0 <= j < start ==> is_space(#[trigger] s@[j]),
        decreases n - start,
    {
        start = start + 1;
    }
    proof {
        lemma_trim_front_skip(s@, start as int);
        if start < n {
            assert(!is_space(s@.skip(start as int)[0]));
        }
        assert(spec_trim_front(s@) == s@.skip(start as int));
    }
    let mut stop: usize = n;
    while stop > start && space_char(s.get_char(stop - 1))
        invariant
            start <= stop <= n,
            n == s@.len(),
            forall|j: int| stop <= j < n ==> is_space(#[trigger] s@[j]),
        decreases stop,
    {
        stop = stop - 1;
    }
    let ghost front = s@.skip(start as int);
    proof {
        assert(forall|j: int|
            stop - start <= j < front.len() ==> is_space(#[trigger] front[j]));
        lemma_trim_back_take(front, stop - start);
        if stop > start {
            assert(front.take(stop - start).last() == s@[stop - 1]);
            assert(!is_space(front.take(stop - start).last()));
        }
        assert(spec_trim_back(front.take(stop - start)) == front.take(stop - start));
        assert(front.take(stop - start) =~= s@.subrange(start as int, stop as int));
    }
    substring(s, start, stop)
}

/// A string value: the characters between a pair of basic or literal
/// quotes, with nothing after the closing quote but spaces or a `#`
/// comment.
pub open spec fn spec_parse_value(v: Seq<char>) -> Option<Seq<char>> {
    if v.len() >= 1 && (v[0] == '"' || v[0] == '\'') {
        match find_from(v, v[0], 1) {
            Some(e) => {
                let after = spec_trim(v.subrange(e + 1, v.len() as int));
                if after.len() == 0 || after[0] == '#' {
                    Some(v.subrange(1, e))
                } else {
                    None
                }
            },
            None => None,
        }
    } else {
        None
    }
}

/// Read a string value, tolerating a trailing comment.
pub fn parse_value(v: &str) -> (r: Option<String>)
    ensures
        match r {
            Some(x) => spec_parse_value(v@) == Some(x@),
            None => spec_parse_value(v@) is None,
        },
{
    let n = v.unicode_len();
    if n == 0 {
        return None;
    }
    let q = v.get_char(0);
    if q != '"' && q != '\'' {
        return None;
    }
    match find_char(v, q, 1) {
        Some(e) => {
            proof {
                lemma_find_from(v@, q, 1);
            }
            let rest = substring(v, e + 1, n);
            let after = trim_exec(rest.as_str());
            let an = after.as_str().unicode_len();
            if an == 0 || after.as_str().get_char(0) == '#' {
                Some(substring(v, 1, e))
            } else {
                None
            }
        },
        None => None,
    }
}

/// Which section the line cursor stands in.
pub enum Section {
    Outside,
    Pkg,
    Deps,
    Other,
}

/// The ghost mirror of a `Section`.
pub ghost enum SectionModel {
    Outside,
    Pkg,
    Deps,
    Other,
}

impl View for Section {
    type V = SectionModel;

    open spec fn view(&self) -> SectionModel {
        match self {
            Section::Outside => SectionModel::Outside,
            Section::Pkg => SectionModel::Pkg,
            Section::Deps => SectionModel::Deps,
            Section::Other => SectionModel::Other,
        }
    }
}

/// The parser's accumulated state.
pub ghost struct ManifestState {
    pub sect: SectionModel,
    pub version: Option<Seq<char>>,
    pub entries: Seq<(Seq<char>, Seq<char>)>,
}

/// The state a manifest parse starts from.
pub open spec fn spec_manifest_init() -> ManifestState {
    ManifestState { sect: SectionModel::Outside, version: None, entries: Seq::empty() }
}

/// What one `key = value` entry does to the parser state: inside
/// `[package]` only the `version` key is read; inside
/// `[dependencies]` every entry must carry a string value; at top
/// level a dotted key may reach both tables; everything else is
/// ignored.
pub open spec fn spec_manifest_kv(
    st: ManifestState,
    key: Seq<char>,
    val: Seq<char>,
) -> Option<ManifestState> {
    match st.sect {
        SectionModel::Pkg => if key == "version"@ {
            match spec_parse_value(val) {
                Some(v) => Some(ManifestState { version: Some(v), ..st }),
                None => None,
            }
        } else {
            Some(st)
        },
        SectionModel::Deps => if find_from(key, '.', 0) is Some {
            None
        } else {
            match spec_parse_value(val) {
                Some(v) => Some(ManifestState { entries: st.entries.push((key, v)), ..st }),
                None => None,
            }
        },
        SectionModel::Outside => match find_from(key, '.', 0) {
            None => Some(st),
            Some(d) => {
                let k1 = spec_trim(key.take(d));
                let k2 = spec_trim(key.skip(d + 1));
                if k1 == "dependencies"@ {
                    if k2.len() == 0 || find_from(k2, '.', 0) is Some {
                        None
                    } else {
                        match spec_parse_value(val) {
                            Some(v) => Some(
                                ManifestState { entries: st.entries.push((k2, v)), ..st },
                            ),
                            None => None,
                        }
                    }
                } else if k1 == "package"@ && k2 == "version"@ {
                    match spec_parse_value(val) {
                        Some(v) => Some(ManifestState { version: Some(v), ..st }),
                        None => None,
                    }
                } else {
                    Some(st)
                }
            },
        },
        SectionModel::Other => Some(st),
    }
}

/// What one line does to the parser state, or nothing on a line the
/// grammar refuses.
pub open spec fn spec_manifest_line(st: ManifestState, line: Seq<char>) -> Option<ManifestState> {
    let t = spec_trim(line);
    if t.len() == 0 || t[0] == '#' {
        Some(st)
    } else if t[0] == '[' {
        match find_from(t, ']', 0) {
            None => None,
            Some(j) => {
                let after = spec_trim(t.subrange(j + 1, t.len() as int));
                if after.len() == 0 || after[0] == '#' {
                    let name = spec_trim(t.subrange(1, j));
                    let sect = if name == "package"@ {
                        SectionModel::Pkg
                    } else if name == "dependencies"@ {
                        SectionModel::Deps
                    } else {
                        SectionModel::Other
                    };
                    Some(ManifestState { sect, ..st })
                } else {
                    None
                }
            },
        }
    } else {
        match find_from(t, '=', 0) {
            None => None,
            Some(e) => {
                let key = spec_trim(t.take(e));
                let val = spec_trim(t.skip(e + 1));
                if key.len() == 0 {
                    None
                } else {
                    spec_manifest_kv(st, key, val)
                }
            },
        }
    }
}

/// The lines folded through the parser.
pub open spec fn spec_manifest_lines(st: ManifestState, lines: Seq<Seq<char>>) -> Option<
    ManifestState,
>
    decreases lines.len(),
{
    if lines.len() == 0 {
        Some(st)
    } else {
        match spec_manifest_line(st, lines[0]) {
            Some(st2) => spec_manifest_lines(st2, lines.drop_first()),
            None => None,
        }
    }
}

/// What parsing the manifest text yields.
pub open spec fn spec_parse_mops_toml(text: Seq<char>) -> Option<ManifestState> {
    spec_manifest_lines(spec_manifest_init(), spec_lines(text))
}

/// The manifest's raw content: the declared version, when present,
/// and the dependency entries in manifest order.
pub struct RawManifest {
    pub version: Option<String>,
    pub entries: Vec<(String, String)>,
}

impl View for RawManifest {
    type V = ManifestState;

    open spec fn view(&self) -> ManifestState {
        ManifestState {
            sect: SectionModel::Outside,
            version: match self.version {
                Some(ref v) => Some(v@),
                None => None,
            },
            entries: self.entries.deep_view(),
        }
    }
}

/// Parse manifest text into its version and dependency entries.  The
/// text either folds through the grammar to a final state, which is
/// returned with its section cursor reset, or it is refused.
pub fn parse_mops_toml(text: &str) -> (r: Result<RawManifest, Error>)
    ensures
        match r {
            Ok(raw) => spec_parse_mops_toml(text@) matches Some(st) && raw@.version == st.version
                && raw@.entries == st.entries,
            Err(e) => spec_parse_mops_toml(text@) is None && (e matches Error::Decode(m) && m@
                == "invalid manifest"@),
        },
{
    let lines = split_lines(text);
    let ghost lsg = spec_lines(text@);
    let n = lines.len();
    let mut sect = Section::Outside;
    let mut version: Option<String> = None;
    let mut entries: Vec<(String, String)> = Vec::new();
    let mut i: usize = 0;
    proof {
        let st0 = ManifestState { sect: sect@, version: None, entries: entries.deep_view() };
        assert(st0.entries =~= spec_manifest_init().entries);
        assert(st0 == spec_manifest_init());
        assert(lsg.skip(0) =~= lsg);
    }
    while i < n
        invariant
            0 <= i <= n,
            n == lines@.len(),
            lines.deep_view() == lsg,
            lsg == spec_lines(text@),
            spec_manifest_lines(spec_manifest_init(), lsg) == spec_manifest_lines(
                ManifestState {
                    sect: sect@,
                    version: match version {
                        Some(ref v) => Some(v@),
                        None => None::<Seq<char>>,
                    },
                    entries: entries.deep_view(),
                },
                lsg.skip(i as int),
            ),
        decreases n - i,
    {
        let ghost st_in = ManifestState {
            sect: sect@,
            version: match version {
                Some(ref v) => Some(v@),
                None => None::<Seq<char>>,
            },
            entries: entries.deep_view(),
        };
        proof {
            assert(lsg.skip(i as int)[0] == lsg[i as int]);
            assert(lsg.skip(i as int).drop_first() =~= lsg.skip(i as int + 1));
            assert(lines@[i as int]@ == lsg[i as int]);
        }
        let t = trim_exec(lines[i].as_str());
        let tn = t.as_str().unicode_len();
        if tn == 0 || t.as_str().get_char(0) == '#' {
            // comment or blank: the state is unchanged
        } else if t.as_str().get_char(0) == '[' {
            let close = match find_char(t.as_str(), ']', 0) {
                Some(j) => j,
                None => {
                    proof {
                        assert(spec_manifest_line(st_in, lsg[i as int]) is None);
                        assert(spec_manifest_lines(st_in, lsg.skip(i as int)) is None);
                    }
                    return Err(Error::Decode("invalid manifest".to_owned()));
                },
            };
            proof {
                lemma_find_from(t@, ']', 0);
            }
            let rest = substring(t.as_str(), close + 1, tn);
            let after = trim_exec(rest.as_str());
            let an = after.as_str().unicode_len();
            if !(an == 0 || after.as_str().get_char(0) == '#') {
                proof {
                    assert(rest@ =~= t@.subrange(close as int + 1, t@.len() as int));
                    assert(spec_manifest_line(st_in, lsg[i as int]) is None);
                    assert(spec_manifest_lines(st_in, lsg.skip(i as int)) is None);
                }
                return Err(Error::Decode("invalid manifest".to_owned()));
            }
            proof {
                assert(rest@ =~= t@.subrange(close as int + 1, t@.len() as int));
            }
            let inner = substring(t.as_str(), 1, close);
            let name = trim_exec(inner.as_str());
            if str_eq(name.as_str(), "package") {
                sect = Section::Pkg;
            } else if str_eq(name.as_str(), "dependencies") {
                sect = Section::Deps;
            } else {
                sect = Section::Other;
            }
        } else {
            let eq = match find_char(t.as_str(), '=', 0) {
                Some(e) => e,
                None => {
                    proof {
                        assert(spec_manifest_line(st_in, lsg[i as int]) is None);
                        assert(spec_manifest_lines(st_in, lsg.skip(i as int)) is None);
                    }
                    return Err(Error::Decode("invalid manifest".to_owned()));
                },
            };
            proof {
                lemma_find_from(t@, '=', 0);
            }
            let left = substring(t.as_str(), 0, eq);
            let key = trim_exec(left.as_str());
            let right = substring(t.as_str(), eq + 1, tn);
            let val = trim_exec(right.as_str());
            proof {
                assert(left@ =~= t@.take(eq as int));
                assert(right@ =~= t@.skip(eq as int + 1));
            }
            let kn = key.as_str().unicode_len();
            if kn == 0 {
                proof {
                    assert(spec_manifest_line(st_in, lsg[i as int]) is None);
                    assert(spec_manifest_lines(st_in, lsg.skip(i as int)) is None);
                }
                return Err(Error::Decode("invalid manifest".to_owned()));
            }
            match sect {
                Section::Pkg => {
                    if str_eq(key.as_str(), "version") {
                        match parse_value(val.as_str()) {
                            Some(v) => {
                                version = Some(v);
                            },
                            None => {
                                proof {
                                    assert(spec_manifest_line(st_in, lsg[i as int]) is None);
                                    assert(spec_manifest_lines(st_in, lsg.skip(i as int)) is None);
                                }
                                return Err(Error::Decode("invalid manifest".to_owned()));
                            },
                        }
                    }
                },
                Section::Deps => {
                    if find_char(key.as_str(), '.', 0).is_some() {
                        proof {
                            assert(spec_manifest_line(st_in, lsg[i as int]) is None);
                            assert(spec_manifest_lines(st_in, lsg.skip(i as int)) is None);
                        }
                        return Err(Error::Decode("invalid manifest".to_owned()));
                    }
                    match parse_value(val.as_str()) {
                        Some(v) => {
                            let ghost pre = entries.deep_view();
                            entries.push((key, v));
                            proof {
                                assert(entries.deep_view() =~= pre.push((key@, v@)));
                            }
                        },
                        None => {
                            proof {
                                assert(spec_manifest_line(st_in, lsg[i as int]) is None);
                                assert(spec_manifest_lines(st_in, lsg.skip(i as int)) is None);
                            }
                            return Err(Error::Decode("invalid manifest".to_owned()));
                        },
                    }
                },
                Section::Outside => {
                    match find_char(key.as_str(), '.', 0) {
                        None => {
                            // a top-level scalar the parser does not read
                        },
                        Some(d) => {
                            proof {
                                lemma_find_from(key@, '.', 0);
                            }
                            let kleft = substring(key.as_str(), 0, d);
                            let k1 = trim_exec(kleft.as_str());
                            let kright = substring(key.as_str(), d + 1, kn);
                            let k2 = trim_exec(kright.as_str());
                            proof {
                                assert(kleft@ =~= key@.take(d as int));
                                assert(kright@ =~= key@.skip(d as int + 1));
                            }
                            if str_eq(k1.as_str(), "dependencies") {
                                if k2.as_str().unicode_len() == 0 || find_char(
                                    k2.as_str(),
                                    '.',
                                    0,
                                ).is_some() {
                                    proof {
                                        assert(spec_manifest_line(st_in, lsg[i as int]) is None);
                                        assert(spec_manifest_lines(
                                            st_in,
                                            lsg.skip(i as int),
                                        ) is None);
                                    }
                                    return Err(Error::Decode("invalid manifest".to_owned()));
                                }
                                match parse_value(val.as_str()) {
                                    Some(v) => {
                                        let ghost pre = entries.deep_view();
                                        entries.push((k2, v));
                                        proof {
                                            assert(entries.deep_view() =~= pre.push((k2@, v@)));
                                        }
                                    },
                                    None => {
                                        proof {
                                            assert(spec_manifest_line(
                                                st_in,
                                                lsg[i as int],
                                            ) is None);
                                            assert(spec_manifest_lines(
                                                st_in,
                                                lsg.skip(i as int),
                                            ) is None);
                                        }
                                        return Err(Error::Decode("invalid manifest".to_owned()));
                                    },
                                }
                            } else if str_eq(k1.as_str(), "package") && str_eq(
                                k2.as_str(),
                                "version",
                            ) {
                                match parse_value(val.as_str()) {
                                    Some(v) => {
                                        version = Some(v);
                                    },
                                    None => {
                                        proof {
                                            assert(spec_manifest_line(
                                                st_in,
                                                lsg[i as int],
                                            ) is None);
                                            assert(spec_manifest_lines(
                                                st_in,
                                                lsg.skip(i as int),
                                            ) is None);
                                        }
                                        return Err(Error::Decode("invalid manifest".to_owned()));
                                    },
                                }
                            }
                        },
                    }
                },
                Section::Other => {},
            }
        }
        proof {
            let st_out = ManifestState {
                sect: sect@,
                version: match version {
                    Some(ref v) => Some(v@),
                    None => None::<Seq<char>>,
                },
                entries: entries.deep_view(),
            };
            assert(spec_manifest_line(st_in, lsg[i as int]) == Some(st_out));
        }
        i = i + 1;
    }
    proof {
        assert(lsg.skip(n as int) =~= Seq::<Seq<char>>::empty());
    }
    let raw = RawManifest { version, entries };
    Ok(raw)
}

/// How a dependency value classifies, given whether it names an
/// existing filesystem path: the source-host prefix means a
/// repository, an existing path means a local package, anything else
/// a registry pin.
pub open spec fn spec_classify(name: Seq<char>, value: Seq<char>, path_exists: bool) -> MopsModel {
    if spec_starts_with(value, "https://github.com"@) {
        MopsModel::Repo { name, repo: value }
    } else if path_exists {
        MopsModel::Local { name, path: value }
    } else {
        MopsModel::Mops { name, version: value }
    }
}

/// Classify one dependency value.  The URL-prefix test comes first,
/// the filesystem-existence test second, and a registry pin is the
/// default.
pub fn classify_dep(name: String, value: String, path_exists: bool) -> (m: Mops)
    ensures
        m@ == spec_classify(name@, value@, path_exists),
{
    if starts_with(value.as_str(), "https://github.com") {
        Mops::Repo { name, repo: value }
    } else if path_exists {
        Mops::Local { name, path: value }
    } else {
        Mops::Mops { name, version: value }
    }
}

/// The classified dependency list of a manifest.
pub open spec fn spec_classified(
    entries: Seq<(Seq<char>, Seq<char>)>,
    exists: Seq<bool>,
) -> Seq<MopsModel> {
    Seq::new(entries.len(), |i: int| spec_classify(entries[i].0, entries[i].1, exists[i]))
}

/// Assemble the parsed manifest into its configuration: each entry
/// classified against whether its value names an existing path.
pub fn manifest_config(raw: RawManifest, exists: &Vec<bool>) -> (r: MopsConfig)
    requires
        raw@.entries.len() == exists@.len(),
    ensures
        r@.version == raw@.version,
        r@.dependencies == spec_classified(raw@.entries, exists@),
{
    let ghost entg = raw@.entries;
    let ghost goal = spec_classified(entg, exists@);
    let mut deps: Vec<Mops> = Vec::new();
    let mut es = raw.entries;
    let mut i: usize = 0;
    let n = es.len();
    proof {
        assert(es.deep_view() =~= entg.skip(0));
        assert(deps.deep_view() =~= goal.take(0));
    }
    while i < n
        invariant
            0 <= i <= n,
            n == entg.len(),
            es@.len() == entg.len() - i,
            es.deep_view() == entg.skip(i as int),
            deps.deep_view() == goal.take(i as int),
            goal == spec_classified(entg, exists@),
            goal.len() == entg.len(),
            exists@.len() == entg.len(),
        decreases n - i,
    {
        let ghost prev = es.deep_view();
        let (name, value) = es.remove(0);
        proof {
            assert(es.deep_view() =~= prev.drop_first());
            assert(prev.drop_first() =~= entg.skip(i as int + 1));
            assert(prev[0] == entg.skip(i as int)[0]);
            assert(entg.skip(i as int)[0] == entg[i as int]);
            assert((name@, value@) == entg[i as int]);
        }
        let ex = exists[i];
        let m = classify_dep(name, value, ex);
        let ghost pre = deps.deep_view();
        deps.push(m);
        proof {
            assert(deps.deep_view() =~= pre.push(m@));
            assert(deps.deep_view() =~= goal.take(i as int + 1));
        }
        i = i + 1;
    }
    proof {
        assert(goal.take(i as int) =~= goal);
    }
    MopsConfig { version: raw.version, dependencies: deps }
}

} // verus!
