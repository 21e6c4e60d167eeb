//! Verified utilities on strings and character sequences: search,
//! comparison, prefix tests, substring extraction, line splitting and
//! joining.  Every other module builds its text handling on these.

use vstd::prelude::*;

verus! {

/// Index of the first occurrence of `c` in `s` at or after `from`.
pub open spec fn find_from(s: Seq<char>, c: char, from: int) -> Option<int>
    decreases s.len() - from,
{
    if from < 0 || from >= s.len() {
        None
    } else if s[from] == c {
        Some(from)
    } else {
        find_from(s, c, from + 1)
    }
}

/// What `find_from` returns: the first hit, or nothing when no
/// occurrence lies at or after `from`.
pub proof fn lemma_find_from(s: Seq<char>, c: char, from: int)
    requires
        0 <= from <= s.len(),
    ensures
        match find_from(s, c, from) {
            Some(i) => from <= i < s.len() && s[i] == c && (forall|j: int|
                from <= j < i ==> s[j] != c),
            None => forall|j: int| from <= j < s.len() ==> s[j] != c,
        },
    decreases s.len() - from,
{
    if from < s.len() && s[from] != c {
        lemma_find_from(s, c, from + 1);
    }
}

/// An occurrence with a clear prefix pins `find_from` down exactly.
pub proof fn lemma_find_from_hit(s: Seq<char>, c: char, from: int, i: int)
    requires
        0 <= from <= i < s.len(),
        s[i] == c,
        forall|j: int| from <= j < i ==> s[j] != c,
    ensures
        find_from(s, c, from) == Some(i),
    decreases i - from,
{
    if from < i {
        lemma_find_from_hit(s, c, from + 1, i);
    }
}

/// First occurrence of `c` in `s` at or after `from`.
pub fn find_char(s: &str, c: char, from: usize) -> (r: Option<usize>)
    requires
        from <= s@.len(),
    ensures
        match r {
            Some(i) => Some(i as int) == find_from(s@, c, from as int),
            None => find_from(s@, c, from as int) is None,
        },
{
    let n = s.unicode_len();
    let mut i = from;
    while i < n
        invariant
            from <= i <= n,
            n == s@.len(),
            forall|j: int| from <= j < i ==> s@[j] != c,
        decreases n - i,
    {
        if s.get_char(i) == c {
            proof {
                lemma_find_from_hit(s@, c, from as int, i as int);
            }
            return Some(i);
        }
        i = i + 1;
    }
    proof {
        lemma_find_from(s@, c, from as int);
    }
    None
}

/// Character-for-character equality of two string slices.
pub fn str_eq(a: &str, b: &str) -> (r: bool)
    ensures
        r == (a@ == b@),
{
    let na = a.unicode_len();
    let nb = b.unicode_len();
    if na != nb {
        return false;
    }
    let mut i: usize = 0;
    while i < na
        invariant
            0 <= i <= na,
            na == a@.len(),
            na == b@.len(),
            forall|j: int| 0 <= j < i ==> a@[j] == b@[j],
        decreases na - i,
    {
        if a.get_char(i) != b.get_char(i) {
            return false;
        }
        i = i + 1;
    }
    proof {
        assert(a@ =~= b@);
    }
    true
}

/// Does `s` begin with `prefix`?
pub open spec fn spec_starts_with(s: Seq<char>, prefix: Seq<char>) -> bool {
    s.len() >= prefix.len() && s.subrange(0, prefix.len() as int) == prefix
}

pub fn starts_with(s: &str, prefix: &str) -> (r: bool)
    ensures
        r == spec_starts_with(s@, prefix@),
{
    let np = prefix.unicode_len();
    if s.unicode_len() < np {
        return false;
    }
    let mut i: usize = 0;
    while i < np
        invariant
            0 <= i <= np,
            np == prefix@.len(),
            s@.len() >= np,
            forall|j: int| 0 <= j < i ==> s@[j] == prefix@[j],
        decreases np - i,
    {
        if s.get_char(i) != prefix.get_char(i) {
            proof {
                assert(s@.subrange(0, np as int)[i as int] != prefix@[i as int]);
            }
            return false;
        }
        i = i + 1;
    }
    proof {
        assert(s@.subrange(0, np as int) =~= prefix@);
    }
    true
}

/// Does `s` end with `suffix`?
pub open spec fn spec_ends_with(s: Seq<char>, suffix: Seq<char>) -> bool {
    s.len() >= suffix.len() && s.subrange(s.len() - suffix.len(), s.len() as int) == suffix
}

pub fn ends_with(s: &str, suffix: &str) -> (r: bool)
    ensures
        r == spec_ends_with(s@, suffix@),
{
    let ns = s.unicode_len();
    let nx = suffix.unicode_len();
    if ns < nx {
        return false;
    }
    let off = ns - nx;
    let mut i: usize = 0;
    while i < nx
        invariant
            0 <= i <= nx,
            nx == suffix@.len(),
            ns == s@.len(),
            off == ns - nx,
            forall|j: int| 0 <= j < i ==> s@[off + j] == suffix@[j],
        decreases nx - i,
    {
        if s.get_char(off + i) != suffix.get_char(i) {
            proof {
                assert(s@.subrange(off as int, ns as int)[i as int] != suffix@[i as int]);
            }
            return false;
        }
        i = i + 1;
    }
    proof {
        assert(s@.subrange(off as int, ns as int) =~= suffix@);
    }
    true
}

/// The characters of `s` from `from` (inclusive) to `to` (exclusive),
/// as an owned string.
pub fn substring(s: &str, from: usize, to: usize) -> (r: String)
    requires
        from <= to <= s@.len(),
    ensures
        r@ == s@.subrange(from as int, to as int),
{
    let piece = s.substring_char(from, to);
    piece.to_owned()
}

/// Lexicographic order on character sequences, by Unicode scalar value.
pub open spec fn str_le(a: Seq<char>, b: Seq<char>) -> bool
    decreases a.len(),
{
    if a.len() == 0 {
        true
    } else if b.len() == 0 {
        false
    } else if a[0] < b[0] {
        true
    } else if b[0] < a[0] {
        false
    } else {
        str_le(a.drop_first(), b.drop_first())
    }
}

/// Strict lexicographic order.
pub open spec fn str_lt(a: Seq<char>, b: Seq<char>) -> bool {
    str_le(a, b) && a != b
}

/// `str_le` is total.
pub proof fn lemma_str_le_total(a: Seq<char>, b: Seq<char>)
    ensures
        str_le(a, b) || str_le(b, a),
    decreases a.len(),
{
    if a.len() > 0 && b.len() > 0 && !(a[0] < b[0]) && !(b[0] < a[0]) {
        lemma_str_le_total(a.drop_first(), b.drop_first());
    }
}

/// `str_le` is antisymmetric.
pub proof fn lemma_str_le_antisym(a: Seq<char>, b: Seq<char>)
    requires
        str_le(a, b),
        str_le(b, a),
    ensures
        a == b,
    decreases a.len(),
{
    if a.len() == 0 {
        assert(b.len() == 0);
        assert(a =~= b);
    } else {
        assert(a[0] == b[0]);
        lemma_str_le_antisym(a.drop_first(), b.drop_first());
        assert(a.drop_first() == b.drop_first());
        assert(a.len() == b.len());
        assert(forall|i: int| 1 <= i < a.len() ==> #[trigger] a[i] == a.drop_first()[i - 1]);
        assert(forall|i: int| 1 <= i < b.len() ==> #[trigger] b[i] == b.drop_first()[i - 1]);
        assert(forall|i: int| 0 <= i < a.len() ==> #[trigger] a[i] == b[i]);
        assert(a =~= b);
    }
}

/// `str_le` is transitive.
pub proof fn lemma_str_le_trans(a: Seq<char>, b: Seq<char>, c: Seq<char>)
    requires
        str_le(a, b),
        str_le(b, c),
    ensures
        str_le(a, c),
    decreases a.len(),
{
    if a.len() > 0 && b.len() > 0 && c.len() > 0 && !(a[0] < b[0]) && !(b[0] < a[0]) && !(b[0]
        < c[0]) && !(c[0] < b[0]) {
        lemma_str_le_trans(a.drop_first(), b.drop_first(), c.drop_first());
    }
}

/// Strict order is transitive.
pub proof fn lemma_str_lt_trans(a: Seq<char>, b: Seq<char>, c: Seq<char>)
    requires
        str_lt(a, b),
        str_lt(b, c),
    ensures
        str_lt(a, c),
{
    lemma_str_le_trans(a, b, c);
    if a == c {
        lemma_str_le_antisym(a, b);
    }
}

/// Equal prefixes do not affect the order of what follows.
proof fn lemma_str_le_skip(a: Seq<char>, b: Seq<char>, i: int)
    requires
        0 <= i <= a.len(),
        i <= b.len(),
        forall|j: int| 0 <= j < i ==> a[j] == b[j],
    ensures
        str_le(a, b) == str_le(a.skip(i), b.skip(i)),
    decreases i,
{
    if i > 0 {
        lemma_str_le_skip(a.drop_first(), b.drop_first(), i - 1);
        assert(a.drop_first().skip(i - 1) =~= a.skip(i));
        assert(b.drop_first().skip(i - 1) =~= b.skip(i));
    } else {
        assert(a.skip(0) =~= a);
        assert(b.skip(0) =~= b);
    }
}

/// Is `a` lexicographically at most `b`?
pub fn str_le_exec(a: &str, b: &str) -> (r: bool)
    ensures
        r == str_le(a@, b@),
{
    let na = a.unicode_len();
    let nb = b.unicode_len();
    let n = if na < nb {
        na
    } else {
        nb
    };
    let mut i: usize = 0;
    while i < n
        invariant
            0 <= i <= n,
            na == a@.len(),
            nb == b@.len(),
            n == if na < nb {
                na as int
            } else {
                nb as int
            },
            forall|j: int| 0 <= j < i ==> a@[j] == b@[j],
        decreases n - i,
    {
        let ca = a.get_char(i);
        let cb = b.get_char(i);
        if ca != cb {
            proof {
                lemma_str_le_skip(a@, b@, i as int);
                assert(a@.skip(i as int)[0] == a@[i as int]);
                assert(b@.skip(i as int)[0] == b@[i as int]);
            }
            return ca < cb;
        }
        i = i + 1;
    }
    proof {
        lemma_str_le_skip(a@, b@, n as int);
        if na <= nb {
            assert(a@.skip(n as int).len() == 0);
        } else {
            assert(b@.skip(n as int).len() == 0);
            assert(a@.skip(n as int).len() > 0);
        }
    }
    na <= nb
}

/// The lines of `s`: maximal runs of characters between newline
/// characters.  A text of `n` newlines has `n + 1` lines; the empty
/// text has one empty line.
pub open spec fn spec_lines(s: Seq<char>) -> Seq<Seq<char>>
    decreases s.len(),
{
    if s.len() == 0 {
        seq![Seq::empty()]
    } else if s[0] == '\n' {
        seq![Seq::<char>::empty()] + spec_lines(s.drop_first())
    } else {
        let rest = spec_lines(s.drop_first());
        seq![seq![s[0]] + rest[0]] + rest.skip(1)
    }
}

/// The inverse of `spec_lines`: lines joined by single newlines.
pub open spec fn spec_unlines(ls: Seq<Seq<char>>) -> Seq<char>
    decreases ls.len(),
{
    if ls.len() == 0 {
        Seq::empty()
    } else if ls.len() == 1 {
        ls[0]
    } else {
        ls[0] + seq!['\n'] + spec_unlines(ls.drop_first())
    }
}

/// A text that holds no newline is one single line.
pub proof fn lemma_lines_whole(s: Seq<char>)
    requires
        forall|j: int| 0 <= j < s.len() ==> s[j] != '\n',
    ensures
        spec_lines(s) == seq![s],
    decreases s.len(),
{
    if s.len() > 0 {
        lemma_lines_whole(s.drop_first());
        let rest = spec_lines(s.drop_first());
        assert(rest == seq![s.drop_first()]);
        assert(rest.skip(1) =~= Seq::<Seq<char>>::empty());
        assert(seq![s[0]] + rest[0] =~= s);
        assert(spec_lines(s) =~= seq![s]);
    } else {
        assert(s =~= Seq::<char>::empty());
        assert(spec_lines(s) =~= seq![s]);
    }
}

/// Splitting at the first newline peels off the first line.
pub proof fn lemma_lines_cons(l: Seq<char>, rest: Seq<char>)
    requires
        forall|j: int| 0 <= j < l.len() ==> l[j] != '\n',
    ensures
        spec_lines(l + seq!['\n'] + rest) == seq![l] + spec_lines(rest),
    decreases l.len(),
{
    let s = l + seq!['\n'] + rest;
    if l.len() == 0 {
        assert(s =~= seq!['\n'] + rest);
        assert(s[0] == '\n');
        assert(s.drop_first() =~= rest);
        assert(l =~= Seq::<char>::empty());
        assert(spec_lines(s) =~= seq![l] + spec_lines(rest));
    } else {
        lemma_lines_cons(l.drop_first(), rest);
        assert(s[0] == l[0]);
        assert(s[0] != '\n');
        assert(s.drop_first() =~= l.drop_first() + seq!['\n'] + rest);
        let r = spec_lines(s.drop_first());
        assert(r == seq![l.drop_first()] + spec_lines(rest));
        assert(r[0] == l.drop_first());
        assert(seq![s[0]] + r[0] =~= l);
        assert(r.skip(1) =~= spec_lines(rest));
        assert(spec_lines(s) =~= seq![l] + spec_lines(rest));
    }
}

/// Joining and splitting lines round-trips, provided no line holds a
/// newline of its own.
pub proof fn lemma_lines_unlines(ls: Seq<Seq<char>>)
    requires
        ls.len() > 0,
        forall|i: int, j: int|
            0 <= i < ls.len() && 0 <= j < ls[i].len() ==> #[trigger] ls[i][j] != '\n',
    ensures
        spec_lines(spec_unlines(ls)) == ls,
    decreases ls.len(),
{
    if ls.len() == 1 {
        assert(forall|j: int| 0 <= j < ls[0].len() ==> ls[0][j] != '\n');
        lemma_lines_whole(ls[0]);
        assert(spec_lines(spec_unlines(ls)) =~= ls);
    } else {
        lemma_lines_unlines(ls.drop_first());
        assert(forall|j: int| 0 <= j < ls[0].len() ==> ls[0][j] != '\n');
        lemma_lines_cons(ls[0], spec_unlines(ls.drop_first()));
        assert(spec_lines(spec_unlines(ls)) =~= ls);
    }
}

/// Split `s` into its lines.
pub fn split_lines(s: &str) -> (r: Vec<String>)
    ensures
        r.deep_view() == spec_lines(s@),
{
    let n = s.unicode_len();
    let mut r: Vec<String> = Vec::new();
    let mut start: usize = 0;
    proof {
        assert(r.deep_view() =~= Seq::<Seq<char>>::empty());
        assert(s@.skip(0) =~= s@);
        assert(r.deep_view() + spec_lines(s@.skip(0)) =~= spec_lines(s@));
    }
    loop
        invariant
            0 <= start <= n,
            n == s@.len(),
            spec_lines(s@) == r.deep_view() + spec_lines(s@.skip(start as int)),
            start > 0 ==> s@[start as int - 1] == '\n',
        decreases n - start,
    {
        let found = find_char(s, '\n', start);
        proof {
            lemma_find_from(s@, '\n', start as int);
        }
        match found {
            Some(i) => {
                let line = substring(s, start, i);
                proof {
                    let tail = s@.skip(start as int);
                    let l = s@.subrange(start as int, i as int);
                    assert(forall|j: int| 0 <= j < l.len() ==> l[j] != '\n');
                    assert(tail =~= l + seq!['\n'] + s@.skip(i as int + 1));
                    lemma_lines_cons(l, s@.skip(i as int + 1));
                }
                let ghost pre = r.deep_view();
                r.push(line);
                proof {
                    assert(r.deep_view() =~= pre.push(line@));
                }
                assert(spec_lines(s@) == r.deep_view() + spec_lines(s@.skip(i as int + 1)));
                start = i + 1;
            },
            None => {
                let line = substring(s, start, n);
                proof {
                    let tail = s@.skip(start as int);
                    assert(tail =~= s@.subrange(start as int, n as int));
                    assert(forall|j: int| 0 <= j < tail.len() ==> tail[j] != '\n');
                    lemma_lines_whole(tail);
                }
                let ghost pre = r.deep_view();
                r.push(line);
                proof {
                    assert(r.deep_view() =~= pre.push(line@));
                    assert(r.deep_view() =~= spec_lines(s@));
                }
                return r;
            },
        }
    }
}

/// Join `lines` with single newlines.
pub fn join_lines(lines: &Vec<String>) -> (r: String)
    requires
        lines@.len() > 0,
    ensures
        r@ == spec_unlines(lines.deep_view()),
{
    let mut r = lines[0].clone();
    let mut i: usize = 1;
    let n = lines.len();
    while i < n
        invariant
            1 <= i <= n,
            n == lines@.len(),
            r@ == spec_unlines(lines.deep_view().take(i as int)),
        decreases n - i,
    {
        r.append("\n");
        proof {
            reveal_strlit("\n");
        }
        r.append(lines[i].as_str());
        proof {
            lemma_unlines_snoc(lines.deep_view().take(i as int), lines.deep_view()[i as int]);
            assert(lines.deep_view().take(i as int).push(lines.deep_view()[i as int]) =~= lines
                .deep_view()
                .take(i as int + 1));
        }
        i = i + 1;
    }
    proof {
        assert(lines.deep_view().take(n as int) =~= lines.deep_view());
    }
    r
}

/// `items` joined by `sep`.
pub open spec fn spec_join(items: Seq<Seq<char>>, sep: Seq<char>) -> Seq<char>
    decreases items.len(),
{
    if items.len() == 0 {
        Seq::empty()
    } else if items.len() == 1 {
        items[0]
    } else {
        items[0] + sep + spec_join(items.drop_first(), sep)
    }
}

/// Joining one more item appends the separator and that item.
pub proof fn lemma_join_snoc(items: Seq<Seq<char>>, sep: Seq<char>, l: Seq<char>)
    requires
        items.len() > 0,
    ensures
        spec_join(items.push(l), sep) == spec_join(items, sep) + sep + l,
    decreases items.len(),
{
    if items.len() == 1 {
        reveal_with_fuel(spec_join, 2);
        assert(items.push(l).drop_first() =~= seq![l]);
        assert(spec_join(items.push(l), sep) =~= items[0] + sep + l);
    } else {
        lemma_join_snoc(items.drop_first(), sep, l);
        assert(items.push(l).drop_first() =~= items.drop_first().push(l));
        assert(spec_join(items.push(l), sep) =~= spec_join(items, sep) + sep + l);
    }
}

/// Appending one more line appends a newline and that line.
pub proof fn lemma_unlines_snoc(ls: Seq<Seq<char>>, l: Seq<char>)
    requires
        ls.len() > 0,
    ensures
        spec_unlines(ls.push(l)) == spec_unlines(ls) + seq!['\n'] + l,
    decreases ls.len(),
{
    if ls.len() == 1 {
        reveal_with_fuel(spec_unlines, 2);
        assert(ls.push(l).drop_first() =~= seq![l]);
        assert(spec_unlines(ls.push(l)) =~= ls[0] + seq!['\n'] + l);
    } else {
        lemma_unlines_snoc(ls.drop_first(), l);
        assert(ls.push(l).drop_first() =~= ls.drop_first().push(l));
        assert(spec_unlines(ls.push(l)) =~= spec_unlines(ls) + seq!['\n'] + l);
    }
}

} // verus!
