//! Operator catalog: `category` heading lines followed by
//! `name - description` lines, searched by name prefix for autocomplete.

use vstd::prelude::*;

use crate::catalog::OPERATOR_CATALOG;
use crate::text::{
    chars_of, eq_ignore_ascii_case, find, find_from, matches_at, range_eq_ignore_ascii_case, trim,
    trim_bounds,
};

verus! {

broadcast use vstd::string::group_string_axioms;

/// `" - "`, the separator between a name and its description.
pub open spec fn spaced_dash() -> Seq<char> {
    seq![' ', '-', ' ']
}

/// `"- "`, the separator some catalog lines use instead.
pub open spec fn dash_space() -> Seq<char> {
    seq!['-', ' ']
}

/// Name before position `i` and description after the `w`-character
/// separator there, both trimmed; `None` when either is empty.
pub open spec fn name_desc_at(s: Seq<char>, i: int, w: int) -> Option<(Seq<char>, Seq<char>)> {
    let n = trim(s.take(i));
    let d = trim(s.skip(i + w));
    if n.len() > 0 && d.len() > 0 {
        Some((n, d))
    } else {
        None
    }
}

/// Splits at the first `" - "`; failing that, at the first `"- "` that is not
/// the first character.
pub open spec fn spec_split_name_description(s: Seq<char>) -> Option<(Seq<char>, Seq<char>)> {
    let first = match find_from(s, spaced_dash(), 0) {
        Some(i) => name_desc_at(s, i, 3),
        None => None,
    };
    if first is Some {
        first
    } else {
        match find_from(s, dash_space(), 0) {
            Some(p) => if p > 0 {
                name_desc_at(s, p, 2)
            } else {
                None
            },
            None => None,
        }
    }
}

/// The first match found from `j` is a match at or after `j`.
pub proof fn lemma_find_from(s: Seq<char>, pat: Seq<char>, j: int)
    requires
        j >= 0,
    ensures
        find_from(s, pat, j) matches Some(i) ==> j <= i && matches_at(s, pat, i) && i + pat.len() <= s.len(),
        find_from(s, pat, j) matches Some(i) ==> forall|k: int| j <= k < i ==> !#[trigger] matches_at(s, pat, k),
        find_from(s, pat, j) is None ==> forall|k: int| j <= k ==> !#[trigger] matches_at(s, pat, k),
    decreases s.len() + 1 - j,
{
    if j + pat.len() <= s.len() && !matches_at(s, pat, j) {
        lemma_find_from(s, pat, j + 1);
    }
}

/// Cuts `line[..i]` and `line[i + w..]`, trimmed, when both are non-empty.
fn cut_at(line: &str, cs: &Vec<char>, i: usize, w: usize) -> (r: Option<(String, String)>)
    requires
        cs@ == line@,
        i + w <= cs@.len(),
    ensures
        match name_desc_at(line@, i as int, w as int) {
            Some((n, d)) => r matches Some((rn, rd)) && rn@ == n && rd@ == d,
            None => r is None,
        },
{
    let n = cs.len();
    let (na, nb) = trim_bounds(cs, 0, i);
    let (da, db) = trim_bounds(cs, i + w, n);
    assert(cs@.subrange(0, i as int) =~= line@.take(i as int));
    assert(cs@.subrange(i + w, cs@.len() as int) =~= line@.skip(i + w));
    if na < nb && da < db {
        let name = line.substring_char(na, nb).to_owned();
        let desc = line.substring_char(da, db).to_owned();
        Some((name, desc))
    } else {
        None
    }
}

/// Splits `op - description`, or `op- description` as some catalog lines
/// are written, into trimmed name and description; `None` when the line has
/// neither form or either part is empty.
pub fn split_name_description(line: &str) -> (r: Option<(String, String)>)
    ensures
        match spec_split_name_description(line@) {
            Some((n, d)) => r matches Some((rn, rd)) && rn@ == n && rd@ == d,
            None => r is None,
        },
{
    let cs = chars_of(line);
    let mut spaced: Vec<char> = Vec::new();
    spaced.push(' ');
    spaced.push('-');
    spaced.push(' ');
    assert(spaced@ =~= spaced_dash());
    let mut dash: Vec<char> = Vec::new();
    dash.push('-');
    dash.push(' ');
    assert(dash@ =~= dash_space());
    proof {
        lemma_find_from(line@, spaced_dash(), 0);
        lemma_find_from(line@, dash_space(), 0);
    }
    if let Some(i) = find(&cs, &spaced) {
        let r = cut_at(line, &cs, i, 3);
        if r.is_some() {
            return r;
        }
    }
    if let Some(p) = find(&cs, &dash) {
        if p > 0 {
            return cut_at(line, &cs, p, 2);
        }
    }
    None
}

/// One catalog entry: the category heading it appeared under, its name and
/// its description.
#[derive(Clone, Debug, PartialEq, Eq)]
pub struct OperatorEntry {
    pub category: String,
    pub name: String,
    pub description: String,
}

impl View for OperatorEntry {
    type V = (Seq<char>, Seq<char>, Seq<char>);

    open spec fn view(&self) -> (Seq<char>, Seq<char>, Seq<char>) {
        (self.category@, self.name@, self.description@)
    }
}

/// The views of a sequence of entries.
pub open spec fn entry_views(es: Seq<OperatorEntry>) -> Seq<(Seq<char>, Seq<char>, Seq<char>)> {
    es.map_values(|e: OperatorEntry| e@)
}

/// `s` cut at every `'\n'` (the last piece may be empty).
pub open spec fn split_lines(s: Seq<char>) -> Seq<Seq<char>>
    decreases s.len(),
{
    match find_from(s, seq!['\n'], 0) {
        Some(i) => {
            proof {
                lemma_find_from(s, seq!['\n'], 0);
            }
            seq![s.take(i)] + split_lines(s.skip(i + 1))
        },
        None => seq![s],
    }
}

/// `"general"`, the category of entries before the first heading.
pub open spec fn general() -> Seq<char> {
    seq!['g', 'e', 'n', 'e', 'r', 'a', 'l']
}

/// `"operator list"`, a title line that is skipped whatever its case.
pub open spec fn title() -> Seq<char> {
    seq!['o', 'p', 'e', 'r', 'a', 't', 'o', 'r', ' ', 'l', 'i', 's', 't']
}

/// Entries of the catalog lines, each trimmed: blank lines and the title are
/// skipped, `name - description` lines become entries under `category`, and
/// any other line becomes the category of the entries after it.
pub open spec fn parse_lines(lines: Seq<Seq<char>>, category: Seq<char>) -> Seq<(Seq<char>, Seq<char>, Seq<char>)>
    decreases lines.len(),
{
    if lines.len() == 0 {
        Seq::empty()
    } else {
        let line = trim(lines[0]);
        let rest = lines.drop_first();
        if line.len() == 0 || eq_ignore_ascii_case(line, title()) {
            parse_lines(rest, category)
        } else {
            match spec_split_name_description(line) {
                Some((n, d)) => seq![(category, n, d)] + parse_lines(rest, category),
                None => parse_lines(rest, line),
            }
        }
    }
}

/// The entries of a catalog text (`str::lines` of it, each trimmed, so a
/// `'\r'` before a line break does not matter).
pub open spec fn spec_parse_operator_list(text: Seq<char>) -> Seq<(Seq<char>, Seq<char>, Seq<char>)> {
    parse_lines(split_lines(text), general())
}

/// Cutting at the first line break at `j` (or at the end when there is none).
proof fn lemma_split_lines_step(s: Seq<char>, j: int)
    requires
        0 <= j <= s.len(),
        forall|k: int| 0 <= k < j ==> s[k] != '\n',
        j < s.len() ==> s[j] == '\n',
    ensures
        j < s.len() ==> split_lines(s) == seq![s.take(j)] + split_lines(s.skip(j + 1)),
        j == s.len() ==> split_lines(s) == seq![s],
{
    let nl = seq!['\n'];
    lemma_find_from(s, nl, 0);
    assert forall|k: int| 0 <= k < j implies !#[trigger] matches_at(s, nl, k) by {
        if matches_at(s, nl, k) {
            assert(s.subrange(k, k + 1)[0] == s[k]);
        }
    }
    if j < s.len() {
        assert(s.subrange(j, j + 1) =~= nl);
        assert(matches_at(s, nl, j));
    }
}

/// Parses a catalog text: trimmed lines, blank lines and the
/// `Operator List` title skipped, `name - description` lines as entries of the
/// current category, every other line starting a new category (`general`
/// before the first).
pub fn parse_operator_list(text: &str) -> (out: Vec<OperatorEntry>)
    ensures
        entry_views(out@) == spec_parse_operator_list(text@),
{
    let cs = chars_of(text);
    let n = cs.len();
    let mut category = "general".to_owned();
    let header = chars_of("operator list");
    proof {
        reveal_strlit("general");
        reveal_strlit("operator list");
        assert(category@ =~= general());
        assert(header@ =~= title());
    }
    let mut out: Vec<OperatorEntry> = Vec::new();
    let mut start: usize = 0;
    assert(cs@.skip(0) =~= cs@);
    loop
        invariant
            n == cs@.len(),
            cs@ == text@,
            header@ == title(),
            start <= n,
            spec_parse_operator_list(text@) == entry_views(out@) + parse_lines(
                split_lines(cs@.skip(start as int)),
                category@,
            ),
        decreases n - start,
    {
        let mut i = start;
        while i < n && cs[i] != '\n'
            invariant
                start <= i <= n,
                n == cs@.len(),
                forall|k: int| start <= k < i ==> cs@[k] != '\n',
            decreases n - i,
        {
            i = i + 1;
        }
        let ghost rest = cs@.skip(start as int);
        let ghost line = cs@.subrange(start as int, i as int);
        proof {
            lemma_split_lines_step(rest, i - start);
            assert(rest.take(i - start) =~= line);
            if i < n {
                assert(rest.skip(i - start + 1) =~= cs@.skip(i + 1));
            }
        }
        let ghost tail = if i < n {
            split_lines(cs@.skip(i + 1))
        } else {
            Seq::<Seq<char>>::empty()
        };
        assert(split_lines(rest) =~= seq![line] + tail);
        assert((seq![line] + tail).drop_first() =~= tail);
        let (a, b) = trim_bounds(&cs, start, i);
        let ghost prev = out@;
        if a < b && !range_eq_ignore_ascii_case(&cs, a, b, &header) {
            let piece = text.substring_char(a, b);
            match split_name_description(piece) {
                Some((name, description)) => {
                    let entry = OperatorEntry { category: category.clone(), name, description };
                    out.push(entry);
                    proof {
                        assert(entry_views(out@) =~= entry_views(prev) + seq![entry@]);
                    }
                },
                None => {
                    category = piece.to_owned();
                },
            }
        }
        assert(spec_parse_operator_list(text@) == entry_views(out@) + parse_lines(tail, category@));
        if i == n {
            assert(parse_lines(tail, category@) =~= Seq::empty());
            assert(entry_views(out@) + parse_lines(tail, category@) =~= entry_views(out@));
            return out;
        }
        start = i + 1;
    }
}

/// Case folding as `str::to_lowercase` does it (full Unicode lower case).
pub uninterp spec fn std_to_lowercase(s: Seq<char>) -> Seq<char>;

/// Calls `str::to_lowercase`. Its result is named, not stated: the Unicode
/// case tables are left to std.
#[verifier::external_body]
fn to_lowercase(s: &str) -> (r: String)
    ensures
        r@ == std_to_lowercase(s@),
{
    s.to_lowercase()
}

/// Positions (in order) of the names that start with `needle`.
pub open spec fn prefix_hits(names: Seq<Seq<char>>, needle: Seq<char>) -> Seq<int>
    decreases names.len(),
{
    if names.len() == 0 {
        Seq::empty()
    } else {
        let rest = prefix_hits(names.drop_last(), needle);
        if needle.is_prefix_of(names.last()) {
            rest.push(names.len() - 1)
        } else {
            rest
        }
    }
}

/// The first `limit` of the positions `hits`.
pub open spec fn first_hits(hits: Seq<int>, limit: usize) -> Seq<int> {
    if hits.len() <= limit {
        hits
    } else {
        hits.take(limit as int)
    }
}

/// Whether `needle` starts `s`.
pub fn starts_with(s: &str, needle: &str) -> (r: bool)
    ensures
        r == needle@.is_prefix_of(s@),
{
    let a = chars_of(s);
    let b = chars_of(needle);
    if b.len() > a.len() {
        return false;
    }
    let mut k: usize = 0;
    while k < b.len()
        invariant
            0 <= k <= b@.len(),
            a@ == s@,
            b@ == needle@,
            b@.len() <= a@.len(),
            forall|j: int| 0 <= j < k ==> a@[j] == b@[j],
        decreases b.len() - k,
    {
        if a[k] != b[k] {
            assert(a@.subrange(0, b@.len() as int)[k as int] == a@[k as int]);
            return false;
        }
        k = k + 1;
    }
    assert(b@ =~= a@.subrange(0, b@.len() as int));
    true
}

/// The entries (in catalog order, at most `limit`) whose folded name, given
/// in `lowered_names` at the same position, starts with `needle`.
pub fn prefix_matches<'a>(
    entries: &'a [OperatorEntry],
    lowered_names: &[String],
    needle: &str,
    limit: usize,
) -> (hits: Vec<&'a OperatorEntry>)
    requires
        lowered_names@.len() == entries@.len(),
    ensures
        ({
            let idx = first_hits(
                prefix_hits(lowered_names@.map_values(|s: String| s@), needle@),
                limit,
            );
            &&& hits@.len() == idx.len()
            &&& forall|k: int| 0 <= k < idx.len() ==> *#[trigger] hits@[k] == entries@[idx[k]]
        }),
{
    let ghost names = lowered_names@.map_values(|s: String| s@);
    let mut hits: Vec<&'a OperatorEntry> = Vec::new();
    let mut i: usize = 0;
    while i < entries.len()
        invariant
            0 <= i <= entries@.len(),
            lowered_names@.len() == entries@.len(),
            names == lowered_names@.map_values(|s: String| s@),
            ({
                let idx = first_hits(prefix_hits(names.take(i as int), needle@), limit);
                &&& hits@.len() == idx.len()
                &&& forall|k: int| 0 <= k < idx.len() ==> *#[trigger] hits@[k] == entries@[idx[k]]
            }),
        decreases entries.len() - i,
    {
        let ghost before = prefix_hits(names.take(i as int), needle@);
        assert(names.take(i + 1).drop_last() =~= names.take(i as int));
        assert(names.take(i + 1).last() == lowered_names@[i as int]@);
        if hits.len() < limit && starts_with(lowered_names[i].as_str(), needle) {
            hits.push(&entries[i]);
        }
        i = i + 1;
        proof {
            let after = prefix_hits(names.take(i as int), needle@);
            if before.len() >= limit {
                assert(first_hits(after, limit) =~= first_hits(before, limit));
            }
        }
    }
    assert(names.take(i as int) =~= names);
    hits
}

/// Folded names of the entries, in order.
fn lowered_names(entries: &Vec<OperatorEntry>) -> (r: Vec<String>)
    ensures
        r@.len() == entries@.len(),
        forall|k: int| 0 <= k < r@.len() ==> #[trigger] r@[k]@ == std_to_lowercase(entries@[k].name@),
{
    let mut r: Vec<String> = Vec::new();
    let mut i: usize = 0;
    while i < entries.len()
        invariant
            0 <= i <= entries@.len(),
            r@.len() == i,
            forall|k: int| 0 <= k < i ==> #[trigger] r@[k]@ == std_to_lowercase(entries@[k].name@),
        decreases entries.len() - i,
    {
        r.push(to_lowercase(entries[i].name.as_str()));
        i = i + 1;
    }
    r
}

/// Folded names of `es`, the form `match_prefix` compares.
pub open spec fn folded_names(es: Seq<OperatorEntry>) -> Seq<Seq<char>> {
    es.map_values(|e: OperatorEntry| std_to_lowercase(e.name@))
}

/// Index of the first candidate whose text was read, from position `k`.
pub open spec fn first_read(candidates: Seq<(String, Option<String>)>, k: int) -> Option<int>
    decreases candidates.len() - k,
{
    if k < 0 || k >= candidates.len() {
        None
    } else if candidates[k].1 is Some {
        Some(k)
    } else {
        first_read(candidates, k + 1)
    }
}

/// The operator catalog: its entries and the file it came from, if any.
#[derive(Clone, Debug)]
pub struct OperatorLibrary {
    entries: Vec<OperatorEntry>,
    source: Option<String>,
}

impl Default for OperatorLibrary {
    fn default() -> (lib: Self)
        ensures
            lib.spec_entries() == Seq::<(Seq<char>, Seq<char>, Seq<char>)>::empty(),
            lib.spec_source() is None,
    {
        let lib = OperatorLibrary { entries: Vec::new(), source: None };
        assert(lib.spec_entries() =~= Seq::empty());
        lib
    }
}

impl OperatorLibrary {
    /// The entries, as views, in catalog order.
    pub closed spec fn spec_entries(self) -> Seq<(Seq<char>, Seq<char>, Seq<char>)> {
        entry_views(self.entries@)
    }

    /// The entries themselves.
    pub closed spec fn entry_seq(self) -> Seq<OperatorEntry> {
        self.entries@
    }

    /// The catalog file's path, if the catalog was read from one.
    pub closed spec fn spec_source(self) -> Option<Seq<char>> {
        match self.source {
            Some(s) => Some(s@),
            None => None,
        }
    }

    /// The built-in catalog.
    pub fn embedded() -> (lib: Self)
        ensures
            lib.spec_entries() == spec_parse_operator_list(OPERATOR_CATALOG@),
            lib.spec_source() is None,
    {
        Self::from_str(OPERATOR_CATALOG).with_source(None)
    }

    /// The catalog from the first candidate file whose text could be read
    /// (`(path, text)` pairs, in order of preference), with that path as its
    /// source; the built-in catalog when none could be read.
    pub fn load_preferred(candidates: &[(String, Option<String>)]) -> (lib: Self)
        ensures
            match first_read(candidates@, 0) {
                Some(k) => lib.spec_entries() == spec_parse_operator_list(candidates@[k].1->0@)
                    && lib.spec_source() == Some(candidates@[k].0@),
                None => lib.spec_entries() == spec_parse_operator_list(OPERATOR_CATALOG@)
                    && lib.spec_source() is None,
            },
    {
        let mut k: usize = 0;
        while k < candidates.len()
            invariant
                0 <= k <= candidates@.len(),
                first_read(candidates@, 0) == first_read(candidates@, k as int),
            decreases candidates.len() - k,
        {
            let (path, text) = &candidates[k];
            if let Some(text) = text {
                let lib = Self::from_str(text.as_str());
                return lib.with_source(Some(path.clone()));
            }
            k = k + 1;
        }
        Self::embedded()
    }

    /// The catalog described by `text`, with no source file.
    pub fn from_str(text: &str) -> (lib: Self)
        ensures
            lib.spec_entries() == spec_parse_operator_list(text@),
            lib.spec_source() is None,
    {
        OperatorLibrary { entries: parse_operator_list(text), source: None }
    }

    /// The same catalog, recorded as read from `source`.
    pub fn with_source(self, source: Option<String>) -> (lib: Self)
        ensures
            lib.spec_entries() == self.spec_entries(),
            lib.entry_seq() == self.entry_seq(),
            lib.spec_source() == (match source {
                Some(s) => Some(s@),
                None => None,
            }),
    {
        OperatorLibrary { entries: self.entries, source }
    }

    /// The catalog file's path, if it was read from one.
    pub fn source(&self) -> (r: Option<&str>)
        ensures
            match self.spec_source() {
                Some(p) => r matches Some(s) && s@ == p,
                None => r is None,
            },
    {
        match &self.source {
            Some(s) => Some(s.as_str()),
            None => None,
        }
    }

    pub fn len(&self) -> (n: usize)
        ensures
            n == self.spec_entries().len(),
    {
        self.entries.len()
    }

    pub fn is_empty(&self) -> (b: bool)
        ensures
            b == (self.spec_entries().len() == 0),
    {
        self.entries.len() == 0
    }

    pub fn entries(&self) -> (r: &[OperatorEntry])
        ensures
            r@ == self.entry_seq(),
            entry_views(r@) == self.spec_entries(),
    {
        self.entries.as_slice()
    }

    /// Entries whose name starts with `prefix`, compared after
    /// `str::to_lowercase` of both; at most `limit`, in catalog order; none
    /// for an empty prefix.
    pub fn match_prefix<'a>(&'a self, prefix: &str, limit: usize) -> (hits: Vec<&'a OperatorEntry>)
        ensures
            prefix@.len() == 0 ==> hits@.len() == 0,
            prefix@.len() > 0 ==> ({
                let idx = first_hits(
                    prefix_hits(folded_names(self.entry_seq()), std_to_lowercase(prefix@)),
                    limit,
                );
                &&& hits@.len() == idx.len()
                &&& forall|k: int| 0 <= k < idx.len() ==> *#[trigger] hits@[k] == self.entry_seq()[idx[k]]
            }),
    {
        if prefix.unicode_len() == 0 {
            return Vec::new();
        }
        let needle = to_lowercase(prefix);
        let names = lowered_names(&self.entries);
        assert(names@.map_values(|s: String| s@) =~= folded_names(self.entries@));
        prefix_matches(self.entries.as_slice(), names.as_slice(), needle.as_str(), limit)
    }
}

} // verus!
