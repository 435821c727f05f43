//! Template file scanning and rendering.

use vstd::prelude::*;

use crate::glob::{
    builder_add, builder_build, builder_new, builder_plain, glob_new, glob_parses, matches_any,
    set_builds, set_is_match, set_patterns, set_plain,
};
use crate::paths::{char_views, insert_sorted, path_le, paths_sorted};
use crate::editor::{keys_unique, map_of, pair_views, ParamMap};
use crate::text::{chars_of, find_char, index_of, push_decimal, string_of, trim, trim_bounds, views};
use globset::GlobSet;

verus! {

/// Whether `char::is_alphanumeric` holds of `c`: the character is Unicode
/// `Alphabetic` or has a Unicode numeric general category.
pub uninterp spec fn is_alphanumeric(c: char) -> bool;

/// `char::is_alphanumeric`.  Claims only that the result is the value that
/// the standard library's Unicode tables give for `c`, named `is_alphanumeric`.
#[verifier::external_body]
fn char_is_alphanumeric(c: char) -> (r: bool)
    ensures
        r == is_alphanumeric(c),
{
    c.is_alphanumeric()
}

/// A character that may appear in a variable name: alphanumeric or `_`.
pub open spec fn is_name_char(c: char) -> bool {
    is_alphanumeric(c) || c == '_'
}

/// Number of leading spaces and tabs of `s`.
pub open spec fn blank_len(s: Seq<char>) -> nat
    decreases s.len(),
{
    if s.len() > 0 && (s[0] == ' ' || s[0] == '\t') {
        1 + blank_len(s.drop_first())
    } else {
        0
    }
}

/// Length of the longest prefix of `s` made of name characters.
pub open spec fn name_len(s: Seq<char>) -> nat
    decreases s.len(),
{
    if s.len() > 0 && is_name_char(s[0]) {
        1 + name_len(s.drop_first())
    } else {
        0
    }
}

/// The variable name that follows an opening `{{`, whose remaining text is
/// `rest`: spaces and tabs are skipped, then the name characters are taken.
/// Empty when no name character follows.
pub open spec fn name_after_open(rest: Seq<char>) -> Seq<Seq<char>> {
    let inner = rest.skip(blank_len(rest) as int);
    let end = name_len(inner);
    if end > 0 {
        seq![inner.take(end as int)]
    } else {
        seq![]
    }
}

/// The variable names of `{{ identifier }}` expressions in `s`, in order:
/// the text is searched for `{{` from the left, each match contributes the
/// name that follows it (if any), and the search resumes right after the `{{`.
pub open spec fn var_names(s: Seq<char>) -> Seq<Seq<char>>
    decreases s.len(),
{
    if s.len() < 2 {
        seq![]
    } else if s[0] == '{' && s[1] == '{' {
        name_after_open(s.skip(2)) + var_names(s.skip(2))
    } else {
        var_names(s.drop_first())
    }
}

/// The name that follows an opening `{{` ending just before `start`, in
/// `v[..hi]`: its bounds in `v`, equal when there is none.
fn name_bounds(v: &Vec<char>, start: usize, hi: usize) -> (r: (usize, usize))
    requires
        start <= hi <= v@.len(),
    ensures
        start <= r.0 <= r.1 <= hi,
        name_after_open(v@.subrange(start as int, hi as int)) == (if r.0 < r.1 {
            seq![v@.subrange(r.0 as int, r.1 as int)]
        } else {
            Seq::<Seq<char>>::empty()
        }),
{
    let mut k = start;
    while k < hi && (v[k] == ' ' || v[k] == '\t')
        invariant
            start <= k <= hi <= v@.len(),
            blank_len(v@.subrange(start as int, hi as int)) == (k - start) + blank_len(
                v@.subrange(k as int, hi as int),
            ),
        decreases hi - k,
    {
        assert(v@.subrange(k as int, hi as int).drop_first() == v@.subrange(k + 1, hi as int));
        k = k + 1;
    }
    assert(blank_len(v@.subrange(k as int, hi as int)) == 0);
    assert(v@.subrange(start as int, hi as int).skip(
        blank_len(v@.subrange(start as int, hi as int)) as int,
    ) == v@.subrange(k as int, hi as int));
    let mut e = k;
    while e < hi && (char_is_alphanumeric(v[e]) || v[e] == '_')
        invariant
            k <= e <= hi <= v@.len(),
            name_len(v@.subrange(k as int, hi as int)) == (e - k) + name_len(
                v@.subrange(e as int, hi as int),
            ),
        decreases hi - e,
    {
        assert(v@.subrange(e as int, hi as int).drop_first() == v@.subrange(e + 1, hi as int));
        e = e + 1;
    }
    assert(name_len(v@.subrange(e as int, hi as int)) == 0);
    assert(v@.subrange(k as int, hi as int).take((e - k) as int) == v@.subrange(k as int, e as int));
    (k, e)
}

/// The variable names of `v[lo..hi]`.
fn names_in_range(v: &Vec<char>, lo: usize, hi: usize) -> (r: Vec<String>)
    requires
        lo <= hi <= v@.len(),
    ensures
        views(r@) == var_names(v@.subrange(lo as int, hi as int)),
{
    let mut vars: Vec<String> = Vec::new();
    let mut i: usize = lo;
    assert(views(vars@) == Seq::<Seq<char>>::empty());
    assert(views(vars@) + var_names(v@.subrange(lo as int, hi as int)) == var_names(
        v@.subrange(lo as int, hi as int),
    ));
    while hi - i >= 2
        invariant
            lo <= i <= hi <= v@.len(),
            views(vars@) + var_names(v@.subrange(i as int, hi as int)) == var_names(
                v@.subrange(lo as int, hi as int),
            ),
        decreases hi - i,
    {
        let ghost cur = v@.subrange(i as int, hi as int);
        if v[i] == '{' && v[i + 1] == '{' {
            let (a, b) = name_bounds(v, i + 2, hi);
            assert(cur.skip(2) == v@.subrange(i + 2, hi as int));
            if a < b {
                let name = string_of(v, a, b);
                let ghost old_vars = views(vars@);
                vars.push(name);
                assert(views(vars@) == old_vars.push(name@));
                assert(views(vars@) + var_names(v@.subrange(i + 2, hi as int)) == old_vars + (
                seq![name@] + var_names(v@.subrange(i + 2, hi as int))));
            } else {
                assert(var_names(cur) == var_names(v@.subrange(i + 2, hi as int)));
            }
            i = i + 2;
        } else {
            assert(cur.drop_first() == v@.subrange(i + 1, hi as int));
            i = i + 1;
        }
    }
    assert(var_names(v@.subrange(i as int, hi as int)) == Seq::<Seq<char>>::empty());
    assert(views(vars@) + Seq::<Seq<char>>::empty() == views(vars@));
    vars
}

/// Extract `{{ identifier }}` variable names from a string without full parsing.
pub fn extract_var_names(s: &str) -> (r: Vec<String>)
    ensures
        views(r@) == var_names(s@),
{
    let v = chars_of(s);
    assert(v@.subrange(0, v@.len() as int) == v@);
    names_in_range(&v, 0, v.len())
}

/// `s` with every element after its first occurrence removed: the
/// distinct elements of `s` in first-seen order.
pub open spec fn dedup(s: Seq<Seq<char>>) -> Seq<Seq<char>>
    decreases s.len(),
{
    if s.len() == 0 {
        seq![]
    } else {
        let d = dedup(s.drop_last());
        if d.contains(s.last()) {
            d
        } else {
            d.push(s.last())
        }
    }
}

/// The variable names of each text, text after text.
pub open spec fn names_in_texts(texts: Seq<Seq<char>>) -> Seq<Seq<char>>
    decreases texts.len(),
{
    if texts.len() == 0 {
        seq![]
    } else {
        names_in_texts(texts.drop_last()) + var_names(texts.last())
    }
}

/// Whether `x` is among the strings of `v`.
pub fn contains_string(v: &Vec<String>, x: &String) -> (r: bool)
    ensures
        r == views(v@).contains(x@),
{
    let mut k: usize = 0;
    while k < v.len()
        invariant
            k <= v@.len(),
            forall|j: int| 0 <= j < k ==> v@[j]@ != x@,
        decreases v@.len() - k,
    {
        if v[k] == *x {
            assert(views(v@)[k as int] == x@);
            return true;
        }
        k = k + 1;
    }
    assert forall|j: int| 0 <= j < views(v@).len() implies views(v@)[j] != x@ by {
        assert(views(v@)[j] == v@[j]@);
    }
    false
}

/// The distinct variable names of all `texts` (the readable template files'
/// contents), in first-seen order.
pub fn unique_var_names(texts: &Vec<String>) -> (r: Vec<String>)
    ensures
        views(r@) == dedup(names_in_texts(views(texts@))),
{
    let mut vars: Vec<String> = Vec::new();
    let mut i: usize = 0;
    assert(views(texts@).take(0) == Seq::<Seq<char>>::empty());
    assert(dedup(names_in_texts(Seq::<Seq<char>>::empty())) == Seq::<Seq<char>>::empty());
    assert(views(vars@) == Seq::<Seq<char>>::empty());
    while i < texts.len()
        invariant
            i <= texts@.len(),
            views(vars@) == dedup(names_in_texts(views(texts@).take(i as int))),
        decreases texts@.len() - i,
    {
        let names = extract_var_names(texts[i].as_str());
        let ghost before = names_in_texts(views(texts@).take(i as int));
        let mut j: usize = 0;
        assert(before + views(names@).take(0) == before);
        while j < names.len()
            invariant
                j <= names@.len(),
                views(vars@) == dedup(before + views(names@).take(j as int)),
            decreases names@.len() - j,
        {
            let name = names[j].clone();
            let ghost prev = before + views(names@).take(j as int);
            assert((before + views(names@).take(j + 1)).drop_last() == prev);
            assert((before + views(names@).take(j + 1)).last() == name@);
            if !contains_string(&vars, &name) {
                let ghost old_vars = views(vars@);
                vars.push(name);
                assert(views(vars@) == old_vars.push(names@[j as int]@));
            }
            j = j + 1;
        }
        assert(views(names@).take(names@.len() as int) == views(names@));
        assert(views(texts@).take(i + 1).drop_last() == views(texts@).take(i as int));
        assert(views(texts@).take(i + 1).last() == texts@[i as int]@);
        i = i + 1;
    }
    assert(views(texts@).take(texts@.len() as int) == views(texts@));
    vars
}

/// Scanning keeps each variable name once: the result of [`unique_var_names`]
/// holds no name twice, and holds exactly the names found in the texts.
pub proof fn lemma_dedup_distinct_and_complete(s: Seq<Seq<char>>)
    ensures
        dedup(s).no_duplicates(),
        forall|x: Seq<char>| dedup(s).contains(x) <==> s.contains(x),
    decreases s.len(),
{
    if s.len() > 0 {
        lemma_dedup_distinct_and_complete(s.drop_last());
        let d = dedup(s.drop_last());
        assert forall|x: Seq<char>| dedup(s).contains(x) <==> s.contains(x) by {
            if s.contains(x) && x != s.last() {
                let k = choose|k: int| 0 <= k < s.len() && s[k] == x;
                assert(s.drop_last()[k] == x);
            }
            if s.drop_last().contains(x) {
                let k = choose|k: int| 0 <= k < s.drop_last().len() && s.drop_last()[k] == x;
                assert(s[k] == x);
            }
            if !d.contains(s.last()) && dedup(s).contains(x) && x != s.last() {
                let k = choose|k: int| 0 <= k < dedup(s).len() && dedup(s)[k] == x;
                assert(d[k] == x);
            }
            if !d.contains(s.last()) && d.contains(x) {
                let k = choose|k: int| 0 <= k < d.len() && d[k] == x;
                assert(dedup(s)[k] == x);
            }
            if !d.contains(s.last()) && x == s.last() {
                assert(dedup(s)[d.len() as int] == x);
            }
        }
    }
}

/// Whether the first component of the relative path `rel` is `.git`.
pub open spec fn in_git_dir(rel: Seq<char>) -> bool {
    rel.take(index_of(rel, '/') as int) == ".git"@
}

/// The files of the template machinery itself, never rendered.
pub open spec fn is_reserved_file(rel: Seq<char>) -> bool {
    ||| rel == ".gittemplate"@
    ||| rel == ".gitvendors"@
    ||| rel == ".gitattributes"@
}

/// Whether the file at `rel` is a template file: it is not under `.git`, not
/// reserved, and some of the glob patterns matches it when there are patterns.
pub open spec fn is_selected(rel: Seq<char>, matcher: Option<Seq<Seq<char>>>) -> bool {
    &&& !in_git_dir(rel)
    &&& !is_reserved_file(rel)
    &&& match matcher {
        Some(patterns) => matches_any(patterns, rel),
        None => true,
    }
}

/// The template files among `candidates`, in their order.
pub open spec fn selected_paths(candidates: Seq<Seq<char>>, matcher: Option<Seq<Seq<char>>>) -> Seq<
    Seq<char>,
>
    decreases candidates.len(),
{
    if candidates.len() == 0 {
        seq![]
    } else {
        let r = selected_paths(candidates.drop_last(), matcher);
        if is_selected(candidates.last(), matcher) {
            r.push(candidates.last())
        } else {
            r
        }
    }
}

/// Whether `a[lo..hi]` equals `b`.
fn chars_eq(a: &Vec<char>, lo: usize, hi: usize, b: &Vec<char>) -> (r: bool)
    requires
        lo <= hi <= a@.len(),
    ensures
        r == (a@.subrange(lo as int, hi as int) == b@),
{
    if hi - lo != b.len() {
        return false;
    }
    let mut k: usize = 0;
    while k < b.len()
        invariant
            hi - lo == b@.len(),
            lo <= hi <= a@.len(),
            k <= b@.len(),
            forall|j: int| 0 <= j < k ==> a@[lo + j] == b@[j],
        decreases b@.len() - k,
    {
        if a[lo + k] != b[k] {
            assert(a@.subrange(lo as int, hi as int)[k as int] != b@[k as int]);
            return false;
        }
        k = k + 1;
    }
    assert(a@.subrange(lo as int, hi as int) == b@);
    true
}

/// Whether the walk of the working tree skips an entry whose path's first
/// component is `top`: the repository's own `.git` directory.
pub fn skips_entry(top: &str) -> (r: bool)
    ensures
        r == (top@ == ".git"@),
{
    let t = chars_of(top);
    let g = chars_of(".git");
    assert(t@.subrange(0, t@.len() as int) == t@);
    chars_eq(&t, 0, t.len(), &g)
}

/// Whether the relative path `v` lies in the `.git` directory.
fn in_git_dir_exec(v: &Vec<char>) -> (r: bool)
    ensures
        r == in_git_dir(v@),
{
    let end = find_char_in(v, '/');
    let g = chars_of(".git");
    let r = chars_eq(v, 0, end, &g);
    assert(v@.subrange(0, end as int) == v@.take(end as int));
    r
}

/// Index of the first `c` in `v`, or its length.
fn find_char_in(v: &Vec<char>, c: char) -> (r: usize)
    ensures
        r == index_of(v@, c),
        r <= v@.len(),
{
    let r = crate::text::find_char(v, 0, v.len(), c);
    assert(v@.subrange(0, v@.len() as int) == v@);
    r
}

/// Whether `v` is one of the reserved files.
fn is_reserved_exec(v: &Vec<char>) -> (r: bool)
    ensures
        r == is_reserved_file(v@),
{
    let a = chars_of(".gittemplate");
    let b = chars_of(".gitvendors");
    let c = chars_of(".gitattributes");
    assert(v@.subrange(0, v@.len() as int) == v@);
    chars_eq(v, 0, v.len(), &a) || chars_eq(v, 0, v.len(), &b) || chars_eq(v, 0, v.len(), &c)
}

/// What selects the template files: every file, or the files that some of
/// the configured glob patterns matches.
pub struct FileMatcher {
    set: Option<GlobSet>,
}

impl View for FileMatcher {
    type V = Option<Seq<Seq<char>>>;

    /// `None` when every file is selected, else the patterns.
    closed spec fn view(&self) -> Option<Seq<Seq<char>>> {
        match self.set {
            Some(set) => Some(set_patterns(set)),
            None => None,
        }
    }
}

impl FileMatcher {
    #[verifier::type_invariant]
    spec fn built_from_patterns(self) -> bool {
        self.set matches Some(set) ==> set_plain(set)
    }

    /// Whether every file is selected (no patterns are configured).
    pub fn selects_all(&self) -> (r: bool)
        ensures
            r == (self@ is None),
    {
        self.set.is_none()
    }
}

/// The matcher that selects template files: every file when no patterns are
/// configured, else the files that some of `patterns` matches.  Fails with
/// the first pattern that does not parse, or when the set cannot be built.
pub fn file_matcher(patterns: Option<&Vec<String>>) -> (r: Result<FileMatcher, globset::Error>)
    ensures
        patterns is None ==> (r matches Ok(m) && m@ is None),
        patterns matches Some(ps) ==> {
            &&& r matches Ok(m) ==> m@ == Some(views(ps@))
            &&& (exists|i: int| 0 <= i < ps@.len() && !glob_parses(#[trigger] ps@[i]@)) ==> r is Err
            &&& (forall|i: int| 0 <= i < ps@.len() ==> glob_parses(#[trigger] ps@[i]@)) ==> (r is Ok
                <==> set_builds(views(ps@)))
            &&& ps@.len() == 0 ==> r is Ok
        },
{
    match patterns {
        None => Ok(FileMatcher { set: None }),
        Some(pats) => {
            let mut b = builder_new();
            let mut i: usize = 0;
            assert(views(pats@).take(0) == Seq::<Seq<char>>::empty());
            while i < pats.len()
                invariant
                    patterns == Some(pats),
                    i <= pats@.len(),
                    crate::glob::builder_patterns(b) == views(pats@).take(i as int),
                    builder_plain(b),
                    forall|j: int| 0 <= j < i ==> glob_parses(#[trigger] pats@[j]@),
                decreases pats@.len() - i,
            {
                match glob_new(pats[i].as_str()) {
                    Ok(g) => {
                        builder_add(&mut b, g);
                        assert(views(pats@).take(i + 1) == views(pats@).take(i as int).push(
                            pats@[i as int]@,
                        ));
                    },
                    Err(e) => {
                        return Err(e);
                    },
                }
                i = i + 1;
            }
            assert(views(pats@).take(pats@.len() as int) == views(pats@));
            match builder_build(&b) {
                Ok(set) => Ok(FileMatcher { set: Some(set) }),
                Err(e) => Err(e),
            }
        },
    }
}

/// Return the template files among `candidates` (the repo-relative paths of
/// all files of the working tree, `/`-separated), in path order.
///
/// A file is a template file unless it lies in `.git` or is `.gittemplate`,
/// `.gitvendors` or `.gitattributes`; when a glob set is given it must also
/// match it.
pub fn select_files(candidates: &Vec<String>, matcher: &FileMatcher) -> (r: Vec<String>)
    ensures
        paths_sorted(views(r@)),
        views(r@).to_multiset() == selected_paths(views(candidates@), matcher@).to_multiset(),
        matcher@ matches Some(ps) && ps.len() == 0 ==> r@.len() == 0,
{
    proof {
        use_type_invariant(matcher);
    }
    let mut sorted: Vec<Vec<char>> = Vec::new();
    let mut i: usize = 0;
    assert(views(candidates@).take(0) == Seq::<Seq<char>>::empty());
    assert(char_views(sorted@) == Seq::<Seq<char>>::empty());
    while i < candidates.len()
        invariant
            i <= candidates@.len(),
            paths_sorted(char_views(sorted@)),
            char_views(sorted@).to_multiset() == selected_paths(
                views(candidates@).take(i as int),
                matcher@,
            ).to_multiset(),
            matcher.set matches Some(set) ==> set_plain(set),
        decreases candidates@.len() - i,
    {
        let rel = candidates[i].as_str();
        let v = chars_of(rel);
        let included = if in_git_dir_exec(&v) || is_reserved_exec(&v) {
            false
        } else {
            match &matcher.set {
                Some(set) => set_is_match(set, rel),
                None => true,
            }
        };
        let ghost prev = selected_paths(views(candidates@).take(i as int), matcher@);
        assert(views(candidates@).take(i + 1).drop_last() == views(candidates@).take(i as int));
        assert(views(candidates@).take(i + 1).last() == candidates@[i as int]@);
        if included {
            let ghost vv = v@;
            insert_sorted(&mut sorted, v);
            proof {
                vstd::seq_lib::to_multiset_insert(prev, prev.len() as int, vv);
                assert(prev.insert(prev.len() as int, vv) == prev.push(vv));
            }
        }
        i = i + 1;
    }
    assert(views(candidates@).take(candidates@.len() as int) == views(candidates@));
    let mut out: Vec<String> = Vec::new();
    let mut k: usize = 0;
    while k < sorted.len()
        invariant
            k <= sorted@.len(),
            views(out@) == char_views(sorted@).take(k as int),
        decreases sorted@.len() - k,
    {
        let s = string_of(&sorted[k], 0, sorted[k].len());
        assert(sorted@[k as int]@.subrange(0, sorted@[k as int]@.len() as int) == sorted@[k as int]@);
        out.push(s);
        assert(char_views(sorted@).take(k + 1) == char_views(sorted@).take(k as int).push(
            sorted@[k as int]@,
        ));
        k = k + 1;
    }
    assert(char_views(sorted@).take(sorted@.len() as int) == char_views(sorted@));
    proof {
        if matcher@ is Some && matcher@->0.len() == 0 {
            {
                lemma_no_patterns_selects_nothing(views(candidates@), matcher@->0);
                vstd::seq_lib::to_multiset_len(views(out@));
                vstd::seq_lib::to_multiset_len(Seq::<Seq<char>>::empty());
            }
        }
    }
    out
}

/// A glob set without patterns selects no file.
pub proof fn lemma_no_patterns_selects_nothing(candidates: Seq<Seq<char>>, patterns: Seq<Seq<char>>)
    requires
        patterns.len() == 0,
    ensures
        selected_paths(candidates, Some(patterns)) == Seq::<Seq<char>>::empty(),
    decreases candidates.len(),
{
    if candidates.len() > 0 {
        lemma_no_patterns_selects_nothing(candidates.drop_last(), patterns);
    }
}

/// An unresolved template expression found after rendering.
pub struct UnresolvedExpr {
    /// Repo-relative file path.
    pub file: String,
    /// 1-based line number.
    pub line: usize,
    /// The expression text, e.g. `{{ project_name }}`.
    pub expr: String,
}

/// The view of an unresolved expression: file, line and expression text.
pub open spec fn unresolved_view(u: UnresolvedExpr) -> (Seq<char>, nat, Seq<char>) {
    (u.file@, u.line as nat, u.expr@)
}

/// The views of a sequence of unresolved expressions.
pub open spec fn unresolved_views(s: Seq<UnresolvedExpr>) -> Seq<(Seq<char>, nat, Seq<char>)> {
    s.map_values(|u: UnresolvedExpr| unresolved_view(u))
}

/// The expression text `{{ name }}`.
pub open spec fn expr_text(name: Seq<char>) -> Seq<char> {
    "{{ "@ + name + " }}"@
}

/// The unresolved expressions of one line, numbered `line_no`: one for
/// each variable name of the line that is among `empty`, in order.
pub open spec fn line_unresolved(
    file: Seq<char>,
    names: Seq<Seq<char>>,
    empty: Set<Seq<char>>,
    line_no: nat,
) -> Seq<(Seq<char>, nat, Seq<char>)>
    decreases names.len(),
{
    if names.len() == 0 {
        seq![]
    } else {
        let r = line_unresolved(file, names.drop_last(), empty, line_no);
        if empty.contains(names.last()) {
            r.push((file, line_no, expr_text(names.last())))
        } else {
            r
        }
    }
}

/// The unresolved expressions of the lines of `content`, the first of which
/// is numbered `line_no`.  Lines end at `\n`; a `\r` before it is no name
/// character and changes no name, so the expressions are those that
/// `str::lines` gives.
pub open spec fn content_unresolved(
    file: Seq<char>,
    content: Seq<char>,
    empty: Set<Seq<char>>,
    line_no: nat,
) -> Seq<(Seq<char>, nat, Seq<char>)>
    decreases content.len(),
{
    let k = index_of(content, '\n');
    let here = line_unresolved(file, var_names(content.take(k as int)), empty, line_no);
    if k < content.len() {
        here + content_unresolved(file, content.skip(k as int + 1), empty, line_no + 1)
    } else {
        here
    }
}

/// The names whose value is empty or white space only, as a set.
pub open spec fn empty_value_names(values: Map<Seq<char>, Seq<char>>) -> Set<Seq<char>> {
    Set::new(|k: Seq<char>| values.dom().contains(k) && trim(values[k]).len() == 0)
}

/// The names of `values` whose value is empty after trimming: the variables
/// left empty.  Each name occurs once.
pub fn empty_vars(values: &ParamMap) -> (r: Vec<String>)
    ensures
        views(r@).to_set() == empty_value_names(values@),
        views(r@).no_duplicates(),
{
    let pairs = values.pairs();
    let ghost ps = pair_views(pairs@);
    let mut out: Vec<String> = Vec::new();
    let mut i: usize = 0;
    while i < pairs.len()
        invariant
            i <= pairs@.len(),
            ps == pair_views(pairs@),
            keys_unique(ps),
            map_of(ps) == values@,
            views(out@).no_duplicates(),
            forall|k: Seq<char>| views(out@).contains(k) <==> exists|j: int|
                0 <= j < i && (#[trigger] ps[j]).0 == k && trim(ps[j].1).len() == 0,
        decreases pairs@.len() - i,
    {
        let value = chars_of(pairs[i].1.as_str());
        let (a, b) = trim_bounds(&value, 0, value.len());
        assert(value@.subrange(0, value@.len() as int) == value@);
        if a == b {
            let ghost before = views(out@);
            assert(forall|j: int| 0 <= j < i ==> ps[j].0 != ps[i as int].0);
            assert(!before.contains(ps[i as int].0));
            out.push(pairs[i].0.clone());
            assert(views(out@) == before.push(ps[i as int].0));
            assert forall|k: Seq<char>| views(out@).contains(k) <==> exists|j: int|
                0 <= j < i + 1 && (#[trigger] ps[j]).0 == k && trim(ps[j].1).len() == 0 by {
                if views(out@).contains(k) && k != ps[i as int].0 {
                    let t = choose|t: int| 0 <= t < views(out@).len() && views(out@)[t] == k;
                    assert(before[t] == k);
                }
                if k == ps[i as int].0 {
                    assert(views(out@)[before.len() as int] == k);
                }
                if before.contains(k) {
                    let t = choose|t: int| 0 <= t < before.len() && before[t] == k;
                    assert(views(out@)[t] == k);
                }
            }
        }
        i = i + 1;
    }
    assert forall|k: Seq<char>| views(out@).to_set().contains(k) <==> empty_value_names(
        values@,
    ).contains(k) by {
        crate::editor::lemma_map_of_dom(ps, k);
        if exists|j: int| 0 <= j < ps.len() && (#[trigger] ps[j]).0 == k {
            let j = choose|j: int| 0 <= j < ps.len() && (#[trigger] ps[j]).0 == k;
            crate::editor::lemma_map_of_value(ps, j);
        }
    }
    assert(views(out@).to_set() == empty_value_names(values@));
    out
}

/// The unresolved expressions of a template file: for each line of
/// `content`, numbered from 1, each `{{ name }}` expression whose variable is
/// among `empty` (the variables left empty), with the file path `file`.
pub fn unresolved_in(file: &str, content: &str, empty: &Vec<String>) -> (r: Vec<UnresolvedExpr>)
    ensures
        unresolved_views(r@) == content_unresolved(file@, content@, views(empty@).to_set(), 1),
{
    let v = chars_of(content);
    let n = v.len();
    let ghost set = views(empty@).to_set();
    let mut out: Vec<UnresolvedExpr> = Vec::new();
    let mut i: usize = 0;
    let mut line_no: usize = 1;
    assert(v@.skip(0) == v@);
    assert(unresolved_views(out@) == Seq::<(Seq<char>, nat, Seq<char>)>::empty());
    loop
        invariant_except_break
            i <= n == v@.len(),
            line_no <= i + 1,
            unresolved_views(out@) + content_unresolved(file@, v@.skip(i as int), set, line_no as nat)
                == content_unresolved(file@, v@, set, 1),
        invariant
            v@ == content@,
            set == views(empty@).to_set(),
        ensures
            unresolved_views(out@) == content_unresolved(file@, v@, set, 1),
        decreases n - i,
    {
        let ghost rest = v@.skip(i as int);
        let j = find_char(&v, i, n, '\n');
        assert(v@.subrange(i as int, n as int) == rest);
        assert(rest.take((j - i) as int) == v@.subrange(i as int, j as int));
        let names = names_in_range(&v, i, j);
        let ghost base = unresolved_views(out@);
        let mut k: usize = 0;
        assert(names@.take(0) == Seq::<String>::empty());
        assert(views(names@).take(0) == Seq::<Seq<char>>::empty());
        assert(base + line_unresolved(file@, Seq::<Seq<char>>::empty(), set, line_no as nat) == base);
        while k < names.len()
            invariant
                k <= names@.len(),
                line_no <= i + 1,
                set == views(empty@).to_set(),
                unresolved_views(out@) == base + line_unresolved(
                    file@,
                    views(names@).take(k as int),
                    set,
                    line_no as nat,
                ),
            decreases names@.len() - k,
        {
            let name = &names[k];
            assert(views(names@).take(k + 1).drop_last() == views(names@).take(k as int));
            assert(views(names@).take(k + 1).last() == name@);
            if contains_string(empty, name) {
                let mut expr = String::new();
                expr.append("{{ ");
                expr.append(name.as_str());
                expr.append(" }}");
                let u = UnresolvedExpr { file: file.to_owned(), line: line_no, expr };
                let ghost before = unresolved_views(out@);
                out.push(u);
                assert(unresolved_views(out@) == before.push(unresolved_view(u)));
            }
            k = k + 1;
        }
        assert(views(names@).take(names@.len() as int) == views(names@));
        if j == n {
            break;
        }
        assert(rest.skip((j - i) + 1) == v@.skip(j + 1));
        if j + 1 == n {
            // the text ends with a line break: the empty rest has no expression
            let ghost none = Seq::<char>::empty();
            assert(v@.skip(j + 1) == none);
            assert(none.take(0) == none);
            assert(var_names(none) == Seq::<Seq<char>>::empty());
            assert(content_unresolved(file@, none, set, line_no as nat + 1) == Seq::<
                (Seq<char>, nat, Seq<char>),
            >::empty());
            break;
        }
        i = j + 1;
        line_no = line_no + 1;
    }
    out
}

/// What rendering `source` with minijinja gives, with `values` as the context
/// and undefined variables rendering as empty (lenient mode): the rendered
/// text, or the text of the error.
pub uninterp spec fn lenient_render(source: Seq<char>, values: Map<Seq<char>, Seq<char>>) -> Result<
    Seq<char>,
    Seq<char>,
>;

/// The view of a text result.
pub open spec fn result_view(r: Result<String, String>) -> Result<Seq<char>, Seq<char>> {
    match r {
        Ok(s) => Ok(s@),
        Err(e) => Err(e@),
    }
}

/// `minijinja::Environment::render_str` on an environment whose undefined
/// behavior is `Lenient`, with `values` as the context.  Claims only that the
/// result (the rendered text, or the error's message) is the one named
/// `lenient_render` for the source and the map of values.
#[verifier::external_body]
fn render_lenient(source: &str, values: &ParamMap) -> (r: Result<String, String>)
    ensures
        result_view(r) == lenient_render(source@, values@),
{
    let ctx: std::collections::BTreeMap<&str, &str> =
        values.pairs().iter().map(|(k, v)| (k.as_str(), v.as_str())).collect();
    let mut env = minijinja::Environment::new();
    env.set_undefined_behavior(minijinja::UndefinedBehavior::Lenient);
    env.render_str(source, ctx).map_err(|e| e.to_string())
}

/// Render the template file `rel` whose text is `content` with `values`;
/// an error names the file: `{rel}: {error}`.
pub fn render_template(rel: &str, content: &str, values: &ParamMap) -> (r: Result<String, String>)
    ensures
        r matches Ok(s) ==> lenient_render(content@, values@) == Ok::<Seq<char>, Seq<char>>(s@),
        r matches Err(e) ==> exists|m: Seq<char>|
            lenient_render(content@, values@) == Err::<Seq<char>, Seq<char>>(m) && e@ == rel@
                + ": "@ + m,
        lenient_render(content@, values@) is Ok <==> r is Ok,
{
    match render_lenient(content, values) {
        Ok(s) => Ok(s),
        Err(m) => {
            let mut e = rel.to_owned();
            e.append(": ");
            e.append(m.as_str());
            Err(e)
        },
    }
}

proof fn lemma_name_len_chars(x: Seq<char>)
    ensures
        name_len(x) <= x.len(),
        forall|j: int| 0 <= j < name_len(x) ==> is_name_char(#[trigger] x[j]),
    decreases x.len(),
{
    if x.len() > 0 && is_name_char(x[0]) {
        lemma_name_len_chars(x.drop_first());
        assert forall|j: int| 0 <= j < name_len(x) implies is_name_char(#[trigger] x[j]) by {
            if j > 0 {
                assert(x[j] == x.drop_first()[j - 1]);
            }
        }
    }
}

/// Every extracted variable name is a non-empty run of name characters
/// (alphanumeric or `_`).
pub proof fn lemma_var_names_are_names(s: Seq<char>)
    ensures
        forall|i: int| 0 <= i < var_names(s).len() ==> {
            &&& (#[trigger] var_names(s)[i]).len() > 0
            &&& forall|j: int| 0 <= j < var_names(s)[i].len() ==> is_name_char(var_names(s)[i][j])
        },
    decreases s.len(),
{
    if s.len() >= 2 {
        if s[0] == '{' && s[1] == '{' {
            let rest = s.skip(2);
            lemma_var_names_are_names(rest);
            let inner = rest.skip(blank_len(rest) as int);
            lemma_name_len_chars(inner);
            let here = name_after_open(rest);
            assert forall|i: int| 0 <= i < var_names(s).len() implies {
                &&& (#[trigger] var_names(s)[i]).len() > 0
                &&& forall|j: int| 0 <= j < var_names(s)[i].len() ==> is_name_char(var_names(s)[i][j])
            } by {
                if i < here.len() {
                    assert(var_names(s)[i] == inner.take(name_len(inner) as int));
                } else {
                    assert(var_names(s)[i] == var_names(rest)[i - here.len()]);
                }
            }
        } else {
            lemma_var_names_are_names(s.drop_first());
            assert(var_names(s) == var_names(s.drop_first()));
        }
    } else {
        assert(var_names(s) == Seq::<Seq<char>>::empty());
    }
}

proof fn lemma_line_unresolved_empty(
    file: Seq<char>,
    names: Seq<Seq<char>>,
    empty: Set<Seq<char>>,
    line_no: nat,
)
    ensures
        forall|i: int| 0 <= i < line_unresolved(file, names, empty, line_no).len() ==> {
            let u = #[trigger] line_unresolved(file, names, empty, line_no)[i];
            &&& u.0 == file
            &&& u.1 == line_no
            &&& exists|n: Seq<char>| empty.contains(n) && u.2 == expr_text(n)
        },
    decreases names.len(),
{
    if names.len() > 0 {
        lemma_line_unresolved_empty(file, names.drop_last(), empty, line_no);
        let r = line_unresolved(file, names.drop_last(), empty, line_no);
        let all = line_unresolved(file, names, empty, line_no);
        assert forall|i: int| 0 <= i < all.len() implies {
            let u = #[trigger] all[i];
            &&& u.0 == file
            &&& u.1 == line_no
            &&& exists|n: Seq<char>| empty.contains(n) && u.2 == expr_text(n)
        } by {
            if i < r.len() {
                assert(all[i] == r[i]);
            } else {
                assert(empty.contains(names.last()));
                assert(all[i].2 == expr_text(names.last()));
            }
        }
    }
}

/// Every reported unresolved expression is in the given file, on a line
/// numbered from `line_no` on, and is the expression `{{ name }}` of a
/// variable left empty.
pub proof fn lemma_unresolved_are_empty_vars(
    file: Seq<char>,
    content: Seq<char>,
    empty: Set<Seq<char>>,
    line_no: nat,
)
    ensures
        forall|i: int| 0 <= i < content_unresolved(file, content, empty, line_no).len() ==> {
            let u = #[trigger] content_unresolved(file, content, empty, line_no)[i];
            &&& u.0 == file
            &&& u.1 >= line_no
            &&& exists|n: Seq<char>| empty.contains(n) && u.2 == expr_text(n)
        },
    decreases content.len(),
{
    let k = index_of(content, '\n');
    let names = var_names(content.take(k as int));
    let here = line_unresolved(file, names, empty, line_no);
    lemma_line_unresolved_empty(file, names, empty, line_no);
    if k < content.len() {
        let rest = content.skip(k as int + 1);
        lemma_unresolved_are_empty_vars(file, rest, empty, line_no + 1);
        let all = content_unresolved(file, content, empty, line_no);
        assert(all == here + content_unresolved(file, rest, empty, line_no + 1));
        assert forall|i: int| 0 <= i < all.len() implies {
            let u = #[trigger] all[i];
            &&& u.0 == file
            &&& u.1 >= line_no
            &&& exists|n: Seq<char>| empty.contains(n) && u.2 == expr_text(n)
        } by {
            if i < here.len() {
                assert(all[i] == here[i]);
            } else {
                assert(all[i] == content_unresolved(file, rest, empty, line_no + 1)[i - here.len()]);
            }
        }
    }
}

/// The paths of `files` that some of `patterns` matches, in order.
pub open spec fn keep_matching(files: Seq<Seq<char>>, patterns: Seq<Seq<char>>) -> Seq<Seq<char>>
    decreases files.len(),
{
    if files.len() == 0 {
        seq![]
    } else {
        let r = keep_matching(files.drop_last(), patterns);
        if matches_any(patterns, files.last()) {
            r.push(files.last())
        } else {
            r
        }
    }
}

/// Selecting with glob patterns keeps, of the files selected without
/// patterns, those that some pattern matches.
pub proof fn lemma_patterns_filter_candidates(candidates: Seq<Seq<char>>, patterns: Seq<Seq<char>>)
    ensures
        selected_paths(candidates, Some(patterns)) == keep_matching(
            selected_paths(candidates, None),
            patterns,
        ),
    decreases candidates.len(),
{
    if candidates.len() > 0 {
        lemma_patterns_filter_candidates(candidates.drop_last(), patterns);
        let prev = selected_paths(candidates.drop_last(), None);
        let x = candidates.last();
        if is_selected(x, None) {
            assert(prev.push(x).drop_last() == prev);
        }
    }
}

proof fn lemma_push_multiset(s: Seq<Seq<char>>, x: Seq<char>)
    ensures
        s.push(x).to_multiset() == s.to_multiset().insert(x),
{
    vstd::seq_lib::to_multiset_insert(s, s.len() as int, x);
    assert(s.insert(s.len() as int, x) == s.push(x));
}

proof fn lemma_keep_count(a: Seq<Seq<char>>, ps: Seq<Seq<char>>, x: Seq<char>)
    ensures
        keep_matching(a, ps).to_multiset().count(x) == (if matches_any(ps, x) {
            a.to_multiset().count(x)
        } else {
            0
        }),
    decreases a.len(),
{
    broadcast use vstd::multiset::group_multiset_axioms;

    if a.len() == 0 {
        assert(keep_matching(a, ps) == Seq::<Seq<char>>::empty());
        assert(a == Seq::<Seq<char>>::empty());
        vstd::seq_lib::to_multiset_contains(a, x);
    } else {
        lemma_keep_count(a.drop_last(), ps, x);
        lemma_push_multiset(a.drop_last(), a.last());
        assert(a.drop_last().push(a.last()) == a);
        let r = keep_matching(a.drop_last(), ps);
        if matches_any(ps, a.last()) {
            lemma_push_multiset(r, a.last());
        }
    }
}

proof fn lemma_keep_permutation(a: Seq<Seq<char>>, b: Seq<Seq<char>>, ps: Seq<Seq<char>>)
    requires
        a.to_multiset() == b.to_multiset(),
    ensures
        keep_matching(a, ps).to_multiset() == keep_matching(b, ps).to_multiset(),
{
    assert forall|x: Seq<char>| keep_matching(a, ps).to_multiset().count(x) == keep_matching(
        b,
        ps,
    ).to_multiset().count(x) by {
        lemma_keep_count(a, ps, x);
        lemma_keep_count(b, ps, x);
    }
    assert(keep_matching(a, ps).to_multiset() =~= keep_matching(b, ps).to_multiset());
}

proof fn lemma_keep_sorted(a: Seq<Seq<char>>, ps: Seq<Seq<char>>)
    requires
        paths_sorted(a),
    ensures
        paths_sorted(keep_matching(a, ps)),
        forall|i: int|
            0 <= i < keep_matching(a, ps).len() ==> a.contains(#[trigger] keep_matching(a, ps)[i]),
    decreases a.len(),
{
    if a.len() > 0 {
        let init = a.drop_last();
        assert(paths_sorted(init)) by {
            assert forall|i: int, j: int| 0 <= i < j < init.len() implies path_le(
                init[i],
                init[j],
            ) by {
                assert(init[i] == a[i] && init[j] == a[j]);
            }
        }
        lemma_keep_sorted(init, ps);
        let r = keep_matching(init, ps);
        assert forall|i: int| 0 <= i < r.len() implies a.contains(#[trigger] r[i]) by {
            let k = choose|k: int| 0 <= k < init.len() && init[k] == r[i];
            assert(a[k] == r[i]);
        }
        if matches_any(ps, a.last()) {
            let t = r.push(a.last());
            assert forall|i: int, j: int| 0 <= i < j < t.len() implies path_le(t[i], t[j]) by {
                if j == r.len() {
                    let k = choose|k: int| 0 <= k < init.len() && init[k] == r[i];
                    assert(a[k] == t[i]);
                    assert(path_le(a[k], a[a.len() - 1]));
                } else {
                    assert(t[i] == r[i] && t[j] == r[j]);
                }
            }
            assert forall|i: int| 0 <= i < t.len() implies a.contains(#[trigger] t[i]) by {
                if i == r.len() {
                    assert(a[a.len() - 1] == t[i]);
                } else {
                    assert(t[i] == r[i]);
                }
            }
        }
    }
}

proof fn lemma_path_le_reflexive(a: Seq<char>)
    ensures
        path_le(a, a),
{
    crate::paths::lemma_path_le_total(a, a);
}

/// Two sorted lists of the same paths are the same list.
proof fn lemma_sorted_unique(a: Seq<Seq<char>>, b: Seq<Seq<char>>)
    requires
        paths_sorted(a),
        paths_sorted(b),
        a.to_multiset() == b.to_multiset(),
    ensures
        a == b,
    decreases a.len(),
{
    broadcast use vstd::multiset::group_multiset_axioms;

    vstd::seq_lib::to_multiset_len(a);
    vstd::seq_lib::to_multiset_len(b);
    if a.len() == 0 {
        assert(a == b);
    } else {
        let x = a.last();
        let y = b.last();
        vstd::seq_lib::to_multiset_contains(a, y);
        vstd::seq_lib::to_multiset_contains(b, y);
        vstd::seq_lib::to_multiset_contains(a, x);
        vstd::seq_lib::to_multiset_contains(b, x);
        assert(b.contains(y)) by {
            assert(b[b.len() - 1] == y);
        }
        assert(a.contains(x)) by {
            assert(a[a.len() - 1] == x);
        }
        let ka = choose|k: int| 0 <= k < a.len() && a[k] == y;
        let kb = choose|k: int| 0 <= k < b.len() && b[k] == x;
        if ka < a.len() - 1 {
            assert(path_le(a[ka], a[a.len() - 1]));
        } else {
            lemma_path_le_reflexive(y);
        }
        if kb < b.len() - 1 {
            assert(path_le(b[kb], b[b.len() - 1]));
        } else {
            lemma_path_le_reflexive(x);
        }
        crate::paths::lemma_path_le_antisymmetric(x, y);
        let ai = a.drop_last();
        let bi = b.drop_last();
        lemma_push_multiset(ai, x);
        lemma_push_multiset(bi, x);
        assert(ai.push(x) == a);
        assert(bi.push(x) == b);
        assert(a.to_multiset() == ai.to_multiset().insert(x));
        assert(b.to_multiset() == bi.to_multiset().insert(x));
        assert(ai.to_multiset() =~= bi.to_multiset()) by {
            assert forall|z: Seq<char>| ai.to_multiset().count(z) == bi.to_multiset().count(z) by {
                assert(ai.to_multiset().insert(x).count(z) == bi.to_multiset().insert(x).count(z));
            }
        }
        assert(paths_sorted(ai)) by {
            assert forall|i: int, j: int| 0 <= i < j < ai.len() implies path_le(ai[i], ai[j]) by {
                assert(ai[i] == a[i] && ai[j] == a[j]);
            }
        }
        assert(paths_sorted(bi)) by {
            assert forall|i: int, j: int| 0 <= i < j < bi.len() implies path_le(bi[i], bi[j]) by {
                assert(bi[i] == b[i] && bi[j] == b[j]);
            }
        }
        lemma_sorted_unique(ai, bi);
    }
}

/// Collecting the template files with glob patterns gives, in the same
/// order, those of the files collected without patterns that some pattern
/// matches: `all` and `some` are what [`select_files`] returns on the same
/// candidates without and with the patterns.
pub proof fn lemma_collect_with_patterns(
    candidates: Seq<Seq<char>>,
    ps: Seq<Seq<char>>,
    all: Seq<Seq<char>>,
    some: Seq<Seq<char>>,
)
    requires
        paths_sorted(all),
        all.to_multiset() == selected_paths(candidates, None).to_multiset(),
        paths_sorted(some),
        some.to_multiset() == selected_paths(candidates, Some(ps)).to_multiset(),
    ensures
        some == keep_matching(all, ps),
{
    lemma_patterns_filter_candidates(candidates, ps);
    lemma_keep_permutation(all, selected_paths(candidates, None), ps);
    lemma_keep_sorted(all, ps);
    lemma_sorted_unique(some, keep_matching(all, ps));
}

/// `a` ends where no `{{ name` expression can run on into what follows: it is
/// empty, or its last character is not `{`, a space, a tab or a name character.
pub open spec fn ends_expression_free(a: Seq<char>) -> bool {
    a.len() == 0 || {
        let c = a.last();
        c != '{' && c != ' ' && c != '\t' && !is_name_char(c)
    }
}

proof fn lemma_blank_len_chars(x: Seq<char>)
    ensures
        blank_len(x) <= x.len(),
        forall|j: int| 0 <= j < blank_len(x) ==> (#[trigger] x[j] == ' ' || x[j] == '\t'),
    decreases x.len(),
{
    if x.len() > 0 && (x[0] == ' ' || x[0] == '\t') {
        lemma_blank_len_chars(x.drop_first());
        assert forall|j: int| 0 <= j < blank_len(x) implies (#[trigger] x[j] == ' ' || x[j] == '\t') by {
            if j > 0 {
                assert(x[j] == x.drop_first()[j - 1]);
            }
        }
    }
}

proof fn lemma_blank_len_concat(x: Seq<char>, b: Seq<char>)
    requires
        blank_len(x) < x.len(),
    ensures
        blank_len(x + b) == blank_len(x),
    decreases x.len(),
{
    assert((x + b)[0] == x[0]);
    if x[0] == ' ' || x[0] == '\t' {
        assert((x + b).drop_first() == x.drop_first() + b);
        lemma_blank_len_concat(x.drop_first(), b);
    }
}

proof fn lemma_name_len_concat(x: Seq<char>, b: Seq<char>)
    requires
        name_len(x) < x.len(),
    ensures
        name_len(x + b) == name_len(x),
    decreases x.len(),
{
    assert((x + b)[0] == x[0]);
    if is_name_char(x[0]) {
        assert((x + b).drop_first() == x.drop_first() + b);
        lemma_name_len_concat(x.drop_first(), b);
    }
}

proof fn lemma_name_after_open_concat(x: Seq<char>, b: Seq<char>)
    requires
        x.len() > 0,
        ends_expression_free(x),
    ensures
        name_after_open(x + b) == name_after_open(x),
{
    lemma_blank_len_chars(x);
    let bl = blank_len(x);
    if bl == x.len() {
        assert(x[x.len() - 1] == x.last());
    }
    lemma_blank_len_concat(x, b);
    let inner = x.skip(bl as int);
    assert((x + b).skip(bl as int) == inner + b);
    lemma_name_len_chars(inner);
    if name_len(inner) == inner.len() {
        assert(inner[inner.len() - 1] == x.last());
    }
    lemma_name_len_concat(inner, b);
    assert((inner + b).take(name_len(inner) as int) == inner.take(name_len(inner) as int));
}

/// The names of two texts one after the other are the names of the first,
/// then those of the second, when the first ends where no expression can run
/// on (for example at a `}` or a line break).
pub proof fn lemma_var_names_concat(a: Seq<char>, b: Seq<char>)
    requires
        ends_expression_free(a),
    ensures
        var_names(a + b) == var_names(a) + var_names(b),
    decreases a.len(),
{
    if a.len() == 0 {
        assert(a + b == b);
        assert(var_names(a) == Seq::<Seq<char>>::empty());
    } else if a.len() == 1 {
        if b.len() == 0 {
            assert(a + b == a);
            assert(var_names(b) == Seq::<Seq<char>>::empty());
        } else {
            assert((a + b)[0] == a[0]);
            assert(a[0] == a.last());
            assert((a + b).drop_first() == b);
            assert(var_names(a) == Seq::<Seq<char>>::empty());
        }
    } else {
        assert((a + b)[0] == a[0] && (a + b)[1] == a[1]);
        if a[0] == '{' && a[1] == '{' {
            let x = a.skip(2);
            assert((a + b).skip(2) == x + b);
            if x.len() > 0 {
                assert(x.last() == a.last());
                lemma_name_after_open_concat(x, b);
            } else {
                assert(a.last() == a[1]);
            }
            lemma_var_names_concat(x, b);
        } else {
            let x = a.drop_first();
            assert((a + b).drop_first() == x + b);
            assert(x.last() == a.last());
            lemma_var_names_concat(x, b);
        }
    }
}

proof fn lemma_names_in_texts_concat(t1: Seq<Seq<char>>, t2: Seq<Seq<char>>)
    ensures
        names_in_texts(t1 + t2) == names_in_texts(t1) + names_in_texts(t2),
    decreases t2.len(),
{
    if t2.len() == 0 {
        assert(t1 + t2 == t1);
        assert(names_in_texts(t1) + Seq::<Seq<char>>::empty() == names_in_texts(t1));
    } else {
        lemma_names_in_texts_concat(t1, t2.drop_last());
        assert((t1 + t2).drop_last() == t1 + t2.drop_last());
        assert((t1 + t2).last() == t2.last());
    }
}

proof fn lemma_dedup_prefix(s: Seq<Seq<char>>, t: Seq<Seq<char>>)
    ensures
        dedup(s).len() <= dedup(s + t).len(),
        dedup(s + t).take(dedup(s).len() as int) == dedup(s),
    decreases t.len(),
{
    if t.len() == 0 {
        assert(s + t == s);
        assert(dedup(s).take(dedup(s).len() as int) == dedup(s));
    } else {
        lemma_dedup_prefix(s, t.drop_last());
        assert((s + t).drop_last() == s + t.drop_last());
        let d = dedup(s + t.drop_last());
        assert(d.push((s + t).last()).take(dedup(s).len() as int) == d.take(dedup(s).len() as int));
    }
}

proof fn lemma_dedup_absorb(s: Seq<Seq<char>>, t: Seq<Seq<char>>)
    requires
        forall|i: int| 0 <= i < t.len() ==> s.contains(#[trigger] t[i]),
    ensures
        dedup(s + t) == dedup(s),
    decreases t.len(),
{
    if t.len() == 0 {
        assert(s + t == s);
    } else {
        assert(forall|i: int| 0 <= i < t.drop_last().len() ==> t.drop_last()[i] == t[i]);
        lemma_dedup_absorb(s, t.drop_last());
        assert((s + t).drop_last() == s + t.drop_last());
        assert((s + t).last() == t[t.len() - 1]);
        lemma_dedup_distinct_and_complete(s);
    }
}

/// Scanning more files extends the result: the names of the first files come
/// first and in the same order, the names of the whole are those of the
/// first files and those of the others, and scanning the same files twice
/// finds nothing new.
pub proof fn lemma_scan_prefix_union(t1: Seq<Seq<char>>, t2: Seq<Seq<char>>)
    ensures
        ({
            let r1 = dedup(names_in_texts(t1));
            let r = dedup(names_in_texts(t1 + t2));
            &&& r1.len() <= r.len()
            &&& r.take(r1.len() as int) == r1
            &&& r.to_set() == r1.to_set().union(dedup(names_in_texts(t2)).to_set())
            &&& dedup(names_in_texts(t1 + t1)) == r1
        }),
{
    let n1 = names_in_texts(t1);
    let n2 = names_in_texts(t2);
    lemma_names_in_texts_concat(t1, t2);
    lemma_names_in_texts_concat(t1, t1);
    lemma_dedup_prefix(n1, n2);
    lemma_dedup_absorb(n1, n1);
    lemma_dedup_distinct_and_complete(n1);
    lemma_dedup_distinct_and_complete(n2);
    lemma_dedup_distinct_and_complete(n1 + n2);
    let r = dedup(n1 + n2);
    assert forall|x: Seq<char>| r.to_set().contains(x) <==> dedup(n1).to_set().union(
        dedup(n2).to_set(),
    ).contains(x) by {
        if (n1 + n2).contains(x) {
            let k = choose|k: int| 0 <= k < (n1 + n2).len() && (n1 + n2)[k] == x;
            if k < n1.len() {
                assert(n1[k] == x);
            } else {
                assert(n2[k - n1.len()] == x);
            }
        }
        if n1.contains(x) {
            let k = choose|k: int| 0 <= k < n1.len() && n1[k] == x;
            assert((n1 + n2)[k] == x);
        }
        if n2.contains(x) {
            let k = choose|k: int| 0 <= k < n2.len() && n2[k] == x;
            assert((n1 + n2)[k + n1.len()] == x);
        }
    }
    assert(r.to_set() =~= dedup(n1).to_set().union(dedup(n2).to_set()));
}

/// The unresolved expressions of template files, file after file: each
/// file is given by its path and its text.
pub open spec fn files_unresolved(
    files: Seq<(Seq<char>, Seq<char>)>,
    empty: Set<Seq<char>>,
) -> Seq<(Seq<char>, nat, Seq<char>)>
    decreases files.len(),
{
    if files.len() == 0 {
        seq![]
    } else {
        files_unresolved(files.drop_last(), empty) + content_unresolved(
            files.last().0,
            files.last().1,
            empty,
            1,
        )
    }
}

/// The unresolved expressions of all rendered template files (each given
/// by its repo-relative path and its text, in the order they were rendered):
/// for each file, for each of its lines, each `{{ name }}` expression whose
/// variable is among `empty`.
pub fn unresolved_in_files(files: &Vec<(String, String)>, empty: &Vec<String>) -> (r: Vec<
    UnresolvedExpr,
>)
    ensures
        unresolved_views(r@) == files_unresolved(pair_views(files@), views(empty@).to_set()),
{
    let ghost set = views(empty@).to_set();
    let mut out: Vec<UnresolvedExpr> = Vec::new();
    let mut i: usize = 0;
    assert(pair_views(files@).take(0) == Seq::<(Seq<char>, Seq<char>)>::empty());
    assert(unresolved_views(out@) == Seq::<(Seq<char>, nat, Seq<char>)>::empty());
    while i < files.len()
        invariant
            i <= files@.len(),
            set == views(empty@).to_set(),
            unresolved_views(out@) == files_unresolved(pair_views(files@).take(i as int), set),
        decreases files@.len() - i,
    {
        let mut found = unresolved_in(files[i].0.as_str(), files[i].1.as_str(), empty);
        let ghost before = out@;
        let ghost added = found@;
        out.append(&mut found);
        assert(unresolved_views(out@) == unresolved_views(before) + unresolved_views(added));
        assert(pair_views(files@).take(i + 1).drop_last() == pair_views(files@).take(i as int));
        assert(pair_views(files@).take(i + 1).last() == pair_views(files@)[i as int]);
        i = i + 1;
    }
    assert(pair_views(files@).take(files@.len() as int) == pair_views(files@));
    out
}

proof fn lemma_selected_paths_contains(candidates: Seq<Seq<char>>, matcher: Option<Seq<Seq<char>>>, x: Seq<char>)
    ensures
        selected_paths(candidates, matcher).contains(x) <==> (candidates.contains(x) && is_selected(
            x,
            matcher,
        )),
    decreases candidates.len(),
{
    if candidates.len() > 0 {
        let init = candidates.drop_last();
        lemma_selected_paths_contains(init, matcher, x);
        let r = selected_paths(init, matcher);
        if candidates.contains(x) && x != candidates.last() {
            let k = choose|k: int| 0 <= k < candidates.len() && candidates[k] == x;
            assert(init[k] == x);
        }
        if init.contains(x) {
            let k = choose|k: int| 0 <= k < init.len() && init[k] == x;
            assert(candidates[k] == x);
        }
        if is_selected(candidates.last(), matcher) {
            let t = r.push(candidates.last());
            if r.contains(x) {
                let k = choose|k: int| 0 <= k < r.len() && r[k] == x;
                assert(t[k] == x);
            }
            if t.contains(x) && x != candidates.last() {
                let k = choose|k: int| 0 <= k < t.len() && t[k] == x;
                assert(r[k] == x);
            }
            assert(t[r.len() as int] == candidates.last());
            assert(candidates[candidates.len() - 1] == candidates.last());
        } else {
            assert(candidates[candidates.len() - 1] == candidates.last());
        }
    }
}

/// Only the repository's own `.git` directory is skipped: without patterns,
/// every candidate whose first path component (the text before its first
/// `/`) is not `.git`, and which is none of `.gittemplate`, `.gitvendors` and
/// `.gitattributes`, is a template file (so `.gitignore` and
/// `.github/workflows/ci.yml` are); and no candidate whose first component is
/// `.git` is one, whatever the patterns.
pub proof fn lemma_only_git_dir_skipped(
    candidates: Seq<Seq<char>>,
    rel: Seq<char>,
    matcher: Option<Seq<Seq<char>>>,
)
    ensures
        candidates.contains(rel) && rel.take(index_of(rel, '/') as int) != ".git"@ && rel
            != ".gittemplate"@ && rel != ".gitvendors"@ && rel != ".gitattributes"@ ==> selected_paths(
            candidates,
            None,
        ).contains(rel),
        rel.take(index_of(rel, '/') as int) == ".git"@ ==> !selected_paths(candidates, matcher).contains(
            rel,
        ),
{
    lemma_selected_paths_contains(candidates, None, rel);
    lemma_selected_paths_contains(candidates, matcher, rel);
}

proof fn lemma_name_len_run(n: Seq<char>, c: char)
    requires
        forall|i: int| 0 <= i < n.len() ==> is_alphanumeric(#[trigger] n[i]) || n[i] == '_',
        !(is_alphanumeric(c) || c == '_'),
    ensures
        name_len(n + seq![c]) == n.len(),
    decreases n.len(),
{
    let x = n + seq![c];
    assert(x[0] == if n.len() > 0 { n[0] } else { c });
    if n.len() > 0 {
        assert(x.drop_first() == n.drop_first() + seq![c]);
        assert forall|i: int| 0 <= i < n.drop_first().len() implies is_alphanumeric(
            #[trigger] n.drop_first()[i],
        ) || n.drop_first()[i] == '_' by {
            assert(n.drop_first()[i] == n[i + 1]);
        }
        lemma_name_len_run(n.drop_first(), c);
    }
}

proof fn lemma_no_open_no_names(s: Seq<char>)
    requires
        !s.contains('{'),
    ensures
        var_names(s) == Seq::<Seq<char>>::empty(),
    decreases s.len(),
{
    if s.len() >= 2 {
        assert(s[0] != '{');
        assert forall|i: int| 0 <= i < s.drop_first().len() implies s.drop_first()[i] != '{' by {
            assert(s.drop_first()[i] == s[i + 1]);
        }
        lemma_no_open_no_names(s.drop_first());
    }
}

/// An expression `{{ name` ended by a character `c` that cannot be part of a
/// name gives exactly that name, followed by the names of the text after
/// it: every character for which `char::is_alphanumeric` holds (upper and
/// lower case letters, digits, other scripts) and `_` belong to a name.
pub proof fn lemma_expression_gives_name(n: Seq<char>, c: char, rest: Seq<char>)
    requires
        n.len() > 0,
        forall|i: int| 0 <= i < n.len() ==> is_alphanumeric(#[trigger] n[i]) || n[i] == '_',
        forall|i: int| 0 <= i < n.len() ==> #[trigger] n[i] != '{' && n[i] != ' ' && n[i] != '\t',
        !(is_alphanumeric(c) || c == '_'),
        c != '{' && c != ' ' && c != '\t',
    ensures
        var_names("{{ "@ + n + seq![c] + rest) == seq![n] + var_names(rest),
{
    reveal_strlit("{{ ");
    let a = "{{ "@ + n + seq![c];
    assert(a.last() == c);
    lemma_var_names_concat(a, rest);
    assert(a[0] == '{' && a[1] == '{');
    let x = a.skip(2);
    assert(x == seq![' '] + (n + seq![c]));
    assert(x.drop_first() == n + seq![c]);
    assert((n + seq![c])[0] == n[0]);
    assert(blank_len(n + seq![c]) == 0);
    assert(blank_len(x) == 1);
    lemma_name_len_run(n, c);
    assert(x.skip(1) == n + seq![c]);
    assert((n + seq![c]).take(n.len() as int) == n);
    assert(name_after_open(x) == seq![n]);
    assert forall|i: int| 0 <= i < x.len() implies x[i] != '{' by {
        if i == 0 {
        } else if i <= n.len() {
            assert(x[i] == n[i - 1]);
        } else {
            assert(x[i] == c);
        }
    }
    lemma_no_open_no_names(x);
    assert(seq![n] + Seq::<Seq<char>>::empty() == seq![n]);
}

proof fn lemma_line_unresolved_filter(
    file: Seq<char>,
    names: Seq<Seq<char>>,
    empty: Set<Seq<char>>,
    line_no: nat,
)
    ensures
        line_unresolved(file, names, empty, line_no) == names.filter(
            |x: Seq<char>| empty.contains(x),
        ).map_values(|x: Seq<char>| (file, line_no, "{{ "@ + x + " }}"@)),
    decreases names.len(),
{
    reveal(Seq::filter);
    if names.len() > 0 {
        lemma_line_unresolved_filter(file, names.drop_last(), empty, line_no);
        let f = names.drop_last().filter(|x: Seq<char>| empty.contains(x));
        let g = |x: Seq<char>| (file, line_no, "{{ "@ + x + " }}"@);
        assert(names.filter(|x: Seq<char>| empty.contains(x)) == if empty.contains(names.last()) {
            f.push(names.last())
        } else {
            f
        });
        if empty.contains(names.last()) {
            assert(f.push(names.last()).map_values(g) == f.map_values(g).push(g(names.last())));
        }
    } else {
        assert(names.filter(|x: Seq<char>| empty.contains(x)) == names);
    }
}

/// Every unresolved expression of a line is reported: for a line (no line
/// break) numbered `line_no`, the reports are, in order and with
/// repetition, one `{{ name }}` for each name of the line that is among the
/// empty variables, and nothing else.
pub proof fn lemma_line_reports_every_empty_name(
    file: Seq<char>,
    line: Seq<char>,
    empty: Set<Seq<char>>,
    line_no: nat,
)
    requires
        !line.contains('\n'),
    ensures
        content_unresolved(file, line, empty, line_no) == var_names(line).filter(
            |x: Seq<char>| empty.contains(x),
        ).map_values(|x: Seq<char>| (file, line_no, "{{ "@ + x + " }}"@)),
{
    reveal_strlit("{{ ");
    reveal_strlit(" }}");
    crate::editor::lemma_index_of_absent(line, '\n');
    assert(line.take(line.len() as int) == line);
    lemma_line_unresolved_filter(file, var_names(line), empty, line_no);
}

/// Lines are numbered one after the other: the reports of a line, then a
/// line break, then more text, are those of the line followed by those of
/// the text, whose first line has the next number.
pub proof fn lemma_reports_of_next_lines(
    file: Seq<char>,
    line: Seq<char>,
    rest: Seq<char>,
    empty: Set<Seq<char>>,
    line_no: nat,
)
    requires
        !line.contains('\n'),
    ensures
        content_unresolved(file, line + seq!['\n'] + rest, empty, line_no) == content_unresolved(
            file,
            line,
            empty,
            line_no,
        ) + content_unresolved(file, rest, empty, line_no + 1),
{
    let s = line + seq!['\n'] + rest;
    crate::editor::lemma_index_of_absent(line, '\n');
    crate::editor::lemma_index_of_concat(line, seq!['\n'] + rest, '\n');
    assert(s == line + (seq!['\n'] + rest));
    assert((seq!['\n'] + rest)[0] == '\n');
    assert(index_of(seq!['\n'] + rest, '\n') == 0);
    assert(s.take(line.len() as int) == line);
    assert(s.skip(line.len() as int + 1) == rest);
    assert(line.take(line.len() as int) == line);
}

} // verus!
