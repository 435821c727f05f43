//! The template parameter prompt: the file that the editor opens, and how the
//! edited file is read back into a `name → value` map.

use vstd::prelude::*;

use crate::text::{
    chars_of, find_char, index_of, is_white_space, string_of, trim, trim_bounds, trim_end, trim_start,
};

verus! {

/// A template variable to present in the editor prompt.
pub struct Var {
    /// Variable name.
    pub name: String,
    /// Optional description shown as a comment above the entry.
    pub description: Option<String>,
    /// Default value pre-filled in the editor.
    pub default: String,
}

/// The views of a sequence of key/value string pairs.
pub open spec fn pair_views(e: Seq<(String, String)>) -> Seq<(Seq<char>, Seq<char>)> {
    e.map_values(|p: (String, String)| (p.0@, p.1@))
}

/// No key occurs twice among the pairs.
pub open spec fn keys_unique(ps: Seq<(Seq<char>, Seq<char>)>) -> bool {
    forall|i: int, j: int| 0 <= i < j < ps.len() ==> ps[i].0 != ps[j].0
}

/// The map that inserting the pairs in order builds (a later pair for the
/// same key replaces an earlier one).
pub open spec fn map_of(ps: Seq<(Seq<char>, Seq<char>)>) -> Map<Seq<char>, Seq<char>>
    decreases ps.len(),
{
    if ps.len() == 0 {
        Map::empty()
    } else {
        map_of(ps.drop_last()).insert(ps.last().0, ps.last().1)
    }
}

/// The keys of `map_of(ps)` are the keys of the pairs.
pub proof fn lemma_map_of_dom(ps: Seq<(Seq<char>, Seq<char>)>, k: Seq<char>)
    ensures
        map_of(ps).dom().contains(k) <==> exists|i: int| 0 <= i < ps.len() && (#[trigger] ps[i]).0 == k,
    decreases ps.len(),
{
    if ps.len() > 0 {
        lemma_map_of_dom(ps.drop_last(), k);
        if exists|i: int| 0 <= i < ps.len() && (#[trigger] ps[i]).0 == k {
            let i = choose|i: int| 0 <= i < ps.len() && (#[trigger] ps[i]).0 == k;
            if i < ps.len() - 1 {
                assert(ps.drop_last()[i].0 == k);
            }
        }
        if exists|i: int| 0 <= i < ps.drop_last().len() && (#[trigger] ps.drop_last()[i]).0 == k {
            let i = choose|i: int| 0 <= i < ps.drop_last().len() && (#[trigger] ps.drop_last()[i]).0 == k;
            assert(ps[i].0 == k);
        }
    }
}

/// With unique keys, the value of a key is the value of its pair.
pub proof fn lemma_map_of_value(ps: Seq<(Seq<char>, Seq<char>)>, i: int)
    requires
        keys_unique(ps),
        0 <= i < ps.len(),
    ensures
        map_of(ps).dom().contains(ps[i].0),
        map_of(ps)[ps[i].0] == ps[i].1,
    decreases ps.len(),
{
    if i < ps.len() - 1 {
        lemma_map_of_value(ps.drop_last(), i);
    }
}

/// With unique keys, replacing the value of the pair at `i` replaces the
/// value of its key in the map.
pub proof fn lemma_map_of_update(ps: Seq<(Seq<char>, Seq<char>)>, i: int, v: Seq<char>)
    requires
        keys_unique(ps),
        0 <= i < ps.len(),
    ensures
        map_of(ps.update(i, (ps[i].0, v))) == map_of(ps).insert(ps[i].0, v),
    decreases ps.len(),
{
    let k = ps[i].0;
    let qs = ps.update(i, (k, v));
    if i == ps.len() - 1 {
        assert(qs.drop_last() == ps.drop_last());
        assert(map_of(ps).insert(k, v) == map_of(ps.drop_last()).insert(k, v));
    } else {
        lemma_map_of_update(ps.drop_last(), i, v);
        assert(qs.drop_last() == ps.drop_last().update(i, (k, v)));
        assert(ps.last().0 != k);
        assert(map_of(qs) == map_of(ps).insert(k, v));
    }
}

/// A map from parameter names to values, in insertion order of the names.
pub struct ParamMap {
    entries: Vec<(String, String)>,
}

impl View for ParamMap {
    type V = Map<Seq<char>, Seq<char>>;

    closed spec fn view(&self) -> Map<Seq<char>, Seq<char>> {
        map_of(pair_views(self.entries@))
    }
}

impl ParamMap {
    #[verifier::type_invariant]
    spec fn keys_distinct(self) -> bool {
        keys_unique(pair_views(self.entries@))
    }

    /// An empty map.
    pub fn new() -> (r: ParamMap)
        ensures
            r@ == Map::<Seq<char>, Seq<char>>::empty(),
    {
        let r = ParamMap { entries: Vec::new() };
        assert(pair_views(r.entries@) == Seq::<(Seq<char>, Seq<char>)>::empty());
        r
    }

    /// Index of the entry for `key`, if any.
    fn position(&self, key: &String) -> (r: Option<usize>)
        ensures
            r matches Some(i) ==> i < self.entries@.len() && self.entries@[i as int].0@ == key@,
            r is None ==> forall|i: int|
                0 <= i < self.entries@.len() ==> (#[trigger] self.entries@[i]).0@ != key@,
    {
        let mut i: usize = 0;
        while i < self.entries.len()
            invariant
                i <= self.entries@.len(),
                forall|j: int| 0 <= j < i ==> (#[trigger] self.entries@[j]).0@ != key@,
            decreases self.entries@.len() - i,
        {
            if self.entries[i].0 == *key {
                return Some(i);
            }
            i = i + 1;
        }
        None
    }

    /// Sets `key` to `value`, replacing an earlier value of `key`.
    pub fn insert(&mut self, key: String, value: String)
        ensures
            final(self)@ == old(self)@.insert(key@, value@),
    {
        proof {
            use_type_invariant(&*self);
        }
        let ghost ps = pair_views(self.entries@);
        let found = self.position(&key);
        let mut entries: Vec<(String, String)> = Vec::new();
        std::mem::swap(&mut entries, &mut self.entries);
        match found {
            Some(i) => {
                proof {
                    lemma_map_of_update(ps, i as int, value@);
                }
                let ghost kv = key@;
                let ghost vv = value@;
                entries.set(i, (key, value));
                assert(pair_views(entries@) == ps.update(i as int, (ps[i as int].0, vv)));
                self.entries = entries;
            },
            None => {
                let ghost kv = key@;
                let ghost vv = value@;
                assert forall|i: int| 0 <= i < ps.len() implies ps[i].0 != kv by {
                    assert(ps[i].0 == entries@[i].0@);
                }
                entries.push((key, value));
                assert(pair_views(entries@) == ps.push((kv, vv)));
                assert(pair_views(entries@).drop_last() == ps);
                self.entries = entries;
            },
        }
    }

    /// The value of `key`, if it has one.
    pub fn get(&self, key: &str) -> (r: Option<String>)
        ensures
            r is Some <==> self@.dom().contains(key@),
            r matches Some(v) ==> v@ == self@[key@],
    {
        proof {
            use_type_invariant(self);
        }
        let k = key.to_owned();
        let ghost ps = pair_views(self.entries@);
        match self.position(&k) {
            Some(i) => {
                proof {
                    lemma_map_of_value(ps, i as int);
                }
                Some(self.entries[i].1.clone())
            },
            None => {
                proof {
                    lemma_map_of_dom(ps, key@);
                    if self@.dom().contains(key@) {
                        let j = choose|j: int| 0 <= j < ps.len() && (#[trigger] ps[j]).0 == key@;
                        assert(self.entries@[j].0@ == ps[j].0);
                    }
                }
                None
            },
        }
    }

    /// Number of names in the map.
    pub fn len(&self) -> (r: usize)
        ensures
            r == self@.dom().len(),
    {
        proof {
            use_type_invariant(self);
            lemma_unique_len(pair_views(self.entries@));
        }
        self.entries.len()
    }

    /// Whether the map has no name.
    pub fn is_empty(&self) -> (r: bool)
        ensures
            r == (self@.dom().len() == 0),
    {
        self.len() == 0
    }

    /// The name/value pairs, each name once, in the order the names were
    /// first inserted.
    pub fn pairs(&self) -> (r: &Vec<(String, String)>)
        ensures
            keys_unique(pair_views(r@)),
            map_of(pair_views(r@)) == self@,
    {
        proof {
            use_type_invariant(self);
        }
        &self.entries
    }
}

/// With unique keys the map has one entry per pair.
pub proof fn lemma_unique_len(ps: Seq<(Seq<char>, Seq<char>)>)
    requires
        keys_unique(ps),
    ensures
        map_of(ps).dom().finite(),
        map_of(ps).dom().len() == ps.len(),
    decreases ps.len(),
{
    if ps.len() > 0 {
        lemma_unique_len(ps.drop_last());
        lemma_map_of_dom(ps.drop_last(), ps.last().0);
        if map_of(ps.drop_last()).dom().contains(ps.last().0) {
            let i = choose|i: int|
                0 <= i < ps.drop_last().len() && (#[trigger] ps.drop_last()[i]).0 == ps.last().0;
            assert(ps[i].0 == ps[ps.len() - 1].0);
        }
    }
}

/// The entry that one line of the edited file contributes: none for a
/// blank line or a comment (first non-blank character `#`) or a line without
/// `:`; else the trimmed text before the first `:` and the trimmed text after it.
pub open spec fn line_entry(line: Seq<char>) -> Option<(Seq<char>, Seq<char>)> {
    let t = trim(line);
    if t.len() == 0 || t[0] == '#' {
        None
    } else {
        let p = index_of(t, ':');
        if p < t.len() {
            Some((trim(t.take(p as int)), trim(t.skip(p as int + 1))))
        } else {
            None
        }
    }
}

/// `m` updated with the entries of the lines of `s`, line by line.
///
/// Lines end at `\n`.  (`str::lines` also drops a `\r` before the `\n` and
/// yields no final empty line; both vanish in the trimming of
/// [`line_entry`], so the entries are the same.)
pub open spec fn apply_lines(m: Map<Seq<char>, Seq<char>>, s: Seq<char>) -> Map<Seq<char>, Seq<char>>
    decreases s.len(),
{
    let k = index_of(s, '\n');
    let m2 = match line_entry(s.take(k as int)) {
        Some(e) => m.insert(e.0, e.1),
        None => m,
    };
    if k < s.len() {
        apply_lines(m2, s.skip(k as int + 1))
    } else {
        m2
    }
}

/// The `name → value` map that the edited file `content` gives.
pub open spec fn parsed_params(content: Seq<char>) -> Map<Seq<char>, Seq<char>> {
    apply_lines(Map::empty(), content)
}

proof fn lemma_index_of_bound(s: Seq<char>, c: char)
    ensures
        index_of(s, c) <= s.len(),
        index_of(s, c) < s.len() ==> s[index_of(s, c) as int] == c,
    decreases s.len(),
{
    if s.len() > 0 && s[0] != c {
        lemma_index_of_bound(s.drop_first(), c);
    }
}

/// Parse the edited parameter file into a `name → value` map: every line
/// `key: value` that is not blank and not a comment sets the trimmed key to the
/// trimmed value; a later line for the same key wins.
pub fn parse_params(content: &str) -> (r: ParamMap)
    ensures
        r@ == parsed_params(content@),
{
    let v = chars_of(content);
    let n = v.len();
    let mut m = ParamMap::new();
    let mut i: usize = 0;
    assert(v@.skip(0) == v@);
    loop
        invariant_except_break
            i <= n == v@.len(),
            apply_lines(m@, v@.skip(i as int)) == parsed_params(v@),
        invariant
            v@ == content@,
        ensures
            m@ == parsed_params(v@),
        decreases n - i,
    {
        let ghost rest = v@.skip(i as int);
        let ghost m0 = m@;
        let j = find_char(&v, i, n, '\n');
        assert(v@.subrange(i as int, n as int) == rest);
        assert(rest.take((j - i) as int) == v@.subrange(i as int, j as int));
        let (a, b) = trim_bounds(&v, i, j);
        let ghost t = v@.subrange(a as int, b as int);
        if a < b && v[a] != '#' {
            let p = find_char(&v, a, b, ':');
            proof {
                lemma_index_of_bound(t, ':');
            }
            if p < b {
                let (ka, kb) = trim_bounds(&v, a, p);
                let (va, vb) = trim_bounds(&v, p + 1, b);
                assert(t.take((p - a) as int) == v@.subrange(a as int, p as int));
                assert(t.skip((p - a) + 1) == v@.subrange(p + 1, b as int));
                let key = string_of(&v, ka, kb);
                let value = string_of(&v, va, vb);
                m.insert(key, value);
            }
        }
        assert(m@ == match line_entry(rest.take((j - i) as int)) {
            Some(e) => m0.insert(e.0, e.1),
            None => m0,
        });
        if j == n {
            break;
        }
        assert(rest.skip((j - i) + 1) == v@.skip(j + 1));
        i = j + 1;
    }
    m
}

/// The header of the parameter file.
pub open spec fn prompt_header() -> Seq<char> {
    "# git template init\n"@ + "# Fill in values below. Lines starting with '#' are ignored.\n"@
        + "# Format:  key: value\n"@
}

/// The lines of the parameter file for one variable: an empty line, the
/// description as a comment when there is one, and `name: default`.
pub open spec fn var_lines(v: Var) -> Seq<char> {
    "\n"@ + match v.description {
        Some(d) => "# "@ + v.name@ + ": "@ + d@ + "\n"@,
        None => Seq::<char>::empty(),
    } + v.name@ + ": "@ + v.default@ + "\n"@
}

/// The lines of all variables, in order.
pub open spec fn vars_lines(vars: Seq<Var>) -> Seq<char>
    decreases vars.len(),
{
    if vars.len() == 0 {
        seq![]
    } else {
        vars_lines(vars.drop_last()) + var_lines(vars.last())
    }
}

/// The parameter file that the editor opens for `vars`.
pub open spec fn prompt_file(vars: Seq<Var>) -> Seq<char> {
    prompt_header() + vars_lines(vars)
}

/// The text of the parameter prompt for `vars`: a comment header, then for
/// each variable a blank line, its description as a comment, and a
/// `name: default` line to edit.
pub fn prompt_text(vars: &Vec<Var>) -> (r: String)
    ensures
        r@ == prompt_file(vars@),
{
    let mut s = String::new();
    s.append("# git template init\n");
    s.append("# Fill in values below. Lines starting with '#' are ignored.\n");
    s.append("# Format:  key: value\n");
    let mut i: usize = 0;
    assert(vars@.take(0) == Seq::<Var>::empty());
    while i < vars.len()
        invariant
            i <= vars@.len(),
            s@ == prompt_header() + vars_lines(vars@.take(i as int)),
        decreases vars@.len() - i,
    {
        let var = &vars[i];
        let ghost before = s@;
        s.append("\n");
        match &var.description {
            Some(d) => {
                s.append("# ");
                s.append(var.name.as_str());
                s.append(": ");
                s.append(d.as_str());
                s.append("\n");
            },
            None => {},
        }
        s.append(var.name.as_str());
        s.append(": ");
        s.append(var.default.as_str());
        s.append("\n");
        assert(s@ == before + var_lines(*var));
        assert(vars@.take(i + 1).drop_last() == vars@.take(i as int));
        i = i + 1;
    }
    assert(vars@.take(vars@.len() as int) == vars@);
    s
}

/// A variable whose entry survives the round trip through the prompt file:
/// its name has no `:` and does not start with `#`, and no part of it breaks
/// a line.
pub open spec fn fits_prompt(v: Var) -> bool {
    &&& !v.name@.contains(':')
    &&& !v.name@.contains('\n')
    &&& !v.default@.contains('\n')
    &&& (v.description matches Some(d) ==> !d@.contains('\n'))
    &&& !(trim_start(v.name@).len() > 0 && trim_start(v.name@)[0] == '#')
}

/// The map of each variable's trimmed name to its trimmed default, a later
/// variable of the same name winning.
pub open spec fn prompt_defaults(vars: Seq<Var>) -> Map<Seq<char>, Seq<char>>
    decreases vars.len(),
{
    if vars.len() == 0 {
        Map::empty()
    } else {
        prompt_defaults(vars.drop_last()).insert(trim(vars.last().name@), trim(vars.last().default@))
    }
}

proof fn lemma_trim_start_concat(x: Seq<char>, y: Seq<char>)
    requires
        y.len() > 0,
        !is_white_space(y[0]),
    ensures
        trim_start(x + y) == trim_start(x) + y,
    decreases x.len(),
{
    if x.len() == 0 {
        assert(x + y == y);
    } else {
        assert((x + y)[0] == x[0]);
        if is_white_space(x[0]) {
            assert((x + y).drop_first() == x.drop_first() + y);
            lemma_trim_start_concat(x.drop_first(), y);
        }
    }
}

proof fn lemma_trim_end_concat(x: Seq<char>, y: Seq<char>)
    requires
        x.len() > 0,
        !is_white_space(x.last()),
    ensures
        trim_end(x + y) == x + trim_end(y),
    decreases y.len(),
{
    if y.len() == 0 {
        assert(x + y == x);
    } else {
        assert((x + y).last() == y.last());
        if is_white_space(y.last()) {
            assert((x + y).drop_last() == x + y.drop_last());
            lemma_trim_end_concat(x, y.drop_last());
        }
    }
}

proof fn lemma_trim_start_idempotent(x: Seq<char>)
    ensures
        trim_start(trim_start(x)) == trim_start(x),
    decreases x.len(),
{
    if x.len() > 0 && is_white_space(x[0]) {
        lemma_trim_start_idempotent(x.drop_first());
    }
}

proof fn lemma_trim_end_idempotent(x: Seq<char>)
    ensures
        trim_end(trim_end(x)) == trim_end(x),
    decreases x.len(),
{
    if x.len() > 0 && is_white_space(x.last()) {
        lemma_trim_end_idempotent(x.drop_last());
    }
}

/// `trim_end` seen from the front.
proof fn lemma_trim_end_front(x: Seq<char>)
    requires
        x.len() > 0,
    ensures
        trim_end(x) == (if trim_end(x.drop_first()).len() == 0 && is_white_space(x[0]) {
            Seq::<char>::empty()
        } else {
            seq![x[0]] + trim_end(x.drop_first())
        }),
    decreases x.len(),
{
    if x.len() == 1 {
        assert(x.drop_first() == Seq::<char>::empty());
        assert(x.drop_last() == Seq::<char>::empty());
        assert(seq![x[0]] + Seq::<char>::empty() == x);
    } else if is_white_space(x.last()) {
        lemma_trim_end_front(x.drop_last());
        assert(x.drop_last().drop_first() == x.drop_first().drop_last());
        assert(x.drop_first().last() == x.last());
        assert(x.drop_last()[0] == x[0]);
    } else {
        assert(x.drop_first().last() == x.last());
        assert(seq![x[0]] + x.drop_first() == x);
    }
}

proof fn lemma_trim_commute(x: Seq<char>)
    ensures
        trim_start(trim_end(x)) == trim_end(trim_start(x)),
    decreases x.len(),
{
    if x.len() > 0 {
        lemma_trim_end_front(x);
        if is_white_space(x[0]) {
            lemma_trim_commute(x.drop_first());
            let te = trim_end(x.drop_first());
            if te.len() != 0 {
                assert((seq![x[0]] + te).drop_first() == te);
            }
        } else {
            let te = trim_end(x);
            assert(te[0] == x[0]);
        }
    }
}

proof fn lemma_trim_start_keeps_absent(x: Seq<char>, c: char)
    requires
        !x.contains(c),
    ensures
        !trim_start(x).contains(c),
    decreases x.len(),
{
    if x.len() > 0 && is_white_space(x[0]) {
        assert forall|i: int| 0 <= i < x.drop_first().len() implies x.drop_first()[i] != c by {
            assert(x.drop_first()[i] == x[i + 1]);
        }
        lemma_trim_start_keeps_absent(x.drop_first(), c);
    }
}

pub(crate) proof fn lemma_index_of_concat(x: Seq<char>, y: Seq<char>, c: char)
    requires
        !x.contains(c),
    ensures
        index_of(x + y, c) == x.len() + index_of(y, c),
    decreases x.len(),
{
    if x.len() == 0 {
        assert(x + y == y);
    } else {
        assert((x + y)[0] == x[0]);
        assert((x + y).drop_first() == x.drop_first() + y);
        assert forall|i: int| 0 <= i < x.drop_first().len() implies x.drop_first()[i] != c by {
            assert(x.drop_first()[i] == x[i + 1]);
        }
        lemma_index_of_concat(x.drop_first(), y, c);
    }
}

/// Lines followed by more text: the lines of `a` are applied first.
proof fn lemma_apply_lines_concat(m: Map<Seq<char>, Seq<char>>, a: Seq<char>, b: Seq<char>)
    requires
        a.len() > 0,
        a.last() == '\n',
    ensures
        apply_lines(m, a + b) == apply_lines(apply_lines(m, a), b),
    decreases a.len(),
{
    let k = index_of(a, '\n');
    lemma_index_of_bound(a, '\n');
    if k >= a.len() {
        lemma_index_of_absent(a, '\n');
        assert(a.contains('\n')) by {
            assert(a[a.len() - 1] == '\n');
        }
    }
    lemma_index_of_prefix(a, b, '\n');
    assert((a + b).take(k as int) == a.take(k as int));
    let m2 = match line_entry(a.take(k as int)) {
        Some(e) => m.insert(e.0, e.1),
        None => m,
    };
    assert((a + b).skip(k as int + 1) == a.skip(k as int + 1) + b);
    if k + 1 == a.len() {
        assert(a.skip(k as int + 1) + b == b);
        assert(a.skip(k as int + 1) == Seq::<char>::empty());
        lemma_apply_lines_empty(m2);
    } else {
        assert(a.skip(k as int + 1).last() == '\n');
        lemma_apply_lines_concat(m2, a.skip(k as int + 1), b);
    }
}

pub(crate) proof fn lemma_index_of_absent(x: Seq<char>, c: char)
    ensures
        index_of(x, c) == x.len() <==> !x.contains(c),
    decreases x.len(),
{
    if x.len() > 0 {
        lemma_index_of_absent(x.drop_first(), c);
        if x[0] != c {
            if x.contains(c) {
                let i = choose|i: int| 0 <= i < x.len() && x[i] == c;
                assert(x.drop_first()[i - 1] == c);
            }
            if x.drop_first().contains(c) {
                let i = choose|i: int| 0 <= i < x.drop_first().len() && x.drop_first()[i] == c;
                assert(x[i + 1] == c);
            }
        } else {
            assert(x[0] == c);
        }
    }
}

/// The first `c` of `a` is the first `c` of `a + b`.
proof fn lemma_index_of_prefix(a: Seq<char>, b: Seq<char>, c: char)
    requires
        index_of(a, c) < a.len(),
    ensures
        index_of(a + b, c) == index_of(a, c),
    decreases a.len(),
{
    assert((a + b)[0] == a[0]);
    if a[0] != c {
        assert((a + b).drop_first() == a.drop_first() + b);
        lemma_index_of_prefix(a.drop_first(), b, c);
    }
}

proof fn lemma_apply_lines_empty(m: Map<Seq<char>, Seq<char>>)
    ensures
        apply_lines(m, Seq::<char>::empty()) == m,
{
    let e = Seq::<char>::empty();
    assert(e.take(0) == e);
    assert(trim_start(e) == e);
    assert(trim_end(e) == e);
}

/// One line without a line break, then `\n`: its entry is applied.
proof fn lemma_apply_one_line(m: Map<Seq<char>, Seq<char>>, line: Seq<char>)
    requires
        !line.contains('\n'),
    ensures
        apply_lines(m, line + seq!['\n']) == match line_entry(line) {
            Some(e) => m.insert(e.0, e.1),
            None => m,
        },
{
    let a = line + seq!['\n'];
    lemma_index_of_concat(line, seq!['\n'], '\n');
    assert(index_of(seq!['\n'], '\n') == 0);
    assert(a.take(line.len() as int) == line);
    assert(a.skip(line.len() as int + 1) == Seq::<char>::empty());
    let m2 = match line_entry(line) {
        Some(e) => m.insert(e.0, e.1),
        None => m,
    };
    lemma_apply_lines_empty(m2);
}

/// A line that starts with `#` is a comment.
proof fn lemma_comment_line(line: Seq<char>)
    requires
        line.len() > 0,
        line[0] == '#',
    ensures
        line_entry(line) is None,
{
    assert(trim_start(line) == line);
    lemma_trim_end_front(line);
}

/// The entry of a `name: default` line.
proof fn lemma_entry_line(name: Seq<char>, default: Seq<char>)
    requires
        !name.contains(':'),
        !(trim_start(name).len() > 0 && trim_start(name)[0] == '#'),
    ensures
        line_entry(name + ": "@ + default) == Some((trim(name), trim(default))),
{
    reveal_strlit(": ");
    let sep = ": "@;
    let line = name + sep + default;
    let rest = seq![':'] + (seq![' '] + default);
    assert(sep + default == rest);
    assert(line == name + rest);
    lemma_trim_start_concat(name, rest);
    let p = trim_start(name) + seq![':'];
    assert(trim_start(line) == p + (seq![' '] + default));
    lemma_trim_end_concat(p, seq![' '] + default);
    let tail = trim_end(seq![' '] + default);
    let t = p + tail;
    assert(trim(line) == t);
    lemma_trim_start_keeps_absent(name, ':');
    lemma_index_of_concat(trim_start(name), seq![':'] + tail, ':');
    assert((seq![':'] + tail)[0] == ':');
    assert(index_of(seq![':'] + tail, ':') == 0);
    assert(t == trim_start(name) + (seq![':'] + tail));
    let k = trim_start(name).len();
    assert(t.take(k as int) == trim_start(name));
    assert(t.skip(k as int + 1) == tail);
    if k > 0 {
        assert(t[0] == trim_start(name)[0]);
    } else {
        assert(t[0] == ':');
    }
    lemma_trim_start_idempotent(name);
    // trim(tail) == trim(default)
    lemma_trim_commute(seq![' '] + default);
    assert((seq![' '] + default).drop_first() == default);
    assert(trim_start(seq![' '] + default) == trim_start(default));
    lemma_trim_end_idempotent(trim_start(default));
}

/// The lines of one variable set its trimmed name to its trimmed default.
proof fn lemma_var_lines(m: Map<Seq<char>, Seq<char>>, v: Var, rest: Seq<char>)
    requires
        fits_prompt(v),
    ensures
        apply_lines(m, var_lines(v) + rest) == apply_lines(
            m.insert(trim(v.name@), trim(v.default@)),
            rest,
        ),
{
    reveal_strlit("\n");
    reveal_strlit("# ");
    reveal_strlit(": ");
    let nl = seq!['\n'];
    assert("\n"@ == nl);
    let name_line = v.name@ + ": "@ + v.default@;
    assert(!name_line.contains('\n')) by {
        assert forall|i: int| 0 <= i < name_line.len() implies name_line[i] != '\n' by {
            if i < v.name@.len() {
                assert(name_line[i] == v.name@[i]);
            } else if i >= v.name@.len() + 2 {
                assert(name_line[i] == v.default@[i - v.name@.len() - 2]);
            }
        }
    }
    lemma_entry_line(v.name@, v.default@);
    let tail = name_line + nl + rest;
    let mid = match v.description {
        Some(d) => "# "@ + v.name@ + ": "@ + d@ + "\n"@,
        None => Seq::<char>::empty(),
    };
    assert(var_lines(v) + rest == nl + (mid + tail));
    // the blank line
    lemma_apply_one_line(m, Seq::<char>::empty());
    assert(Seq::<char>::empty() + nl == nl);
    assert(line_entry(Seq::<char>::empty()) is None) by {
        assert(trim_start(Seq::<char>::empty()) == Seq::<char>::empty());
        assert(trim_end(Seq::<char>::empty()) == Seq::<char>::empty());
    }
    lemma_apply_lines_concat(m, nl, mid + tail);
    // the description comment
    match v.description {
        Some(d) => {
            let dl = "# "@ + v.name@ + ": "@ + d@;
            assert(!dl.contains('\n')) by {
                assert forall|i: int| 0 <= i < dl.len() implies dl[i] != '\n' by {
                    let a = v.name@.len();
                    if i < 2 {
                    } else if i < 2 + a {
                        assert(dl[i] == v.name@[i - 2]);
                    } else if i < 4 + a {
                    } else {
                        assert(dl[i] == d@[i - 4 - a]);
                    }
                }
            }
            assert(dl[0] == '#');
            lemma_comment_line(dl);
            lemma_apply_one_line(m, dl);
            assert(mid == dl + nl);
            assert(mid + tail == (dl + nl) + tail);
            lemma_apply_lines_concat(m, dl + nl, tail);
        },
        None => {
            assert(mid + tail == tail);
        },
    }
    lemma_apply_one_line(m, name_line);
    assert(tail == (name_line + nl) + rest);
    lemma_apply_lines_concat(m, name_line + nl, rest);
}

/// The lines of the variables, followed by more text.
proof fn lemma_vars_lines(m: Map<Seq<char>, Seq<char>>, vars: Seq<Var>)
    requires
        forall|i: int| 0 <= i < vars.len() ==> fits_prompt(#[trigger] vars[i]),
    ensures
        apply_lines(m, vars_lines(vars)) == prompt_defaults_from(m, vars),
    decreases vars.len(),
{
    if vars.len() == 0 {
        lemma_apply_lines_empty(m);
    } else {
        let init = vars.drop_last();
        let v = vars.last();
        assert(fits_prompt(vars[vars.len() - 1]));
        lemma_vars_lines(m, init);
        let e = Seq::<char>::empty();
        lemma_var_lines(apply_lines(m, vars_lines(init)), v, e);
        assert(var_lines(v) + e == var_lines(v));
        lemma_apply_lines_empty(apply_lines(m, vars_lines(init)).insert(trim(v.name@), trim(v.default@)));
        if vars_lines(init).len() == 0 {
            assert(vars_lines(init) + var_lines(v) == var_lines(v));
            lemma_apply_lines_empty(m);
        } else {
            lemma_vars_lines_end(init);
            lemma_apply_lines_concat(m, vars_lines(init), var_lines(v));
        }
    }
}

/// `m` updated with each variable's trimmed name and default.
pub open spec fn prompt_defaults_from(m: Map<Seq<char>, Seq<char>>, vars: Seq<Var>) -> Map<
    Seq<char>,
    Seq<char>,
>
    decreases vars.len(),
{
    if vars.len() == 0 {
        m
    } else {
        prompt_defaults_from(m, vars.drop_last()).insert(
            trim(vars.last().name@),
            trim(vars.last().default@),
        )
    }
}

proof fn lemma_vars_lines_end(vars: Seq<Var>)
    requires
        vars_lines(vars).len() > 0,
    ensures
        vars_lines(vars).last() == '\n',
{
    reveal_strlit("\n");
    let v = vars.last();
    assert(var_lines(v).last() == '\n');
    assert((vars_lines(vars.drop_last()) + var_lines(v)).last() == var_lines(v).last());
}

proof fn lemma_defaults_from_empty(vars: Seq<Var>)
    ensures
        prompt_defaults_from(Map::empty(), vars) == prompt_defaults(vars),
    decreases vars.len(),
{
    if vars.len() > 0 {
        lemma_defaults_from_empty(vars.drop_last());
    }
}

/// A header line: starts with `#`, holds no line break before its final `\n`.
proof fn lemma_header_line(m: Map<Seq<char>, Seq<char>>, h: Seq<char>, rest: Seq<char>)
    requires
        h.len() > 1,
        h[0] == '#',
        h.last() == '\n',
        !h.drop_last().contains('\n'),
    ensures
        apply_lines(m, h + rest) == apply_lines(m, rest),
{
    let l = h.drop_last();
    assert(l + seq!['\n'] == h);
    assert(l[0] == '#');
    lemma_comment_line(l);
    lemma_apply_one_line(m, l);
    lemma_apply_lines_concat(m, h, rest);
}

/// Read back unedited, the prompt file gives every variable its default:
/// parsing the text of [`prompt_text`] maps each trimmed name to the trimmed
/// default of the last variable of that name.  This holds of the variables
/// whose names have no `:` and do not start with `#`, and whose parts hold no
/// line break.
pub proof fn lemma_unedited_prompt_gives_defaults(vars: Seq<Var>)
    requires
        forall|i: int| 0 <= i < vars.len() ==> fits_prompt(#[trigger] vars[i]),
    ensures
        parsed_params(prompt_file(vars)) == prompt_defaults(vars),
{
    let h1 = "# git template init\n"@;
    let h2 = "# Fill in values below. Lines starting with '#' are ignored.\n"@;
    let h3 = "# Format:  key: value\n"@;
    reveal_strlit("# git template init\n");
    reveal_strlit("# Fill in values below. Lines starting with '#' are ignored.\n");
    reveal_strlit("# Format:  key: value\n");
    let body = vars_lines(vars);
    let e = Map::<Seq<char>, Seq<char>>::empty();
    assert(prompt_file(vars) == h1 + (h2 + (h3 + body)));
    lemma_header_line(e, h1, h2 + (h3 + body));
    lemma_header_line(e, h2, h3 + body);
    lemma_header_line(e, h3, body);
    lemma_vars_lines(e, vars);
    lemma_defaults_from_empty(vars);
}

/// Reading a parameter back gives the value last written to it, and writing
/// one parameter leaves every other parameter as it was: when `after` is what
/// [`ParamMap::insert`] of `key` and `value` leaves of `before`, [`ParamMap::get`]
/// of `key` on `after` gives `value`, and `get` of any other name gives on
/// `after` what it gave on `before`.
pub proof fn lemma_read_after_write(
    before: ParamMap,
    after: ParamMap,
    key: Seq<char>,
    value: Seq<char>,
    other: Seq<char>,
)
    requires
        after@ == before@.insert(key, value),
    ensures
        after@.dom().contains(key),
        after@[key] == value,
        other != key ==> (after@.dom().contains(other) <==> before@.dom().contains(other)),
        other != key && before@.dom().contains(other) ==> after@[other] == before@[other],
{
}

/// The editor that opens the parameter file: `$GIT_EDITOR`, else
/// `$VISUAL`, else `$EDITOR` (each given here when it is set), else `vi`.
pub fn editor_command(git_editor: Option<String>, visual: Option<String>, editor: Option<String>) -> (r:
    String)
    ensures
        r@ == match (git_editor, visual, editor) {
            (Some(g), _, _) => g@,
            (None, Some(v), _) => v@,
            (None, None, Some(e)) => e@,
            (None, None, None) => "vi"@,
        },
{
    match git_editor {
        Some(g) => g,
        None => match visual {
            Some(v) => v,
            None => match editor {
                Some(e) => e,
                None => "vi".to_owned(),
            },
        },
    }
}

proof fn lemma_entry_colon(name: Seq<char>, value: Seq<char>)
    requires
        !name.contains(':'),
        !(trim_start(name).len() > 0 && trim_start(name)[0] == '#'),
    ensures
        line_entry(name + seq![':'] + value) == Some((trim(name), trim(value))),
{
    let line = name + seq![':'] + value;
    let rest = seq![':'] + value;
    assert(line == name + rest);
    lemma_trim_start_concat(name, rest);
    let p = trim_start(name) + seq![':'];
    assert(trim_start(line) == p + value);
    lemma_trim_end_concat(p, value);
    let tail = trim_end(value);
    let t = p + tail;
    assert(trim(line) == t);
    lemma_trim_start_keeps_absent(name, ':');
    lemma_index_of_concat(trim_start(name), seq![':'] + tail, ':');
    assert((seq![':'] + tail)[0] == ':');
    assert(index_of(seq![':'] + tail, ':') == 0);
    assert(t == trim_start(name) + (seq![':'] + tail));
    let k = trim_start(name).len();
    assert(t.take(k as int) == trim_start(name));
    assert(t.skip(k as int + 1) == tail);
    if k > 0 {
        assert(t[0] == trim_start(name)[0]);
    } else {
        assert(t[0] == ':');
    }
    lemma_trim_start_idempotent(name);
    lemma_trim_commute(value);
    lemma_trim_end_idempotent(trim_start(value));
}

/// A `name: value` line sets the trimmed name to the trimmed value, whether
/// white space follows the colon or not, and with or without a final line
/// break.  (The name holds no `:` and does not start with `#`; neither part
/// breaks the line.)
pub proof fn lemma_key_value_line(name: Seq<char>, value: Seq<char>)
    requires
        !name.contains(':'),
        !name.contains('\n'),
        !value.contains('\n'),
        !(trim_start(name).len() > 0 && trim_start(name)[0] == '#'),
    ensures
        parsed_params(name + ":"@ + value) == Map::<Seq<char>, Seq<char>>::empty().insert(
            trim(name),
            trim(value),
        ),
        parsed_params(name + ":"@ + value + "\n"@) == Map::<Seq<char>, Seq<char>>::empty().insert(
            trim(name),
            trim(value),
        ),
{
    reveal_strlit(":");
    reveal_strlit("\n");
    let line = name + seq![':'] + value;
    assert(name + ":"@ + value == line);
    assert(!line.contains('\n')) by {
        assert forall|i: int| 0 <= i < line.len() implies line[i] != '\n' by {
            if i < name.len() {
                assert(line[i] == name[i]);
            } else if i > name.len() {
                assert(line[i] == value[i - name.len() - 1]);
            }
        }
    }
    lemma_entry_colon(name, value);
    let e = Map::<Seq<char>, Seq<char>>::empty();
    lemma_index_of_absent(line, '\n');
    assert(line.take(line.len() as int) == line);
    lemma_apply_one_line(e, line);
    assert(line + "\n"@ == line + seq!['\n']);
}

/// `t` occurs in `s` as a contiguous part.
pub open spec fn occurs_in(s: Seq<char>, t: Seq<char>) -> bool {
    exists|k: int| 0 <= k && k + t.len() <= s.len() && #[trigger] s.subrange(k, k + t.len()) == t
}

proof fn lemma_occurs_extend(x: Seq<char>, s: Seq<char>, y: Seq<char>, t: Seq<char>)
    requires
        occurs_in(s, t),
    ensures
        occurs_in(x + s + y, t),
{
    let k = choose|k: int| 0 <= k && k + t.len() <= s.len() && #[trigger] s.subrange(k, k + t.len()) == t;
    assert((x + s + y).subrange(x.len() + k, x.len() + k + t.len()) == s.subrange(k, k + t.len()));
}

proof fn lemma_occurs_prefix(s: Seq<char>, y: Seq<char>)
    ensures
        occurs_in(s + y, s),
{
    assert((s + y).subrange(0int, 0int + s.len()) == s);
}

proof fn lemma_vars_lines_holds(vars: Seq<Var>, i: int)
    requires
        0 <= i < vars.len(),
    ensures
        forall|t: Seq<char>| occurs_in(var_lines(vars[i]), t) ==> occurs_in(vars_lines(vars), t),
    decreases vars.len(),
{
    let e = Seq::<char>::empty();
    if i == vars.len() - 1 {
        assert forall|t: Seq<char>| occurs_in(var_lines(vars[i]), t) implies occurs_in(
            vars_lines(vars),
            t,
        ) by {
            lemma_occurs_extend(vars_lines(vars.drop_last()), var_lines(vars[i]), e, t);
            assert(vars_lines(vars.drop_last()) + var_lines(vars[i]) + e == vars_lines(vars));
        }
    } else {
        lemma_vars_lines_holds(vars.drop_last(), i);
        assert(vars.drop_last()[i] == vars[i]);
        assert forall|t: Seq<char>| occurs_in(var_lines(vars[i]), t) implies occurs_in(
            vars_lines(vars),
            t,
        ) by {
            lemma_occurs_extend(e, vars_lines(vars.drop_last()), var_lines(vars.last()), t);
            assert(e + vars_lines(vars.drop_last()) + var_lines(vars.last()) == vars_lines(vars));
        }
    }
}

/// Every variable is shown in the prompt file, whatever its default: the
/// file holds the line `# name: description` of each variable that has a
/// description, and the line `name: default` of each variable (each line
/// preceded by a line break and followed by one).
pub proof fn lemma_prompt_shows_every_var(vars: Seq<Var>, i: int)
    requires
        0 <= i < vars.len(),
    ensures
        vars[i].description matches Some(d) ==> occurs_in(
            prompt_file(vars),
            "\n"@ + "# "@ + vars[i].name@ + ": "@ + d@ + "\n"@,
        ),
        occurs_in(prompt_file(vars), "\n"@ + vars[i].name@ + ": "@ + vars[i].default@ + "\n"@),
{
    reveal_strlit("\n");
    let v = vars[i];
    let nl = "\n"@;
    assert(nl == seq!['\n']);
    let name_line = nl + v.name@ + ": "@ + v.default@ + nl;
    let l = v.name@ + ": "@ + v.default@ + nl;
    assert(name_line == nl + l);
    lemma_vars_lines_holds(vars, i);
    let e = Seq::<char>::empty();
    match v.description {
        Some(d) => {
            let m = "# "@ + v.name@ + ": "@ + d@;
            let desc_line = nl + m + nl;
            assert(desc_line == nl + "# "@ + v.name@ + ": "@ + d@ + nl);
            assert(var_lines(v) == desc_line + l);
            lemma_occurs_prefix(desc_line, l);
            assert(var_lines(v) == (nl + m) + name_line);
            lemma_occurs_prefix(name_line, e);
            assert(name_line + e == name_line);
            lemma_occurs_extend(nl + m, name_line, e, name_line);
            assert((nl + m) + name_line + e == var_lines(v));
            lemma_occurs_extend(prompt_header(), vars_lines(vars), e, desc_line);
            lemma_occurs_extend(prompt_header(), vars_lines(vars), e, name_line);
        },
        None => {
            assert(var_lines(v) == name_line);
            lemma_occurs_prefix(name_line, e);
            assert(name_line + e == name_line);
            lemma_occurs_extend(prompt_header(), vars_lines(vars), e, name_line);
        },
    }
    assert(prompt_header() + vars_lines(vars) + e == prompt_file(vars));
}

} // verus!
