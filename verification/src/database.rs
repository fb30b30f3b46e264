//! The unit, prefix, function and table database that expressions are
//! resolved against.
use vstd::prelude::*;

use crate::magnitude::{interval_view, Interval};
use crate::namemap::NameMap;
use crate::text::{
    find_char, find_char_from, from_chars, has_prefix, is_ws, slice_vec, split2, starts_with, to_chars,
    trim, trim_end_char, trim_range, trim_start, utf8_len, utf8_length, chars_eq_str, strip_trailing,
    first_ws, split_first_word, is_whitespace, skip_ws, leading_ws, lemma_leading_ws_bound,
};

verus! {

/// How a unit name is defined.
#[derive(Debug)]
pub enum UnitEntry {
    /// A primitive base unit (defined with bare `!`).
    Primitive,
    /// A dimensionless primitive (defined with `!dimensionless`).
    DimensionlessPrimitive,
    /// A derived unit, by the text of its definition.
    Derived(String),
}

/// The entry that the definition text `def` gives a unit: `!dimensionless`
/// (spaces allowed after the `!`) is a dimensionless primitive, any other
/// text starting with `!` a primitive, anything else a derived unit whose
/// definition is the trimmed text.
pub open spec fn entry_for(def: Seq<char>, e: UnitEntry) -> bool {
    let t = trim(def);
    if t.len() > 0 && t[0] == '!' {
        if trim(t.drop_first()) == "dimensionless"@ {
            e is DimensionlessPrimitive
        } else {
            e is Primitive
        }
    } else {
        e matches UnitEntry::Derived(s) && s@ == t
    }
}

/// A non-linear conversion function, e.g. `tempC(x)`.
#[derive(Debug)]
pub struct FunctionDef {
    /// Parameter names used in the formula (none: a zero-argument alias).
    pub params: Vec<String>,
    /// The formula, evaluated with the parameters bound to the arguments.
    pub forward: String,
    /// The inverse formula, in which the function's own name is the variable.
    pub reverse: Option<String>,
    /// Per parameter, the unit the argument must conform to.
    pub units: Vec<Option<String>>,
    /// Per parameter, the interval the argument must lie in.
    pub domain: Vec<Option<Interval>>,
    /// The interval that the argument of the inverse must lie in.
    pub range: Option<Interval>,
    /// The unit that the argument of the inverse must conform to.
    pub inverse_unit: Option<String>,
    /// Domain and range checks are suppressed (`noerror`).
    pub noerror: bool,
}

/// A piecewise-linear table, e.g. `gasmark[degR]`.
#[derive(Debug)]
pub struct TableDef {
    /// The output unit expression.
    pub unit: String,
    /// The words of the definition: alternating input and output numbers.
    pub words: Vec<String>,
}

/// The whitespace-separated words of `s` (as `str::split_whitespace`).
#[verifier::opaque]
pub open spec fn words(s: Seq<char>) -> Seq<Seq<char>>
    decreases s.len(),
{
    if s.len() == 0 {
        Seq::empty()
    } else if is_ws(s[0]) {
        words(s.drop_first())
    } else {
        match first_ws(s) {
            Some(i) => if 1 <= i < s.len() {
                seq![s.take(i)] + words(s.skip(i))
            } else {
                seq![s]
            },
            None => seq![s],
        }
    }
}

/// The pieces of `s` between occurrences of `c` (as `str::split(c)`).
#[verifier::opaque]
pub open spec fn split_on(s: Seq<char>, c: char) -> Seq<Seq<char>>
    decreases s.len(),
{
    match find_char(s, c) {
        Some(i) => if 0 <= i < s.len() {
            seq![s.take(i)] + split_on(s.skip(i + 1), c)
        } else {
            seq![s]
        },
        None => seq![s],
    }
}

proof fn lemma_words_skip_ws(s: Seq<char>, i: int)
    requires
        0 <= i < s.len(),
        is_ws(s[i]),
    ensures
        words(s.skip(i)) == words(s.skip(i + 1)),
{
    reveal(words);
    let t = s.skip(i);
    assert(t[0] == s[i]);
    assert(t.drop_first() =~= s.skip(i + 1));
}

proof fn lemma_words_word(s: Seq<char>, i: int, j: int)
    requires
        0 <= i < j <= s.len(),
        forall|m: int| i <= m < j ==> !is_ws(#[trigger] s[m]),
        j == s.len() || is_ws(s[j]),
    ensures
        words(s.skip(i)) == seq![s.subrange(i, j)] + words(s.skip(j)),
{
    reveal(words);
    let t = s.skip(i);
    assert forall|m: int| 0 <= m < j - i implies !is_ws(#[trigger] t[m]) by {
        assert(t[m] == s[i + m]);
    }
    assert(!is_ws(t[0]));
    if j < s.len() {
        assert(t[j - i] == s[j]);
        crate::text::lemma_first_ws(t, j - i);
        assert(t.take(j - i) =~= s.subrange(i, j));
        assert(t.skip(j - i) =~= s.skip(j));
    } else {
        if exists|m: int| 0 <= m < t.len() && is_ws(t[m]) {
            let m = choose|m: int| 0 <= m < t.len() && is_ws(t[m]);
            assert(!is_ws(t[m]));
        }
        assert(t =~= s.subrange(i, j));
        assert(s.skip(j) =~= Seq::<char>::empty());
        assert(words(s.skip(j)) =~= Seq::<Seq<char>>::empty());
        assert(seq![s.subrange(i, j)] + Seq::<Seq<char>>::empty() =~= seq![s.subrange(i, j)]);
    }
}

/// Every word of `s` is at most as long as `s`.
pub proof fn lemma_words_bounded(s: Seq<char>)
    ensures
        forall|k: int| 0 <= k < words(s).len() ==> (#[trigger] words(s)[k]).len() <= s.len(),
    decreases s.len(),
{
    reveal(words);
    let w = words(s);
    if s.len() > 0 {
        if is_ws(s[0]) {
            lemma_words_bounded(s.drop_first());
            assert(w == words(s.drop_first()));
        } else {
            match first_ws(s) {
                Some(i) => if 1 <= i < s.len() {
                    lemma_words_bounded(s.skip(i));
                    assert(w == seq![s.take(i)] + words(s.skip(i)));
                    assert forall|k: int| 0 <= k < w.len() implies (#[trigger] w[k]).len() <= s.len() by {
                        if k > 0 {
                            assert(w[k] == words(s.skip(i))[k - 1]);
                        }
                    }
                } else {
                    assert(w == seq![s]);
                },
                None => {
                    assert(w == seq![s]);
                },
            }
        }
    } else {
        assert(w.len() == 0);
    }
}

/// Executable form of [`words`].
pub fn split_words(s: &Vec<char>) -> (r: Vec<Vec<char>>)
    ensures
        r@.len() == words(s@).len(),
        forall|k: int| 0 <= k < r@.len() ==> #[trigger] r@[k]@ == words(s@)[k],
{
    let mut out: Vec<Vec<char>> = Vec::new();
    let ghost mut done: Seq<Seq<char>> = Seq::empty();
    let mut i: usize = 0;
    assert(s@.skip(0) =~= s@);
    assert(Seq::<Seq<char>>::empty() + words(s@) =~= words(s@));
    while i < s.len()
        invariant
            i <= s@.len(),
            out@.len() == done.len(),
            forall|k: int| 0 <= k < out@.len() ==> #[trigger] out@[k]@ == done[k],
            words(s@) == done + words(s@.skip(i as int)),
        decreases s@.len() - i,
    {
        if is_whitespace(s[i]) {
            proof {
                lemma_words_skip_ws(s@, i as int);
            }
            i = i + 1;
        } else {
            let mut j = i + 1;
            while j < s.len() && !is_whitespace(s[j])
                invariant
                    i < j <= s@.len(),
                    forall|m: int| i <= m < j ==> !is_ws(#[trigger] s@[m]),
                decreases s@.len() - j,
            {
                j = j + 1;
            }
            let w = slice_vec(s, i, j);
            proof {
                lemma_words_word(s@, i as int, j as int);
                let old_done = done;
                done = done.push(w@);
                assert(old_done + (seq![w@] + words(s@.skip(j as int))) =~= done + words(s@.skip(j as int)));
            }
            out.push(w);
            i = j;
        }
    }
    proof {
        reveal(words);
        assert(s@.skip(i as int) =~= Seq::<char>::empty());
        assert(words(s@.skip(i as int)) =~= Seq::<Seq<char>>::empty());
        assert(done + Seq::<Seq<char>>::empty() =~= done);
    }
    out
}

proof fn lemma_split_on_found(s: Seq<char>, c: char, i: int, j: int)
    requires
        0 <= i <= j < s.len(),
        find_char(s.skip(i), c) == Some(j - i),
    ensures
        split_on(s.skip(i), c) == seq![s.subrange(i, j)] + split_on(s.skip(j + 1), c),
{
    reveal(split_on);
    let t = s.skip(i);
    assert(t.take(j - i) =~= s.subrange(i, j));
    assert(t.skip(j - i + 1) =~= s.skip(j + 1));
}

/// Executable form of [`split_on`].
#[verifier::rlimit(40)]
pub fn split_chars(s: &Vec<char>, c: char) -> (r: Vec<Vec<char>>)
    ensures
        r@.len() == split_on(s@, c).len(),
        forall|k: int| 0 <= k < r@.len() ==> #[trigger] r@[k]@ == split_on(s@, c)[k],
{
    let mut out: Vec<Vec<char>> = Vec::new();
    let ghost mut done: Seq<Seq<char>> = Seq::empty();
    let mut i: usize = 0;
    assert(s@.skip(0) =~= s@);
    assert(Seq::<Seq<char>>::empty() + split_on(s@, c) =~= split_on(s@, c));
    loop
        invariant
            i <= s@.len(),
            out@.len() == done.len(),
            forall|k: int| 0 <= k < out@.len() ==> #[trigger] out@[k]@ == done[k],
            split_on(s@, c) == done + split_on(s@.skip(i as int), c),
        decreases s@.len() - i,
    {
        match find_char_from(s, c, i) {
            Some(j) => {
                let piece = slice_vec(s, i, j);
                proof {
                    lemma_split_on_found(s@, c, i as int, j as int);
                    let old_done = done;
                    done = done.push(piece@);
                    assert(old_done + (seq![piece@] + split_on(s@.skip(j + 1), c)) =~= done + split_on(s@.skip(j + 1), c));
                }
                out.push(piece);
                assert(j < s.len());
                i = j + 1;
            },
            None => {
                let piece = slice_vec(s, i, s.len());
                proof {
                    reveal(split_on);
                    assert(s@.skip(i as int) =~= piece@);
                    let old_done = done;
                    done = done.push(piece@);
                    assert(old_done + seq![piece@] =~= done);
                }
                out.push(piece);
                return out;
            },
        }
    }
}

/// Bracket nesting depth after reading `s`: `[` opens, `]` closes (never
/// below zero).
pub open spec fn bracket_depth(s: Seq<char>) -> nat
    decreases s.len(),
{
    if s.len() == 0 {
        0
    } else {
        let d = bracket_depth(s.drop_last());
        if s.last() == '[' {
            d + 1
        } else if s.last() == ']' {
            if d == 0 {
                0
            } else {
                (d - 1) as nat
            }
        } else {
            d
        }
    }
}

/// Whether position `i` of `s` is a `;` outside brackets.
pub open spec fn is_formula_sep(s: Seq<char>, i: int) -> bool {
    0 <= i < s.len() && s[i] == ';' && bracket_depth(s.take(i)) == 0
}

/// The first `;` of `s` outside brackets: the separator between a
/// function's formula and its inverse.
#[verifier::opaque]
pub open spec fn formula_sep(s: Seq<char>) -> Option<int> {
    if exists|i: int| is_formula_sep(s, i) {
        Some(choose|i: int| is_formula_sep(s, i) && forall|j: int| 0 <= j < i ==> !#[trigger] is_formula_sep(s, j))
    } else {
        None
    }
}

/// Finds the first top-level `;` in a function body (see [`formula_sep`]).
pub fn find_formula_sep(s: &Vec<char>) -> (r: Option<usize>)
    ensures
        match r {
            Some(i) => formula_sep(s@) == Some(i as int) && i < s@.len() && s@[i as int] == ';',
            None => formula_sep(s@) is None,
        },
{
    let mut depth: usize = 0;
    let mut i: usize = 0;
    while i < s.len()
        invariant
            i <= s@.len(),
            depth == bracket_depth(s@.take(i as int)),
            depth <= i,
            forall|j: int| 0 <= j < i ==> !#[trigger] is_formula_sep(s@, j),
        decreases s@.len() - i,
    {
        let c = s[i];
        proof {
            assert(s@.take(i + 1).drop_last() =~= s@.take(i as int));
        }
        if c == ';' && depth == 0 {
            proof {
                reveal(formula_sep);
                assert(is_formula_sep(s@, i as int));
                let k = choose|k: int| is_formula_sep(s@, k) && forall|j: int| 0 <= j < k ==> !#[trigger] is_formula_sep(s@, j);
                if k < i {
                    assert(!is_formula_sep(s@, k));
                }
                if k > i {
                    assert(!is_formula_sep(s@, i as int));
                }
            }
            return Some(i);
        }
        if c == '[' {
            depth = depth + 1;
        } else if c == ']' {
            if depth > 0 {
                depth = depth - 1;
            }
        }
        i = i + 1;
    }
    proof {
        reveal(formula_sep);
        if exists|k: int| is_formula_sep(s@, k) {
            let k = choose|k: int| is_formula_sep(s@, k);
            assert(!is_formula_sep(s@, k));
        }
    }
    None
}

/// The parameter names in a function's name: the comma-separated, trimmed
/// names between the first `(` and the next `)`; none for `f()`; just `x`
/// when the name has no such parentheses.
pub open spec fn function_params(name: Seq<char>) -> Seq<Seq<char>> {
    match find_char(name, '(') {
        Some(i) => {
            let rest = name.skip(i + 1);
            match find_char(rest, ')') {
                Some(j) => {
                    let t = trim(rest.take(j));
                    if t.len() == 0 {
                        Seq::empty()
                    } else {
                        split_on(t, ',').map_values(|p: Seq<char>| trim(p))
                    }
                },
                None => seq!["x"@],
            }
        },
        None => seq!["x"@],
    }
}

/// The name a function is stored under: its name up to the first `(`.
pub open spec fn function_base_name(name: Seq<char>) -> Seq<char> {
    match find_char(name, '(') {
        Some(i) => name.take(i),
        None => name,
    }
}

fn chars_to_string(v: &Vec<char>) -> (s: String)
    ensures
        s@ == v@,
{
    from_chars(v.as_slice())
}

/// The strings of `v`, each trimmed.
fn trimmed_strings(v: &Vec<Vec<char>>) -> (r: Vec<String>)
    ensures
        r@.len() == v@.len(),
        forall|k: int| 0 <= k < r@.len() ==> #[trigger] r@[k]@ == trim(v@[k]@),
{
    let mut r: Vec<String> = Vec::new();
    let mut i: usize = 0;
    while i < v.len()
        invariant
            i <= v@.len(),
            r@.len() == i,
            forall|k: int| 0 <= k < i ==> #[trigger] r@[k]@ == trim(v@[k]@),
        decreases v@.len() - i,
    {
        let t = trim_range(&v[i], 0, v[i].len());
        proof {
            assert(v@[i as int]@.subrange(0, v@[i as int]@.len() as int) =~= v@[i as int]@);
        }
        r.push(chars_to_string(&t));
        i = i + 1;
    }
    r
}

/// Executable form of [`function_params`].
#[verifier::spinoff_prover]
#[verifier::rlimit(40)]
pub fn parse_params(name: &Vec<char>) -> (r: Vec<String>)
    ensures
        r@.len() == function_params(name@).len(),
        forall|k: int| 0 <= k < r@.len() ==> #[trigger] r@[k]@ == function_params(name@)[k],
{
    let mut dflt: Vec<String> = Vec::new();
    dflt.push(String::from_str("x"));
    proof {
        reveal_strlit("x");
    }
    match find_char_from(name, '(', 0) {
        Some(i) => {
            proof {
                assert(name@.skip(0) =~= name@);
            }
            assert(i < name.len());
            let rest = slice_vec(name, i + 1, name.len());
            proof {
                assert(rest@ =~= name@.skip(i + 1));
            }
            match find_char_from(&rest, ')', 0) {
                Some(j) => {
                    proof {
                        assert(rest@.skip(0) =~= rest@);
                    }
                    let t = trim_range(&rest, 0, j);
                    proof {
                        assert(rest@.subrange(0, j as int) =~= rest@.take(j as int));
                    }
                    if t.len() == 0 {
                        Vec::new()
                    } else {
                        let pieces = split_chars(&t, ',');
                        trimmed_strings(&pieces)
                    }
                },
                None => {
                    proof {
                        assert(rest@.skip(0) =~= rest@);
                    }
                    dflt
                },
            }
        },
        None => {
            proof {
                assert(name@.skip(0) =~= name@);
            }
            dflt
        },
    }
}

/// Whether `v[at..]` begins with the characters of `lit`.
fn has_prefix_at(v: &Vec<char>, at: usize, lit: &str) -> (b: bool)
    requires
        at <= v@.len(),
    ensures
        b == starts_with(v@.skip(at as int), lit@),
{
    let rest = slice_vec(v, at, v.len());
    let p = to_chars(lit);
    proof {
        assert(rest@ =~= v@.skip(at as int));
    }
    has_prefix(&rest, &p)
}

/// The index of the first `]` or `)` of `v` at or after `from`.
pub open spec fn close_from(v: Seq<char>, from: int) -> Option<int>
    decreases v.len() - from,
{
    if from < 0 || from >= v.len() {
        None
    } else if v[from] == ']' || v[from] == ')' {
        Some(from)
    } else {
        close_from(v, from + 1)
    }
}

proof fn lemma_close_from(v: Seq<char>, from: int)
    requires
        0 <= from,
    ensures
        close_from(v, from) matches Some(j) ==> from <= j < v.len(),
    decreases v.len() - from,
{
    if from < v.len() && !(v[from] == ']' || v[from] == ')') {
        lemma_close_from(v, from + 1);
    }
}

/// The index of the first `]` or `)` at or after `from` (see [`close_from`]).
fn find_close(v: &Vec<char>, from: usize) -> (r: Option<usize>)
    requires
        from <= v@.len(),
    ensures
        match r {
            Some(j) => close_from(v@, from as int) == Some(j as int) && from <= j < v@.len(),
            None => close_from(v@, from as int) is None,
        },
{
    let mut j = from;
    while j < v.len() && v[j] != ']' && v[j] != ')'
        invariant
            from <= j <= v@.len(),
            close_from(v@, from as int) == close_from(v@, j as int),
        decreases v@.len() - j,
    {
        j = j + 1;
    }
    if j < v.len() {
        Some(j)
    } else {
        None
    }
}

/// The position after the whitespace at `p`.
pub open spec fn after_ws(v: Seq<char>, p: int) -> int {
    p + leading_ws(v.skip(p))
}

pub proof fn lemma_after_ws(v: Seq<char>, p: int)
    requires
        0 <= p <= v.len(),
    ensures
        p <= after_ws(v, p) <= v.len(),
{
    lemma_leading_ws_bound(v.skip(p));
}

/// The view of an optional interval.
pub open spec fn opt_interval_view(o: Option<Interval>) -> Option<(Seq<char>, Seq<char>, bool, bool)> {
    match o {
        Some(i) => Some(interval_view(i)),
        None => None,
    }
}

/// The interval opened at `q` and closed at `close`: its bounds are the
/// trimmed texts around the first comma inside, `(` and `)` make them
/// exclusive; `None` without a comma.
pub open spec fn interval_item(v: Seq<char>, q: int, close: int) -> Option<(Seq<char>, Seq<char>, bool, bool)> {
    let inner = v.subrange(q + 1, close);
    match find_char(inner, ',') {
        Some(c) => Some((trim(inner.take(c)), trim(inner.skip(c + 1)), v[q] == '(', v[close] == ')')),
        None => None,
    }
}

/// Where reading goes on after an interval closed at `close`: at the next
/// interval when a comma and an opening bracket follow, else just after.
pub open spec fn next_interval_pos(v: Seq<char>, close: int) -> int {
    let nx = after_ws(v, close + 1);
    if nx < v.len() && v[nx] == ',' {
        let af = after_ws(v, nx + 1);
        if af < v.len() && (v[af] == '[' || v[af] == '(') {
            af
        } else {
            close + 1
        }
    } else {
        close + 1
    }
}

/// Reading at most `count` intervals at `p`: the intervals and the
/// position after the last one read.
pub open spec fn intervals_from(v: Seq<char>, p: int, count: nat) -> (
    Seq<Option<(Seq<char>, Seq<char>, bool, bool)>>,
    int,
)
    decreases count,
{
    if count == 0 {
        (Seq::empty(), p)
    } else {
        let q = after_ws(v, p);
        if q >= v.len() || !(v[q] == '[' || v[q] == '(') {
            (Seq::empty(), p)
        } else {
            match close_from(v, q + 1) {
                None => (Seq::empty(), p),
                Some(close) => {
                    let rest = intervals_from(v, next_interval_pos(v, close), (count - 1) as nat);
                    (seq![interval_item(v, q, close)] + rest.0, rest.1)
                },
            }
        }
    }
}

proof fn lemma_next_interval_pos(v: Seq<char>, close: int)
    requires
        0 <= close < v.len(),
    ensures
        close < next_interval_pos(v, close) <= v.len(),
{
    lemma_after_ws(v, close + 1);
    let nx = after_ws(v, close + 1);
    if nx < v.len() {
        lemma_after_ws(v, nx + 1);
    }
}

pub proof fn lemma_intervals_bounds(v: Seq<char>, p: int, count: nat)
    requires
        0 <= p <= v.len(),
    ensures
        p <= intervals_from(v, p, count).1 <= v.len(),
        intervals_from(v, p, count).0.len() <= count,
    decreases count,
{
    if count > 0 {
        lemma_after_ws(v, p);
        let q = after_ws(v, p);
        if q < v.len() && (v[q] == '[' || v[q] == '(') {
            lemma_close_from(v, q + 1);
            match close_from(v, q + 1) {
                Some(close) => {
                    lemma_next_interval_pos(v, close);
                    lemma_intervals_bounds(v, next_interval_pos(v, close), (count - 1) as nat);
                },
                None => {},
            }
        }
    }
}

/// The views of a list of optional intervals.
pub open spec fn intervals_view(v: Seq<Option<Interval>>) -> Seq<Option<(Seq<char>, Seq<char>, bool, bool)>> {
    v.map_values(|o: Option<Interval>| opt_interval_view(o))
}

fn read_interval(v: &Vec<char>, q: usize, close: usize) -> (r: Option<Interval>)
    requires
        q < close < v@.len(),
    ensures
        opt_interval_view(r) == interval_item(v@, q as int, close as int),
{
    let min_open = v[q] == '(';
    let max_open = v[close] == ')';
    let inner = slice_vec(v, q + 1, close);
    proof {
        assert(inner@.skip(0) =~= inner@);
    }
    match find_char_from(&inner, ',', 0) {
        None => None,
        Some(c) => {
            let lo = trim_range(&inner, 0, c);
            let hi = trim_range(&inner, c + 1, inner.len());
            proof {
                assert(inner@.subrange(0, c as int) =~= inner@.take(c as int));
                assert(inner@.subrange(c + 1, inner@.len() as int) =~= inner@.skip(c + 1));
            }
            Some(Interval { min: chars_to_string(&lo), max: chars_to_string(&hi), min_open, max_open })
        },
    }
}

/// Reads up to `max_count` intervals (`[a,b]`, `(a,b]`, ...) from
/// `v[from..]` (see [`intervals_from`]).  Returns the intervals and the
/// index after the last one read.
pub fn parse_intervals_multi(v: &Vec<char>, from: usize, max_count: usize) -> (r: (
    Vec<Option<Interval>>,
    usize,
))
    requires
        from <= v@.len(),
    ensures
        (intervals_view(r.0@), r.1 as int) == intervals_from(v@, from as int, max_count as nat),
        r.0@.len() <= max_count,
        from <= r.1 <= v@.len(),
{
    let ghost total = intervals_from(v@, from as int, max_count as nat);
    let mut out: Vec<Option<Interval>> = Vec::new();
    let mut p = from;
    proof {
        assert(intervals_view(out@) + total.0 =~= total.0);
    }
    loop
        invariant
            from <= p <= v@.len(),
            out@.len() <= max_count,
            ({
                let rest = intervals_from(v@, p as int, (max_count - out@.len()) as nat);
                intervals_view(out@) + rest.0 == total.0 && rest.1 == total.1
            }),
        ensures
            from <= p <= v@.len(),
            out@.len() <= max_count,
            intervals_view(out@) == total.0,
            p == total.1,
        decreases max_count - out@.len(),
    {
        let ghost rest = intervals_from(v@, p as int, (max_count - out@.len()) as nat);
        if out.len() >= max_count {
            proof {
                assert(intervals_view(out@) + rest.0 =~= intervals_view(out@));
            }
            break;
        }
        let q = skip_ws(v, p);
        if q >= v.len() || !(v[q] == '[' || v[q] == '(') {
            proof {
                assert(intervals_view(out@) + rest.0 =~= intervals_view(out@));
            }
            break;
        }
        match find_close(v, q + 1) {
            None => {
                proof {
                    assert(intervals_view(out@) + rest.0 =~= intervals_view(out@));
                }
                break;
            },
            Some(close) => {
                let item = read_interval(v, q, close);
                let mut np = close + 1;
                let nx = skip_ws(v, np);
                if nx < v.len() && v[nx] == ',' {
                    let af = skip_ws(v, nx + 1);
                    if af < v.len() && (v[af] == '[' || v[af] == '(') {
                        np = af;
                    }
                }
                proof {
                    assert(np as int == next_interval_pos(v@, close as int));
                }
                let ghost before = out@;
                out.push(item);
                proof {
                    assert(intervals_view(out@) =~= intervals_view(before).push(opt_interval_view(item)));
                    let nxt = intervals_from(v@, np as int, (max_count - out@.len()) as nat);
                    assert(rest.0 == seq![opt_interval_view(item)] + nxt.0);
                    assert(intervals_view(out@) + nxt.0 =~= intervals_view(before) + rest.0);
                }
                p = np;
            },
        }
    }
    (out, p)
}

/// Whether `c` is an ASCII letter, digit or underscore.
pub open spec fn word_char(c: char) -> bool {
    ('a' <= c && c <= 'z') || ('A' <= c && c <= 'Z') || ('0' <= c && c <= '9') || c == '_'
}

fn is_word_char(c: char) -> (b: bool)
    ensures
        b == word_char(c),
{
    ('a' <= c && c <= 'z') || ('A' <= c && c <= 'Z') || ('0' <= c && c <= '9') || c == '_'
}

/// The metadata in front of a function's definition (`units=[...]`,
/// `domain=...`, `range=...`, `noerror`) and the formula after it.
pub struct FuncMeta {
    /// Per parameter, the unit given in `units=[...]`.
    pub forward_units: Vec<Option<String>>,
    /// The unit after `;` in `units=[...]`.
    pub inverse_unit: Option<String>,
    /// Per parameter, the interval given in `domain=`.
    pub domain: Vec<Option<Interval>>,
    /// The interval given in `range=`.
    pub range: Option<Interval>,
    /// `noerror` was given.
    pub noerror: bool,
    /// The rest of the definition: the formula.
    pub formula: Vec<char>,
}

/// The content of a function's metadata.
pub struct MetaView {
    /// Per parameter, the unit its argument must conform to.
    pub units: Seq<Option<Seq<char>>>,
    /// The unit the argument of the inverse must conform to.
    pub inverse_unit: Option<Seq<char>>,
    /// Per parameter, the interval its argument must lie in.
    pub domain: Seq<Option<(Seq<char>, Seq<char>, bool, bool)>>,
    /// The interval the argument of the inverse must lie in.
    pub range: Option<(Seq<char>, Seq<char>, bool, bool)>,
    /// Domain and range checks are suppressed.
    pub noerror: bool,
}

/// The views of a list of optional strings.
pub open spec fn opt_views(v: Seq<Option<String>>) -> Seq<Option<Seq<char>>> {
    v.map_values(|o: Option<String>| opt_view(o))
}

/// The content of the metadata read.
pub open spec fn meta_view(m: FuncMeta) -> MetaView {
    MetaView {
        units: opt_views(m.forward_units@),
        inverse_unit: opt_view(m.inverse_unit),
        domain: intervals_view(m.domain@),
        range: opt_interval_view(m.range),
        noerror: m.noerror,
    }
}

/// The metadata of a function of `n` parameters before any keyword.
pub open spec fn no_meta(n: nat) -> MetaView {
    MetaView {
        units: Seq::new(n, |i: int| None),
        inverse_unit: None,
        domain: Seq::new(n, |i: int| None),
        range: None,
        noerror: false,
    }
}

/// The unit that one entry of `units=[...]` gives: the trimmed text, unless
/// it is empty or `*`.
pub open spec fn unit_slot(part: Seq<char>) -> Option<Seq<char>> {
    let p = trim(part);
    if p.len() > 0 && p != seq!['*'] {
        Some(p)
    } else {
        None
    }
}

/// `units` with the entries that `parts` give replaced.
pub open spec fn with_units(units: Seq<Option<Seq<char>>>, parts: Seq<Seq<char>>) -> Seq<Option<Seq<char>>> {
    Seq::new(
        units.len(),
        |i: int|
            if i < parts.len() && unit_slot(parts[i]) is Some {
                unit_slot(parts[i])
            } else {
                units[i]
            },
    )
}

/// `dom` with its first entries replaced by `ints`.
pub open spec fn with_domain(
    dom: Seq<Option<(Seq<char>, Seq<char>, bool, bool)>>,
    ints: Seq<Option<(Seq<char>, Seq<char>, bool, bool)>>,
) -> Seq<Option<(Seq<char>, Seq<char>, bool, bool)>> {
    Seq::new(dom.len(), |i: int| if i < ints.len() { ints[i] } else { dom[i] })
}

/// The metadata after `units=[content]`: the parameter units before the
/// first `;`, separated by commas, and the inverse's unit after it.
pub open spec fn units_meta(m: MetaView, content: Seq<char>) -> MetaView {
    match find_char(content, ';') {
        Some(sc) => {
            let inv = unit_slot(content.skip(sc + 1));
            MetaView {
                units: with_units(m.units, split_on(content.take(sc), ',')),
                inverse_unit: if inv is Some { inv } else { m.inverse_unit },
                ..m
            }
        },
        None => MetaView { units: with_units(m.units, split_on(content, ',')), ..m },
    }
}

/// The parameter units and inverse unit after `units=[content]`.
#[verifier::opaque]
pub open spec fn units_after(units: Seq<Option<Seq<char>>>, inv: Option<Seq<char>>, content: Seq<char>) -> (
    Seq<Option<Seq<char>>>,
    Option<Seq<char>>,
) {
    let m = units_meta(
        MetaView { units, inverse_unit: inv, domain: Seq::empty(), range: None, noerror: false },
        content,
    );
    (m.units, m.inverse_unit)
}

/// The keyword `noerror`.
pub open spec fn kw_noerror() -> Seq<char> {
    seq!['n', 'o', 'e', 'r', 'r', 'o', 'r']
}

/// The keyword `units=[`.
pub open spec fn kw_units() -> Seq<char> {
    seq!['u', 'n', 'i', 't', 's', '=', '[']
}

/// The keyword `domain=`.
pub open spec fn kw_domain() -> Seq<char> {
    seq!['d', 'o', 'm', 'a', 'i', 'n', '=']
}

/// The keyword `range=`.
pub open spec fn kw_range() -> Seq<char> {
    seq!['r', 'a', 'n', 'g', 'e', '=']
}

/// Reading the metadata keywords of `t` from `pos` on, for a function of
/// `n` parameters, with `m` read so far: the metadata and the position
/// where the formula starts.
pub open spec fn meta_from(t: Seq<char>, pos: int, n: nat, m: MetaView) -> (MetaView, int)
    decreases t.len() - pos,
{
    if pos < 0 || pos > t.len() {
        (m, pos)
    } else {
        proof {
            lemma_after_ws(t, pos);
        }
        let p = after_ws(t, pos);
        let rest = t.skip(p);
        if starts_with(rest, kw_noerror()) && (p + 7 == t.len() || !word_char(t[p + 7])) {
            meta_from(t, p + 7, n, MetaView { noerror: true, ..m })
        } else if starts_with(rest, kw_units()) {
            match find_char(t.skip(p + 7), ']') {
                None => (m, p),
                Some(c) => if 0 <= c < t.len() - (p + 7) {
                    meta_from(t, p + 8 + c, n, units_meta(m, t.subrange(p + 7, p + 7 + c)))
                } else {
                    (m, p)
                },
            }
        } else if starts_with(rest, kw_domain()) {
            proof {
                lemma_intervals_bounds(t, p + 7, n);
            }
            let r = intervals_from(t, p + 7, n);
            meta_from(t, r.1, n, MetaView { domain: with_domain(m.domain, r.0), ..m })
        } else if starts_with(rest, kw_range()) {
            proof {
                lemma_intervals_bounds(t, p + 6, 1);
            }
            let r = intervals_from(t, p + 6, 1);
            meta_from(t, r.1, n, MetaView { range: if r.0.len() > 0 { r.0[0] } else { None }, ..m })
        } else {
            (m, p)
        }
    }
}

/// The metadata of a function of `n` parameters defined by `def`, and the
/// position in the trimmed definition where its formula starts.
pub open spec fn def_meta(n: nat, def: Seq<char>) -> (MetaView, int) {
    meta_from(trim(def), 0, n, no_meta(n))
}

/// The current metadata as a view.
spec fn meta_state(
    units: Seq<Option<String>>,
    inverse_unit: Option<String>,
    domain: Seq<Option<Interval>>,
    range: Option<Interval>,
    noerror: bool,
) -> MetaView {
    MetaView {
        units: opt_views(units),
        inverse_unit: opt_view(inverse_unit),
        domain: intervals_view(domain),
        range: opt_interval_view(range),
        noerror,
    }
}

/// Fills the parameter units that `units=[content]` gives.
fn apply_units(units: &mut Vec<Option<String>>, inverse_unit: &mut Option<String>, content: &Vec<char>)
    ensures
        final(units)@.len() == old(units)@.len(),
        (opt_views(final(units)@), opt_view(*final(inverse_unit))) == units_after(
            opt_views(old(units)@),
            opt_view(*old(inverse_unit)),
            content@,
        ),
{
    reveal(units_after);
    let ghost u0 = opt_views(units@);
    proof {
        assert(content@.skip(0) =~= content@);
    }
    let (params_part, inv_part) = match find_char_from(content, ';', 0) {
        Some(sc) => {
            let cl = content.len();
            assert(sc < cl);
            let pp = slice_vec(content, 0, sc);
            let ip = slice_vec(content, sc + 1, cl);
            proof {
                assert(pp@ =~= content@.take(sc as int));
                assert(ip@ =~= content@.skip(sc + 1));
            }
            (pp, Some(ip))
        },
        None => (slice_vec(content, 0, content.len()), None),
    };
    proof {
        if find_char(content@, ';') is None {
            assert(params_part@ =~= content@);
        }
    }
    let parts = split_chars(&params_part, ',');
    let ghost pv = split_on(params_part@, ',');
    let mut i: usize = 0;
    while i < parts.len()
        invariant
            i <= parts@.len(),
            parts@.len() == pv.len(),
            forall|k: int| 0 <= k < parts@.len() ==> #[trigger] parts@[k]@ == pv[k],
            units@.len() == u0.len(),
            opt_views(units@) == with_units(u0, pv.take(i as int)),
        decreases parts@.len() - i,
    {
        let part = trim_range(&parts[i], 0, parts[i].len());
        proof {
            assert(parts@[i as int]@.subrange(0, parts@[i as int]@.len() as int) =~= parts@[i as int]@);
            reveal_strlit("*");
            assert("*"@ =~= seq!['*']);
            assert(part@ == trim(pv[i as int]));
        }
        let ghost before = opt_views(units@);
        if i < units.len() && part.len() > 0 && !chars_eq_str(&part, "*") {
            units.set(i, Some(chars_to_string(&part)));
        }
        proof {
            let tk = pv.take(i + 1);
            assert forall|j: int| 0 <= j < u0.len() implies #[trigger] opt_views(units@)[j] == with_units(u0, tk)[j] by {
                assert(with_units(u0, pv.take(i as int))[j] == before[j]);
                if j < i {
                    assert(tk[j] == pv.take(i as int)[j]);
                } else if j == i {
                    assert(tk[j] == pv[j]);
                }
            }
            assert(opt_views(units@) =~= with_units(u0, tk));
        }
        i = i + 1;
    }
    proof {
        assert(pv.take(pv.len() as int) =~= pv);
    }
    match inv_part {
        Some(ip) => {
            let inv = trim_range(&ip, 0, ip.len());
            proof {
                assert(ip@.subrange(0, ip@.len() as int) =~= ip@);
                reveal_strlit("*");
            }
            proof {
                assert("*"@ =~= seq!['*']);
            }
            if inv.len() > 0 && !chars_eq_str(&inv, "*") {
                *inverse_unit = Some(chars_to_string(&inv));
            }
        },
        None => {},
    }
}

/// `units=[...]` at `p`: `None` when no `]` closes it, else the units it
/// gives are filled in and reading goes on after the `]`.
#[verifier::spinoff_prover]
fn read_units_kw(t: &Vec<char>, p: usize, units: &mut Vec<Option<String>>, inverse_unit: &mut Option<String>) -> (r:
    Option<usize>)
    requires
        p + 7 <= t@.len(),
    ensures
        final(units)@.len() == old(units)@.len(),
        match find_char(t@.skip(p + 7), ']') {
            None => r is None && final(units)@ == old(units)@ && *final(inverse_unit) == *old(inverse_unit),
            Some(c) => {
                &&& 0 <= c < t@.len() - (p + 7)
                &&& r == Some((p + 8 + c) as usize)
                &&& (opt_views(final(units)@), opt_view(*final(inverse_unit))) == units_after(
                    opt_views(old(units)@),
                    opt_view(*old(inverse_unit)),
                    t@.subrange(p + 7, p + 7 + c),
                )
            },
        },
{
    let tl = t.len();
    assert(p + 7 <= tl);
    match find_char_from(t, ']', p + 7) {
        None => None,
        Some(close) => {
            let content = slice_vec(t, p + 7, close);
            let ghost c = close - (p + 7);
            proof {
                assert(find_char(t@.skip(p + 7), ']') == Some(c));
                assert(content@ == t@.subrange(p + 7, p + 7 + c));
            }
            apply_units(units, inverse_unit, &content);
            Some(close + 1)
        },
    }
}

/// `domain=` at `p`: the intervals read go into the first entries of
/// `domain`; returns where reading goes on.
fn read_domain_kw(t: &Vec<char>, p: usize, n: usize, domain: &mut Vec<Option<Interval>>) -> (np: usize)
    requires
        p + 7 <= t@.len(),
        old(domain)@.len() == n,
    ensures
        final(domain)@.len() == n,
        np as int == intervals_from(t@, p + 7, n as nat).1,
        intervals_view(final(domain)@) == with_domain(intervals_view(old(domain)@), intervals_from(t@, p + 7, n as nat).0),
        p + 7 <= np <= t@.len(),
{
    let tl = t.len();
    assert(p + 7 <= tl);
    let (intervals, rest) = parse_intervals_multi(t, p + 7, n);
    let ghost ints = intervals@;
    let ghost d0 = domain@;
    let mut slots = intervals;
    let mut i: usize = slots.len();
    proof {
        assert(slots@ =~= ints.take(i as int));
    }
    while i > 0
        invariant
            i == slots@.len(),
            i <= ints.len(),
            slots@ == ints.take(i as int),
            ints.len() <= n,
            domain@.len() == n,
            d0.len() == n,
            forall|j: int| 0 <= j < n ==> #[trigger] domain@[j] == (if i <= j < ints.len() { ints[j] } else { d0[j] }),
        decreases i,
    {
        i = i - 1;
        let ghost before = slots@;
        let item = slots.pop().unwrap();
        proof {
            assert(before.last() == ints[i as int]);
            assert(slots@ =~= ints.take(i as int));
        }
        domain.set(i, item);
    }
    proof {
        assert(intervals_view(domain@) =~= with_domain(intervals_view(d0), intervals_view(ints)));
    }
    rest
}

/// `range=` at `p`: the interval read, if any, and where reading goes on.
fn read_range_kw(t: &Vec<char>, p: usize) -> (r: (Option<Interval>, usize))
    requires
        p + 6 <= t@.len(),
    ensures
        r.1 as int == intervals_from(t@, p + 6, 1).1,
        opt_interval_view(r.0) == (if intervals_from(t@, p + 6, 1).0.len() > 0 {
            intervals_from(t@, p + 6, 1).0[0]
        } else {
            None
        }),
        p + 6 <= r.1 <= t@.len(),
{
    let tl = t.len();
    assert(p + 6 <= tl);
    let (intervals, rest) = parse_intervals_multi(t, p + 6, 1);
    let mut first = intervals;
    let ghost fv = intervals_view(first@);
    let range = if first.len() > 0 {
        first.swap_remove(0)
    } else {
        None
    };
    (range, rest)
}

/// Reads the metadata keywords at the front of a function definition (see
/// [`def_meta`]).
#[verifier::spinoff_prover]
#[verifier::rlimit(60)]
pub fn parse_func_metadata(params_count: usize, def: &Vec<char>) -> (m: FuncMeta)
    ensures
        meta_view(m) == def_meta(params_count as nat, def@).0,
        m.formula@ == trim(def@).skip(def_meta(params_count as nat, def@).1),
{
    let t = trim_range(def, 0, def.len());
    proof {
        assert(def@.subrange(0, def@.len() as int) =~= def@);
    }
    let mut forward_units: Vec<Option<String>> = Vec::new();
    let mut domain: Vec<Option<Interval>> = Vec::new();
    let mut k: usize = 0;
    while k < params_count
        invariant
            k <= params_count,
            forward_units@.len() == k,
            domain@.len() == k,
            forall|j: int| 0 <= j < k ==> forward_units@[j] is None && domain@[j] is None,
        decreases params_count - k,
    {
        forward_units.push(None);
        domain.push(None);
        k = k + 1;
    }
    let ghost n = params_count as nat;
    let mut inverse_unit: Option<String> = None;
    let mut range: Option<Interval> = None;
    let mut noerror = false;
    let mut pos: usize = 0;
    let ghost total = def_meta(n, def@);
    proof {
        assert(opt_views(forward_units@) =~= no_meta(n).units);
        assert(intervals_view(domain@) =~= no_meta(n).domain);
        assert(meta_state(forward_units@, inverse_unit, domain@, range, noerror) == no_meta(n));
        reveal_strlit("noerror");
        reveal_strlit("units=[");
        reveal_strlit("domain=");
        reveal_strlit("range=");
        assert("noerror"@ =~= kw_noerror());
        assert("units=["@ =~= kw_units());
        assert("domain="@ =~= kw_domain());
        assert("range="@ =~= kw_range());
    }
    loop
        invariant_except_break
            meta_from(t@, pos as int, n, meta_state(forward_units@, inverse_unit, domain@, range, noerror)) == total,
        invariant
            pos <= t@.len(),
            t@ == trim(def@),
            forward_units@.len() == n,
            domain@.len() == n,
            "noerror"@ == kw_noerror(),
            "units=["@ == kw_units(),
            "domain="@ == kw_domain(),
            "range="@ == kw_range(),
            n == params_count,
        ensures
            pos <= t@.len(),
            meta_state(forward_units@, inverse_unit, domain@, range, noerror) == total.0,
            pos == total.1,
        decreases t@.len() - pos,
    {
        let ghost m0 = meta_state(forward_units@, inverse_unit, domain@, range, noerror);
        let p = skip_ws(&t, pos);
        proof {
            assert(p as int == after_ws(t@, pos as int));
        }
        if has_prefix_at(&t, p, "noerror") {
            let r = p + 7;
            if r == t.len() || !is_word_char(t[r]) {
                pos = r;
                noerror = true;
                proof {
                    assert(meta_state(forward_units@, inverse_unit, domain@, range, noerror) =~= MetaView { noerror: true, ..m0 });
                }
                continue;
            }
        }
        if has_prefix_at(&t, p, "units=[") {
            match read_units_kw(&t, p, &mut forward_units, &mut inverse_unit) {
                None => {
                    pos = p;
                    break;
                },
                Some(np) => {
                    pos = np;
                    proof {
                        let c = (np - p - 8) as int;
                        let content = t@.subrange(p + 7, p + 7 + c);
                        reveal(units_after);
                        assert(meta_state(forward_units@, inverse_unit, domain@, range, noerror) =~= units_meta(m0, content));
                    }
                    continue;
                },
            }
        }
        if has_prefix_at(&t, p, "domain=") {
            pos = read_domain_kw(&t, p, params_count, &mut domain);
            proof {
                let r = intervals_from(t@, p + 7, n);
                assert(meta_state(forward_units@, inverse_unit, domain@, range, noerror) =~= MetaView { domain: with_domain(m0.domain, r.0), ..m0 });
            }
            continue;
        }
        if has_prefix_at(&t, p, "range=") {
            let (rg, np) = read_range_kw(&t, p);
            range = rg;
            pos = np;
            continue;
        }
        pos = p;
        break;
    }
    let formula = slice_vec(&t, pos, t.len());
    proof {
        assert(formula@ =~= t@.skip(pos as int));
    }
    FuncMeta { forward_units, inverse_unit, domain, range, noerror, formula }
}

/// The formula and inverse formula of a function body: split at the first
/// top-level `;`, each side trimmed.
#[verifier::opaque]
pub open spec fn split_formula(body: Seq<char>) -> (Seq<char>, Option<Seq<char>>) {
    match formula_sep(body) {
        Some(i) => (trim(body.take(i)), Some(trim(body.skip(i + 1)))),
        None => (body, None),
    }
}

/// The view of an optional string.
pub open spec fn opt_view(o: Option<String>) -> Option<Seq<char>> {
    match o {
        Some(s) => Some(s@),
        None => None,
    }
}

/// Splits a function body into its formula and inverse formula (see
/// [`split_formula`]).
fn split_body(body: &Vec<char>) -> (r: (Vec<char>, Option<String>))
    ensures
        (r.0@, opt_view(r.1)) == split_formula(body@),
{
    match find_formula_sep(body) {
        Some(sep) => {
            let fw = trim_range(body, 0, sep);
            assert(sep < body.len());
            let rv = trim_range(body, sep + 1, body.len());
            let rs = chars_to_string(&rv);
            proof {
                reveal(split_formula);
                assert(body@.subrange(0, sep as int) =~= body@.take(sep as int));
                assert(body@.subrange(sep + 1, body@.len() as int) =~= body@.skip(sep + 1));
                let sf = split_formula(body@);
                assert(sf.0 == fw@);
                assert(sf.1 == Some(rs@));
            }
            (fw, Some(rs))
        },
        None => {
            let all = slice_vec(body, 0, body.len());
            proof {
                reveal(split_formula);
                assert(all@ =~= body@);
            }
            (all, None)
        },
    }
}

/// The content of a function definition: its metadata, formula and
/// inverse formula.
pub struct FunctionView {
    /// Units, domains and range of the function.
    pub meta: MetaView,
    /// The formula.
    pub forward: Seq<char>,
    /// The inverse formula, if any.
    pub reverse: Option<Seq<char>>,
}

/// The content of a function definition.
pub open spec fn function_view(f: FunctionDef) -> FunctionView {
    FunctionView {
        meta: MetaView {
            units: opt_views(f.units@),
            inverse_unit: opt_view(f.inverse_unit),
            domain: intervals_view(f.domain@),
            range: opt_interval_view(f.range),
            noerror: f.noerror,
        },
        forward: f.forward@,
        reverse: opt_view(f.reverse),
    }
}

/// The function that the definition text `def` gives a function of `n`
/// parameters: its metadata (see [`def_meta`]), then the formula and
/// inverse formula of the rest (see [`split_formula`]); `None` when the
/// formula is empty.
pub open spec fn function_spec(n: nat, def: Seq<char>) -> Option<FunctionView> {
    let (m, e) = def_meta(n, def);
    let body = trim(trim(def).skip(e));
    if body.len() == 0 {
        None
    } else {
        let (fw, rv) = split_formula(body);
        if fw.len() == 0 {
            None
        } else {
            Some(FunctionView { meta: m, forward: fw, reverse: rv })
        }
    }
}

/// Builds a function definition from its parameter names and definition
/// text (see [`function_spec`]).
#[verifier::spinoff_prover]
pub fn parse_function_def(params: Vec<String>, raw_def: &Vec<char>) -> (r: Option<FunctionDef>)
    ensures
        match function_spec(params@.len() as nat, raw_def@) {
            Some(fv) => r matches Some(f) && f.params == params && function_view(f) == fv,
            None => r is None,
        },
{
    let meta = parse_func_metadata(params.len(), raw_def);
    let body = trim_range(&meta.formula, 0, meta.formula.len());
    proof {
        assert(meta.formula@.subrange(0, meta.formula@.len() as int) =~= meta.formula@);
    }
    if body.len() == 0 {
        return None;
    }
    let (forward, reverse) = split_body(&body);
    if forward.len() == 0 {
        return None;
    }
    let ghost mv = meta_view(meta);
    let FuncMeta { forward_units, inverse_unit, domain, range, noerror, formula } = meta;
    let f = FunctionDef {
        params,
        forward: chars_to_string(&forward),
        reverse,
        units: forward_units,
        domain,
        range,
        inverse_unit,
        noerror,
    };
    proof {
        assert(function_view(f).meta == mv);
    }
    Some(f)
}

/// The database: units, prefixes (longest first), functions and tables.
#[derive(Debug)]
pub struct Database {
    units: NameMap<UnitEntry>,
    prefixes: Vec<(String, String)>,
    functions: NameMap<FunctionDef>,
    tables: NameMap<TableDef>,
}

/// Prefix names are distinct and ordered by non-increasing UTF-8 length.
pub open spec fn prefixes_ordered(p: Seq<(Seq<char>, Seq<char>)>) -> bool {
    &&& forall|i: int, j: int| 0 <= i < j < p.len() ==> #[trigger] p[i].0 != #[trigger] p[j].0
    &&& forall|i: int, j: int|
        0 <= i < j < p.len() ==> utf8_len(#[trigger] p[i].0) >= utf8_len(#[trigger] p[j].0)
}

/// `p` without the entry named `k` (names are distinct).
pub open spec fn without_name(p: Seq<(Seq<char>, Seq<char>)>, k: Seq<char>) -> Seq<
    (Seq<char>, Seq<char>),
> {
    if exists|i: int| 0 <= i < p.len() && p[i].0 == k {
        p.remove(choose|i: int| 0 <= i < p.len() && p[i].0 == k)
    } else {
        p
    }
}

/// `q` is `p` with `(k, d)` put after every entry at least as long as `k`
/// and before every shorter one.
pub open spec fn inserted_by_length(
    p: Seq<(Seq<char>, Seq<char>)>,
    k: Seq<char>,
    d: Seq<char>,
    q: Seq<(Seq<char>, Seq<char>)>,
) -> bool {
    exists|pos: int|
        0 <= pos <= p.len() && q == p.insert(pos, (k, d)) && (forall|i: int|
            0 <= i < pos ==> utf8_len(#[trigger] p[i].0) >= utf8_len(k)) && (forall|i: int|
            pos <= i < p.len() ==> utf8_len(#[trigger] p[i].0) < utf8_len(k))
}

/// Whether prefix `pr` applies to `name`: it is a proper beginning of the
/// name and the rest of the name is a unit.
pub open spec fn prefix_applies(
    pr: Seq<char>,
    name: Seq<char>,
    units: Map<Seq<char>, UnitEntry>,
) -> bool {
    name.len() > pr.len() && starts_with(name, pr) && units.contains_key(name.skip(pr.len() as int))
}

/// The definition of the prefix named `name`.
pub open spec fn prefix_def(p: Seq<(Seq<char>, Seq<char>)>, name: Seq<char>) -> Option<Seq<char>> {
    if exists|i: int| 0 <= i < p.len() && p[i].0 == name {
        Some(p[choose|i: int| 0 <= i < p.len() && p[i].0 == name].1)
    } else {
        None
    }
}

/// The index of the first prefix in `p` that applies to `name`.
pub open spec fn first_prefix(
    p: Seq<(Seq<char>, Seq<char>)>,
    name: Seq<char>,
    units: Map<Seq<char>, UnitEntry>,
) -> Option<int> {
    if exists|i: int| 0 <= i < p.len() && prefix_applies(p[i].0, name, units) {
        Some(
            choose|i: int|
                0 <= i < p.len() && prefix_applies(p[i].0, name, units) && forall|j: int|
                    0 <= j < i ==> !prefix_applies(#[trigger] p[j].0, name, units),
        )
    } else {
        None
    }
}

/// The content of a database: its units, its prefixes in lookup order,
/// its functions and its tables.
pub struct DbView {
    /// Unit name to entry.
    pub units: Map<Seq<char>, UnitEntry>,
    /// `(name, definition)` of each prefix, longest first.
    pub prefixes: Seq<(Seq<char>, Seq<char>)>,
    /// Function name to definition.
    pub functions: Map<Seq<char>, FunctionDef>,
    /// Table name to definition.
    pub tables: Map<Seq<char>, TableDef>,
}

/// The content of an empty database.
pub open spec fn empty_content() -> DbView {
    DbView {
        units: Map::empty(),
        prefixes: Seq::empty(),
        functions: Map::empty(),
        tables: Map::empty(),
    }
}

/// `b` is `a` with unit `name` registered by definition `def` (see
/// [`entry_for`]).
pub open spec fn unit_registered(a: DbView, name: Seq<char>, def: Seq<char>, b: DbView) -> bool {
    &&& exists|e: UnitEntry| entry_for(def, e) && b.units == a.units.insert(name, e)
    &&& b.prefixes == a.prefixes
    &&& b.functions == a.functions
    &&& b.tables == a.tables
}

/// `b` is `a` with prefix `name` (trailing `-` removed) registered by
/// definition `def` (trimmed): an earlier prefix of that name dropped, the
/// new one put after those at least as long.
pub open spec fn prefix_registered(a: DbView, name: Seq<char>, def: Seq<char>, b: DbView) -> bool {
    let k = trim_end_char(name, '-');
    &&& inserted_by_length(without_name(a.prefixes, k), k, trim(def), b.prefixes)
    &&& b.units == a.units
    &&& b.functions == a.functions
    &&& b.tables == a.tables
}

/// `b` is `a` with function `name` registered by definition `def` (see
/// [`function_spec`]) under its base name, with the parameters of the
/// name; a definition without a formula registers nothing.
pub open spec fn function_registered(a: DbView, name: Seq<char>, def: Seq<char>, b: DbView) -> bool {
    &&& match function_spec(function_params(name).len(), def) {
        None => b.functions == a.functions,
        Some(fv) => exists|f: FunctionDef|
            {
                &&& f.params@.len() == function_params(name).len()
                &&& forall|k: int| 0 <= k < f.params@.len() ==> #[trigger] f.params@[k]@ == function_params(name)[k]
                &&& function_view(f) == fv
                &&& b.functions == a.functions.insert(function_base_name(name), f)
            },
    }
    &&& b.units == a.units
    &&& b.prefixes == a.prefixes
    &&& b.tables == a.tables
}

/// `b` is `a` with table `name` (`base[unit]`) registered by definition
/// `def`: its unit is the text between `[` and the first `]`, its words
/// those of `def`.
pub open spec fn table_registered(a: DbView, name: Seq<char>, def: Seq<char>, b: DbView) -> bool {
    &&& match (find_char(name, '['), find_char(name, ']')) {
        (Some(i), Some(j)) => if i < j {
            exists|t: TableDef|
                t.unit@ == name.subrange(i + 1, j) && t.words@.len() == words(def).len() && (forall|k: int|
                    0 <= k < t.words@.len() ==> #[trigger] t.words@[k]@ == words(def)[k])
                    && b.tables == a.tables.insert(name.take(i), t)
        } else {
            b.tables == a.tables
        },
        _ => b.tables == a.tables,
    }
    &&& b.units == a.units
    &&& b.prefixes == a.prefixes
    &&& b.functions == a.functions
}

impl Database {
    /// The map from unit names to their entries.
    pub closed spec fn unit_map(&self) -> Map<Seq<char>, UnitEntry> {
        self.units.map()
    }

    /// The prefixes, as `(name, definition)`, in lookup order.
    pub closed spec fn prefix_list(&self) -> Seq<(Seq<char>, Seq<char>)> {
        self.prefixes@.map_values(|p: (String, String)| (p.0@, p.1@))
    }

    /// The map from function names to their definitions.
    pub closed spec fn function_map(&self) -> Map<Seq<char>, FunctionDef> {
        self.functions.map()
    }

    /// The map from table names to their definitions.
    pub closed spec fn table_map(&self) -> Map<Seq<char>, TableDef> {
        self.tables.map()
    }

    /// The content of the database.
    pub open spec fn content(&self) -> DbView {
        DbView {
            units: self.unit_map(),
            prefixes: self.prefix_list(),
            functions: self.function_map(),
            tables: self.table_map(),
        }
    }

    /// The maps are well formed and the prefixes ordered.
    pub closed spec fn wf(&self) -> bool {
        &&& self.units.wf()
        &&& self.functions.wf()
        &&& self.tables.wf()
        &&& prefixes_ordered(self.prefix_list())
    }

    /// The empty database.
    pub fn new() -> (db: Database)
        ensures
            db.wf(),
            db.unit_map() == Map::<Seq<char>, UnitEntry>::empty(),
            db.prefix_list() == Seq::<(Seq<char>, Seq<char>)>::empty(),
            db.function_map() == Map::<Seq<char>, FunctionDef>::empty(),
            db.table_map() == Map::<Seq<char>, TableDef>::empty(),
            db.content() == empty_content(),
    {
        let db = Database {
            units: NameMap::new(),
            prefixes: Vec::new(),
            functions: NameMap::new(),
            tables: NameMap::new(),
        };
        assert(db.prefix_list() =~= Seq::<(Seq<char>, Seq<char>)>::empty());
        db
    }

    /// Registers unit `name` with definition `def` (see [`entry_for`]).
    pub fn insert_unit(&mut self, name: &String, def: &String)
        requires
            old(self).wf(),
        ensures
            final(self).wf(),
            unit_registered(old(self).content(), name@, def@, final(self).content()),
    {
        let d = to_chars(def.as_str());
        let t = trim_range(&d, 0, d.len());
        proof {
            assert(d@.subrange(0, d@.len() as int) =~= d@);
        }
        let entry = if t.len() > 0 && t[0] == '!' {
            let rest = trim_range(&t, 1, t.len());
            proof {
                assert(t@.subrange(1, t@.len() as int) =~= t@.drop_first());
                reveal_strlit("dimensionless");
            }
            if chars_eq_str(&rest, "dimensionless") {
                UnitEntry::DimensionlessPrimitive
            } else {
                UnitEntry::Primitive
            }
        } else {
            UnitEntry::Derived(from_chars(t.as_slice()))
        };
        proof {
            assert(entry_for(def@, entry));
        }
        self.units.insert(name.clone(), entry);
    }

    /// Registers prefix `name` (trailing `-` removed) with definition `def`
    /// (trimmed), replacing a prefix of the same name; the list stays
    /// ordered longest first, a new prefix going after those of equal length.
    #[verifier::rlimit(50)]
    #[verifier::spinoff_prover]
    pub fn insert_prefix(&mut self, name: &String, def: &String)
        requires
            old(self).wf(),
        ensures
            final(self).wf(),
            prefix_registered(old(self).content(), name@, def@, final(self).content()),
    {
        let n = to_chars(name.as_str());
        let bare = strip_trailing(&n, '-');
        let d = to_chars(def.as_str());
        let dt = trim_range(&d, 0, d.len());
        proof {
            assert(d@.subrange(0, d@.len() as int) =~= d@);
        }
        let bare_s = from_chars(bare.as_slice());
        let ghost p0 = self.prefix_list();
        let ghost k = bare@;
        // drop an earlier prefix of the same name
        let mut i: usize = 0;
        while i < self.prefixes.len() && !(self.prefixes[i].0 == bare_s)
            invariant
                i <= self.prefixes@.len(),
                self.prefix_list() == p0,
                bare_s@ == k,
                self.prefix_list().len() == self.prefixes@.len(),
                forall|j: int| 0 <= j < i ==> #[trigger] self.prefix_list()[j].0 != k,
            decreases self.prefixes@.len() - i,
        {
            proof {
                assert(self.prefix_list()[i as int].0 == self.prefixes@[i as int].0@);
            }
            i = i + 1;
        }
        let ghost p1: Seq<(Seq<char>, Seq<char>)>;
        if i < self.prefixes.len() {
            proof {
                assert(p0[i as int].0 == self.prefixes@[i as int].0@);
                assert(p0[i as int].0 == k);
            }
            self.prefixes.remove(i);
            proof {
                p1 = self.prefix_list();
                assert(p1 =~= p0.remove(i as int));
                assert(exists|j: int| 0 <= j < p0.len() && p0[j].0 == k);
                let c = choose|j: int| 0 <= j < p0.len() && p0[j].0 == k;
                if c != i {
                    if c < i {
                        assert(p0[c].0 != p0[i as int].0);
                    } else {
                        assert(p0[i as int].0 != p0[c].0);
                    }
                }
                assert(p1 == without_name(p0, k));
            }
        } else {
            proof {
                p1 = self.prefix_list();
                assert(p1 == without_name(p0, k));
            }
        }
        proof {
            assert forall|a: int, b: int| 0 <= a < b < p1.len() implies #[trigger] p1[a].0 != #[trigger] p1[b].0
                && utf8_len(p1[a].0) >= utf8_len(p1[b].0) by {
                if i < p0.len() {
                    let a0 = if a < i { a } else { a + 1 };
                    let b0 = if b < i { b } else { b + 1 };
                    assert(p1[a] == p0[a0]);
                    assert(p1[b] == p0[b0]);
                }
            }
            assert forall|a: int| 0 <= a < p1.len() implies #[trigger] p1[a].0 != k by {
                if i < p0.len() {
                    let a0 = if a < i { a } else { a + 1 };
                    assert(p1[a] == p0[a0]);
                    if a0 != i {
                        if a0 < i {
                            assert(p0[a0].0 != p0[i as int].0);
                        } else {
                            assert(p0[i as int].0 != p0[a0].0);
                        }
                    }
                }
            }
        }
        let blen = utf8_length(&bare);
        let mut pos: usize = 0;
        let mut shorter = false;
        while pos < self.prefixes.len() && !shorter
            invariant
                pos <= self.prefixes@.len(),
                self.prefix_list() == p1,
                p1.len() == self.prefixes@.len(),
                blen as int == utf8_len(k),
                shorter ==> pos < p1.len() && utf8_len(p1[pos as int].0) < utf8_len(k),
                forall|j: int| 0 <= j < pos ==> utf8_len(#[trigger] p1[j].0) >= utf8_len(k),
            decreases self.prefixes@.len() - pos, (if shorter { 0int } else { 1int }),
        {
            let pc = to_chars(self.prefixes[pos].0.as_str());
            let plen = utf8_length(&pc);
            proof {
                assert(p1[pos as int].0 == pc@);
            }
            if plen < blen {
                shorter = true;
            } else {
                pos = pos + 1;
            }
        }
        let dt_s = from_chars(dt.as_slice());
        self.prefixes.insert(pos, (bare_s, dt_s));
        proof {
            let q = self.prefix_list();
            assert(q =~= p1.insert(pos as int, (k, trim(def@))));
            assert forall|j: int| pos <= j < p1.len() implies utf8_len(#[trigger] p1[j].0) < utf8_len(k) by {
                if pos < p1.len() {
                    if j > pos {
                        assert(utf8_len(p1[pos as int].0) >= utf8_len(p1[j].0));
                    }
                }
            }
            assert forall|a: int, b: int| 0 <= a < b < q.len() implies #[trigger] q[a].0 != #[trigger] q[b].0 by {
                if a < pos && b < pos {
                    assert(q[a] == p1[a] && q[b] == p1[b]);
                } else if a < pos && b == pos {
                    assert(q[a] == p1[a]);
                } else if a < pos {
                    assert(q[a] == p1[a] && q[b] == p1[b - 1]);
                } else if a == pos {
                    assert(q[b] == p1[b - 1]);
                } else {
                    assert(q[a] == p1[a - 1] && q[b] == p1[b - 1]);
                }
            }
            assert forall|a: int, b: int| 0 <= a < b < q.len() implies utf8_len(#[trigger] q[a].0) >= utf8_len(#[trigger] q[b].0) by {
                if a < pos && b < pos {
                    assert(q[a] == p1[a] && q[b] == p1[b]);
                } else if a < pos && b == pos {
                    assert(q[a] == p1[a]);
                } else if a < pos {
                    assert(q[a] == p1[a] && q[b] == p1[b - 1]);
                } else if a == pos {
                    assert(q[b] == p1[b - 1]);
                } else {
                    assert(q[a] == p1[a - 1] && q[b] == p1[b - 1]);
                }
            }
        }
    }

    /// The definition of the prefix named exactly `name`, if any.
    pub fn find_prefix_by_name(&self, name: &String) -> (r: Option<String>)
        requires
            self.wf(),
        ensures
            match r {
                Some(d) => exists|i: int|
                    0 <= i < self.prefix_list().len() && #[trigger] self.prefix_list()[i].0 == name@
                        && self.prefix_list()[i].1 == d@,
                None => forall|i: int|
                    0 <= i < self.prefix_list().len() ==> #[trigger] self.prefix_list()[i].0 != name@,
            },
            match r {
                Some(d) => prefix_def(self.prefix_list(), name@) == Some(d@),
                None => prefix_def(self.prefix_list(), name@) is None,
            },
    {
        let mut i: usize = 0;
        while i < self.prefixes.len()
            invariant
                i <= self.prefixes@.len(),
                self.wf(),
                self.prefix_list().len() == self.prefixes@.len(),
                forall|j: int| 0 <= j < i ==> #[trigger] self.prefix_list()[j].0 != name@,
            decreases self.prefixes@.len() - i,
        {
            if self.prefixes[i].0 == *name {
                proof {
                    let p = self.prefix_list();
                    assert(p[i as int].0 == name@);
                    let c = choose|c: int| 0 <= c < p.len() && p[c].0 == name@;
                    if c != i {
                        if c < i {
                            assert(p[c].0 != p[i as int].0);
                        } else {
                            assert(p[i as int].0 != p[c].0);
                        }
                    }
                }
                return Some(self.prefixes[i].1.clone());
            }
            i = i + 1;
        }
        None
    }

    /// The first prefix, in lookup order, that [applies](prefix_applies) to
    /// `name`: its definition and the rest of the name.
    pub fn find_with_prefix(&self, name: &String) -> (r: Option<(String, String)>)
        requires
            self.wf(),
        ensures
            match r {
                Some((d, rest)) => exists|i: int|
                    0 <= i < self.prefix_list().len() && prefix_applies(
                        #[trigger] self.prefix_list()[i].0,
                        name@,
                        self.unit_map(),
                    ) && (forall|j: int|
                        0 <= j < i ==> !prefix_applies(
                            #[trigger] self.prefix_list()[j].0,
                            name@,
                            self.unit_map(),
                        )) && d@ == self.prefix_list()[i].1 && rest@ == name@.skip(
                        self.prefix_list()[i].0.len() as int,
                    ),
                None => forall|i: int|
                    0 <= i < self.prefix_list().len() ==> !prefix_applies(
                        #[trigger] self.prefix_list()[i].0,
                        name@,
                        self.unit_map(),
                    ),
            },
            match r {
                Some((d, rest)) => match first_prefix(self.prefix_list(), name@, self.unit_map()) {
                    Some(i) => 0 <= i < self.prefix_list().len() && d@ == self.prefix_list()[i].1 && rest@
                        == name@.skip(self.prefix_list()[i].0.len() as int) && prefix_applies(
                        self.prefix_list()[i].0,
                        name@,
                        self.unit_map(),
                    ),
                    None => false,
                },
                None => first_prefix(self.prefix_list(), name@, self.unit_map()) is None,
            },
    {
        let n = to_chars(name.as_str());
        let mut i: usize = 0;
        while i < self.prefixes.len()
            invariant
                i <= self.prefixes@.len(),
                n@ == name@,
                self.wf(),
                self.prefix_list().len() == self.prefixes@.len(),
                forall|j: int|
                    0 <= j < i ==> !prefix_applies(
                        #[trigger] self.prefix_list()[j].0,
                        name@,
                        self.unit_map(),
                    ),
            decreases self.prefixes@.len() - i,
        {
            let pc = to_chars(self.prefixes[i].0.as_str());
            proof {
                assert(self.prefix_list()[i as int].0 == pc@);
            }
            if n.len() > pc.len() && has_prefix(&n, &pc) {
                let rest_v = slice_vec(&n, pc.len(), n.len());
                let rest = from_chars(rest_v.as_slice());
                proof {
                    assert(rest@ =~= name@.skip(pc@.len() as int));
                }
                if self.units.contains(&rest) {
                    proof {
                        let p = self.prefix_list();
                        assert(prefix_applies(p[i as int].0, name@, self.unit_map()));
                        let c = choose|c: int|
                            0 <= c < p.len() && prefix_applies(p[c].0, name@, self.unit_map()) && forall|j: int|
                                0 <= j < c ==> !prefix_applies(#[trigger] p[j].0, name@, self.unit_map());
                        if c < i {
                            assert(!prefix_applies(p[c].0, name@, self.unit_map()));
                        }
                        if c > i {
                            assert(!prefix_applies(p[i as int].0, name@, self.unit_map()));
                        }
                    }
                    return Some((self.prefixes[i].1.clone(), rest));
                }
            }
            i = i + 1;
        }
        None
    }

    /// Registers function `name` (e.g. `tempC(x)`) under its base name, with
    /// the parameters of [`function_params`]; a definition without a formula
    /// registers nothing.
    pub fn insert_function(&mut self, name: &String, def: &String)
        requires
            old(self).wf(),
        ensures
            final(self).wf(),
            function_registered(old(self).content(), name@, def@, final(self).content()),
    {
        let n = to_chars(name.as_str());
        let d = to_chars(def.as_str());
        let params = parse_params(&n);
        let bare = match find_char_from(&n, '(', 0) {
            Some(i) => slice_vec(&n, 0, i),
            None => slice_vec(&n, 0, n.len()),
        };
        proof {
            assert(n@.skip(0) =~= n@);
            assert(n@.subrange(0, n@.len() as int) =~= n@);
            assert(bare@ == function_base_name(name@));
        }
        match parse_function_def(params, &d) {
            Some(f) => {
                self.functions.insert(chars_to_string(&bare), f);
            },
            None => {},
        }
    }

    /// Registers table `name` (e.g. `gasmark[degR]`): stored under the name
    /// before `[`, with the unit between `[` and the first `]`, and the words
    /// of `def`.  A name whose first `]` comes before its first `[` registers
    /// nothing.
    pub fn insert_table(&mut self, name: &String, def: &String)
        requires
            old(self).wf(),
        ensures
            final(self).wf(),
            table_registered(old(self).content(), name@, def@, final(self).content()),
    {
        let n = to_chars(name.as_str());
        proof {
            assert(n@.skip(0) =~= n@);
        }
        let a = match find_char_from(&n, '[', 0) {
            Some(a) => a,
            None => {
                return;
            },
        };
        let b = match find_char_from(&n, ']', 0) {
            Some(b) => b,
            None => {
                return;
            },
        };
        if b <= a {
            return;
        }
        let bare = slice_vec(&n, 0, a);
        let unit = slice_vec(&n, a + 1, b);
        let d = to_chars(def.as_str());
        let ws = split_words(&d);
        let mut words_s: Vec<String> = Vec::new();
        let mut i: usize = 0;
        while i < ws.len()
            invariant
                i <= ws@.len(),
                words_s@.len() == i,
                forall|k: int| 0 <= k < i ==> #[trigger] words_s@[k]@ == ws@[k]@,
            decreases ws@.len() - i,
        {
            words_s.push(chars_to_string(&ws[i]));
            i = i + 1;
        }
        let t = TableDef { unit: chars_to_string(&unit), words: words_s };
        let ghost tv = t;
        proof {
            assert(bare@ =~= name@.take(a as int));
            assert(n@ == name@);
        }
        self.tables.insert(chars_to_string(&bare), t);
        proof {
            assert(tv.unit@ == name@.subrange(a + 1, b as int));
            assert(tv.words@.len() == words(def@).len());
            assert(forall|k: int| 0 <= k < tv.words@.len() ==> #[trigger] tv.words@[k]@ == words(def@)[k]);
            assert(self.table_map() == old(self).table_map().insert(name@.take(a as int), tv));
            assert(find_char(name@, '[') == Some(a as int));
            assert(find_char(name@, ']') == Some(b as int));
            let ac = old(self).content();
            let fc = self.content();
            assert(fc.tables == ac.tables.insert(name@.take(a as int), tv));
        }
    }

    /// The entry of unit `name`, if any.
    pub fn unit(&self, name: &String) -> (r: Option<&UnitEntry>)
        requires
            self.wf(),
        ensures
            match r {
                Some(e) => self.unit_map().contains_key(name@) && *e == self.unit_map()[name@],
                None => !self.unit_map().contains_key(name@),
            },
    {
        self.units.get(name)
    }

    /// The definition of function `name`, if any.
    pub fn function(&self, name: &String) -> (r: Option<&FunctionDef>)
        requires
            self.wf(),
        ensures
            match r {
                Some(f) => self.function_map().contains_key(name@) && *f == self.function_map()[name@],
                None => !self.function_map().contains_key(name@),
            },
    {
        self.functions.get(name)
    }

    /// The definition of table `name`, if any.
    pub fn table(&self, name: &String) -> (r: Option<&TableDef>)
        requires
            self.wf(),
        ensures
            match r {
                Some(t) => self.table_map().contains_key(name@) && *t == self.table_map()[name@],
                None => !self.table_map().contains_key(name@),
            },
    {
        self.tables.get(name)
    }
}

} // verus!
