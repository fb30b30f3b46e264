//! Definition entries of the units database and the reading of definition
//! files.
use vstd::prelude::*;
use vstd::std_specs::cmp::PartialEqSpecImpl;

use crate::database::{
    function_registered, prefix_registered, split_words, table_registered, unit_registered, words, Database, DbView,
};
use crate::dims::{chars_less, chars_lt, lemma_chars_lt_irreflexive, lemma_chars_lt_total, lemma_chars_lt_transitive};
use crate::text::{
    chars_eq_str, find_char, find_char_from, from_chars, replace_operators, replaced_operators, skip_ws,
    slice_vec, split2, split_first_word, strip_comment, strip_comment_chars, strip_trailing, to_chars, trim,
    trim_end_char, trim_range, trim_start,
};

verus! {

/// The kind of a definition entry.
#[derive(Debug, Clone, Copy, PartialEq, Eq, Structural)]
pub enum DefinitionKind {
    /// A plain unit (e.g. `meter`, `second`).
    Unit,
    /// A unit prefix (e.g. `kilo-`, `mega-`).
    Prefix,
    /// A conversion function (e.g. `tempC(x)`).
    Function,
    /// A piecewise unit table (e.g. `dBV[...]`).
    Table,
    /// A unit list alias (defined via `!unitlist`).
    Alias,
}

/// The position of a kind in the order `Unit < Prefix < Function < Table <
/// Alias`.
pub open spec fn kind_rank(k: DefinitionKind) -> int {
    match k {
        DefinitionKind::Unit => 0,
        DefinitionKind::Prefix => 1,
        DefinitionKind::Function => 2,
        DefinitionKind::Table => 3,
        DefinitionKind::Alias => 4,
    }
}

/// The kind that a name gives a definition: a trailing `-` makes a prefix,
/// a `[` a table, a `(` a function; anything else is a unit.
pub open spec fn kind_of_name(name: Seq<char>) -> DefinitionKind {
    if name.len() > 0 && name.last() == '-' {
        DefinitionKind::Prefix
    } else if find_char(name, '[') is Some {
        DefinitionKind::Table
    } else if find_char(name, '(') is Some {
        DefinitionKind::Function
    } else {
        DefinitionKind::Unit
    }
}

impl DefinitionKind {
    /// The kind of a definition named `name` (see [`kind_of_name`]).
    pub fn from_name(name: &str) -> (k: DefinitionKind)
        ensures
            k == kind_of_name(name@),
    {
        let n = to_chars(name);
        proof {
            assert(n@.skip(0) =~= n@);
        }
        if n.len() > 0 && n[n.len() - 1] == '-' {
            DefinitionKind::Prefix
        } else if find_char_from(&n, '[', 0).is_some() {
            DefinitionKind::Table
        } else if find_char_from(&n, '(', 0).is_some() {
            DefinitionKind::Function
        } else {
            DefinitionKind::Unit
        }
    }

    /// The position of the kind in the order `Unit < Prefix < Function <
    /// Table < Alias`.
    pub fn rank(&self) -> (r: u8)
        ensures
            r as int == kind_rank(*self),
    {
        match self {
            DefinitionKind::Unit => 0,
            DefinitionKind::Prefix => 1,
            DefinitionKind::Function => 2,
            DefinitionKind::Table => 3,
            DefinitionKind::Alias => 4,
        }
    }
}

/// A single entry of the units database.
#[derive(Debug, Clone)]
pub struct Definition {
    /// The name of the unit, prefix, function, table, or alias.
    pub name: String,
    /// The definition string for this entry.
    pub definition: String,
    /// What kind of definition this is.
    pub kind: DefinitionKind,
}

/// The lookup name of a definition name: up to the first `(` for a
/// function, up to the first `[` for a table, without trailing `-` for a
/// prefix, the name itself otherwise.
pub open spec fn canonical(name: Seq<char>) -> Seq<char> {
    match find_char(name, '(') {
        Some(i) => name.take(i),
        None => match find_char(name, '[') {
            Some(i) => name.take(i),
            None => trim_end_char(name, '-'),
        },
    }
}

impl Definition {
    /// Returns the canonical lookup name used for deduplication (see
    /// [`canonical`]): `kilo-` gives `kilo`, `tempC(x)` gives `tempC`,
    /// `gasmark[degR]` gives `gasmark`.
    pub fn canonical_name(&self) -> (s: String)
        ensures
            s@ == canonical(self.name@),
    {
        let n = to_chars(self.name.as_str());
        proof {
            assert(n@.skip(0) =~= n@);
        }
        match find_char_from(&n, '(', 0) {
            Some(i) => from_chars(slice_vec(&n, 0, i).as_slice()),
            None => match find_char_from(&n, '[', 0) {
                Some(i) => from_chars(slice_vec(&n, 0, i).as_slice()),
                None => from_chars(strip_trailing(&n, '-').as_slice()),
            },
        }
    }
}

impl PartialEq for Definition {
    /// Definitions are equal when their canonical names and kinds are (see
    /// [`canonical`]): the two spellings of one definition.
    fn eq(&self, other: &Self) -> (r: bool) {
        let a = self.canonical_name();
        let b = other.canonical_name();
        a == b && self.kind == other.kind
    }
}

impl Eq for Definition {
}

impl PartialEqSpecImpl for Definition {
    open spec fn obeys_eq_spec() -> bool {
        true
    }

    open spec fn eq_spec(&self, other: &Definition) -> bool {
        canonical(self.name@) == canonical(other.name@) && self.kind == other.kind
    }
}

/// `s` without its leading byte-order marks.
pub open spec fn strip_bom(s: Seq<char>) -> Seq<char>
    decreases s.len(),
{
    if s.len() > 0 && s[0] == '\u{FEFF}' {
        strip_bom(s.drop_first())
    } else {
        s
    }
}

/// The lines of `s` (as `str::lines`): split at `\n`, a `\r` before the
/// `\n` removed, no empty line after a final `\n`.
#[verifier::opaque]
pub open spec fn text_lines(s: Seq<char>) -> Seq<Seq<char>>
    decreases s.len(),
{
    if s.len() == 0 {
        Seq::empty()
    } else {
        match find_char(s, '\n') {
            Some(i) => if 0 <= i < s.len() {
                let l = s.take(i);
                let l2 = if l.len() > 0 && l.last() == '\r' {
                    l.drop_last()
                } else {
                    l
                };
                seq![l2] + text_lines(s.skip(i + 1))
            } else {
                Seq::empty()
            },
            None => seq![s],
        }
    }
}

/// Appends following lines to `buf` while it ends with `\`: the `\` is
/// dropped and the next line added without its leading whitespace.
/// Returns the joined line and the index of the next unread line.
pub open spec fn absorb(ls: Seq<Seq<char>>, buf: Seq<char>, j: int) -> (Seq<char>, int)
    decreases ls.len() - j,
{
    if buf.len() > 0 && buf.last() == '\\' && 0 <= j < ls.len() {
        absorb(ls, buf.drop_last() + trim_start(ls[j]), j + 1)
    } else {
        (buf, j)
    }
}

/// The logical lines from line index `i` on, with their 1-based numbers.
pub open spec fn join_from(ls: Seq<Seq<char>>, i: int) -> Seq<(int, Seq<char>)>
    decreases ls.len() - i,
{
    if i < 0 || i >= ls.len() {
        Seq::empty()
    } else {
        let first = if i == 0 {
            strip_bom(ls[0])
        } else {
            ls[i]
        };
        let (buf, j) = absorb(ls, first, i + 1);
        if i < j <= ls.len() {
            seq![(i + 1, buf)] + join_from(ls, j)
        } else {
            Seq::empty()
        }
    }
}

/// The logical lines of a definitions file: a byte-order mark at the start
/// removed, lines ending in `\` continued on the next line.
pub open spec fn logical_lines(content: Seq<char>) -> Seq<(int, Seq<char>)> {
    join_from(text_lines(content), 0)
}

proof fn lemma_absorb(ls: Seq<Seq<char>>, buf: Seq<char>, j: int)
    requires
        0 <= j,
    ensures
        absorb(ls, buf, j).1 >= j,
        j <= ls.len() ==> absorb(ls, buf, j).1 <= ls.len(),
    decreases ls.len() - j,
{
    if buf.len() > 0 && buf.last() == '\\' && 0 <= j < ls.len() {
        lemma_absorb(ls, buf.drop_last() + trim_start(ls[j]), j + 1);
    }
}

proof fn lemma_lines_found(s: Seq<char>, i: int, j: int, l: Seq<char>)
    requires
        0 <= i <= j < s.len(),
        find_char(s.skip(i), '\n') == Some(j - i),
        l == (if s.subrange(i, j).len() > 0 && s.subrange(i, j).last() == '\r' {
            s.subrange(i, j).drop_last()
        } else {
            s.subrange(i, j)
        }),
    ensures
        text_lines(s.skip(i)) == seq![l] + text_lines(s.skip(j + 1)),
{
    reveal(text_lines);
    let t = s.skip(i);
    assert(t.take(j - i) =~= s.subrange(i, j));
    assert(t.skip(j - i + 1) =~= s.skip(j + 1));
}

proof fn lemma_lines_empty(e: Seq<char>)
    requires
        e.len() == 0,
    ensures
        text_lines(e) == Seq::<Seq<char>>::empty(),
{
    reveal(text_lines);
}

proof fn lemma_lines_last(s: Seq<char>, i: int)
    requires
        0 <= i < s.len(),
        find_char(s.skip(i), '\n') is None,
    ensures
        text_lines(s.skip(i)) == seq![s.skip(i)],
{
    reveal(text_lines);
}

pub fn split_lines(s: &Vec<char>) -> (r: Vec<Vec<char>>)
    ensures
        r@.len() == text_lines(s@).len(),
        forall|k: int| 0 <= k < r@.len() ==> #[trigger] r@[k]@ == text_lines(s@)[k],
{
    let mut out: Vec<Vec<char>> = Vec::new();
    let ghost mut done: Seq<Seq<char>> = Seq::empty();
    let mut i: usize = 0;
    proof {
        assert(s@.skip(0) =~= s@);
        assert(done + text_lines(s@) =~= text_lines(s@));
    }
    while i < s.len()
        invariant
            i <= s@.len(),
            out@.len() == done.len(),
            forall|k: int| 0 <= k < out@.len() ==> #[trigger] out@[k]@ == done[k],
            text_lines(s@) == done + text_lines(s@.skip(i as int)),
        decreases s@.len() - i,
    {
        let ghost t = s@.skip(i as int);
        match find_char_from(s, '\n', i) {
            Some(j) => {
                let mut l = slice_vec(s, i, j);
                if l.len() > 0 && l[l.len() - 1] == '\r' {
                    l.pop();
                }
                proof {
                    lemma_lines_found(s@, i as int, j as int, l@);
                    let old_done = done;
                    done = done.push(l@);
                    assert(old_done + (seq![l@] + text_lines(s@.skip(j + 1))) =~= done + text_lines(s@.skip(j + 1)));
                }
                out.push(l);
                assert(j < s.len());
                i = j + 1;
            },
            None => {
                let l = slice_vec(s, i, s.len());
                proof {
                    lemma_lines_last(s@, i as int);
                    assert(t =~= l@);
                    let old_done = done;
                    done = done.push(l@);
                    assert(old_done + seq![l@] =~= done);
                    assert(s@.skip(s@.len() as int) =~= Seq::<char>::empty());
                    lemma_lines_empty(s@.skip(s@.len() as int));
                    assert(done + text_lines(s@.skip(s@.len() as int)) =~= done);
                }
                out.push(l);
                i = s.len();
            },
        }
    }
    proof {
        reveal(text_lines);
        assert(s@.skip(i as int) =~= Seq::<char>::empty());
        assert(done + Seq::<Seq<char>>::empty() =~= done);
    }
    out
}

/// Joins continuation lines (see [`logical_lines`]): each logical line with
/// the 1-based number of its first physical line.
pub fn join_continuations(content: &str) -> (r: Vec<(usize, String)>)
    ensures
        r@.len() == logical_lines(content@).len(),
        forall|k: int|
            0 <= k < r@.len() ==> #[trigger] r@[k].0 as int == logical_lines(content@)[k].0
                && r@[k].1@ == logical_lines(content@)[k].1,
{
    let s = to_chars(content);
    let ls = split_lines(&s);
    let ghost lv = text_lines(s@);
    proof {
        assert(ls@.map_values(|v: Vec<char>| v@) =~= lv);
    }
    let mut out: Vec<(usize, String)> = Vec::new();
    let ghost mut done: Seq<(int, Seq<char>)> = Seq::empty();
    let mut i: usize = 0;
    proof {
        assert(done + join_from(lv, 0) =~= join_from(lv, 0));
    }
    while i < ls.len()
        invariant
            i <= ls@.len(),
            lv == text_lines(s@),
            s@ == content@,
            ls@.len() == lv.len(),
            forall|k: int| 0 <= k < ls@.len() ==> #[trigger] ls@[k]@ == lv[k],
            out@.len() == done.len(),
            forall|k: int| 0 <= k < out@.len() ==> #[trigger] out@[k].0 as int == done[k].0 && out@[k].1@ == done[k].1,
            join_from(lv, 0) == done + join_from(lv, i as int),
        decreases ls@.len() - i,
    {
        let mut buf: Vec<char> = if i == 0 {
            let l = &ls[0];
            let mut k: usize = 0;
            proof {
                assert(l@.skip(0) =~= l@);
            }
            while k < l.len() && l[k] == '\u{FEFF}'
                invariant
                    k <= l@.len(),
                    strip_bom(l@) == strip_bom(l@.skip(k as int)),
                decreases l@.len() - k,
            {
                proof {
                    assert(l@.skip(k as int).drop_first() =~= l@.skip(k + 1));
                }
                k = k + 1;
            }
            proof {
                assert(l@.skip(0) =~= l@);
                assert(l@.subrange(k as int, l@.len() as int) =~= l@.skip(k as int));
            }
            slice_vec(l, k, l.len())
        } else {
            slice_vec(&ls[i], 0, ls[i].len())
        };
        proof {
            assert(ls@[i as int]@.subrange(0, ls@[i as int]@.len() as int) =~= ls@[i as int]@);
        }
        let ghost first = buf@;
        let mut j = i + 1;
        proof {
            lemma_absorb(lv, first, i + 1);
        }
        while buf.len() > 0 && buf[buf.len() - 1] == '\\' && j < ls.len()
            invariant
                i < j <= ls@.len(),
                ls@.len() == lv.len(),
                forall|k: int| 0 <= k < ls@.len() ==> #[trigger] ls@[k]@ == lv[k],
                absorb(lv, first, i + 1) == absorb(lv, buf@, j as int),
            decreases ls@.len() - j,
        {
            let ghost b0 = buf@;
            buf.pop();
            let next = &ls[j];
            let p = skip_ws(next, 0);
            let mut q = p;
            while q < next.len()
                invariant
                    p <= q <= next@.len(),
                    buf@ == b0.drop_last() + next@.subrange(p as int, q as int),
                decreases next@.len() - q,
            {
                buf.push(next[q]);
                proof {
                    assert(next@.subrange(p as int, q + 1) =~= next@.subrange(p as int, q as int).push(next@[q as int]));
                }
                q = q + 1;
            }
            proof {
                assert(next@.skip(0) =~= next@);
                assert(next@.subrange(p as int, next@.len() as int) =~= trim_start(lv[j as int]));
            }
            j = j + 1;
        }
        proof {
            lemma_absorb(lv, first, i + 1);
            let old_done = done;
            done = done.push(((i + 1) as int, buf@));
            assert(join_from(lv, i as int) =~= seq![((i + 1) as int, buf@)] + join_from(lv, j as int));
            assert(old_done + (seq![((i + 1) as int, buf@)] + join_from(lv, j as int)) =~= done + join_from(lv, j as int));
        }
        out.push((i + 1, from_chars(buf.as_slice())));
        i = j;
    }
    proof {
        assert(join_from(lv, i as int) =~= Seq::<(int, Seq<char>)>::empty());
        assert(done + Seq::<(int, Seq<char>)>::empty() =~= done);
    }
    out
}

} // verus!

verus! {

/// The conditions in force while reading a definitions file.
#[derive(Debug, Clone, Copy, PartialEq, Eq, Structural)]
pub struct LoadState {
    /// Inside a `!locale` block for another locale.
    pub wrong_locale: bool,
    /// Inside a `!utf8` block.
    pub in_utf8: bool,
    /// Inside a `!var`/`!varnot` block whose condition fails.
    pub wrong_var: bool,
}

/// What one line of a definitions file asks for.
#[derive(Debug)]
pub enum LineAction {
    /// Nothing.
    Skip,
    /// Set a variable (`!set name value`).
    SetVar(String, String),
    /// A unit list alias (`!unitlist name definition`).
    Alias(String, String),
    /// Read another definitions file (`!include file`).
    Include(String),
    /// A definition: `name definition`.
    Define(String, String),
}

/// The mathematical content of a [`LineAction`].
pub enum ActionView {
    /// Nothing.
    Skip,
    /// Set a variable.
    SetVar(Seq<char>, Seq<char>),
    /// A unit list alias.
    Alias(Seq<char>, Seq<char>),
    /// Read another file.
    Include(Seq<char>),
    /// A definition.
    Define(Seq<char>, Seq<char>),
}

/// The view of an action.
pub open spec fn action_view(a: LineAction) -> ActionView {
    match a {
        LineAction::Skip => ActionView::Skip,
        LineAction::SetVar(n, v) => ActionView::SetVar(n@, v@),
        LineAction::Alias(n, d) => ActionView::Alias(n@, d@),
        LineAction::Include(f) => ActionView::Include(f@),
        LineAction::Define(n, d) => ActionView::Define(n@, d@),
    }
}

/// The value of a variable: set in the file first, else in the outside
/// environment.
pub open spec fn lookup_var(
    set: Seq<(Seq<char>, Seq<char>)>,
    outside: Seq<(Seq<char>, Seq<char>)>,
    name: Seq<char>,
) -> Option<Seq<char>> {
    if exists|i: int| 0 <= i < set.len() && set[i].0 == name {
        Some(set[choose|i: int| 0 <= i < set.len() && set[i].0 == name && forall|j: int| 0 <= j < i ==> #[trigger] set[j].0 != name].1)
    } else if exists|i: int| 0 <= i < outside.len() && outside[i].0 == name {
        Some(outside[choose|i: int| 0 <= i < outside.len() && outside[i].0 == name && forall|j: int| 0 <= j < i ==> #[trigger] outside[j].0 != name].1)
    } else {
        None
    }
}

/// The state and action for one logical line of a definitions file: the
/// line is read without its comment and surrounding blanks.
pub open spec fn step(
    st: LoadState,
    set: Seq<(Seq<char>, Seq<char>)>,
    outside: Seq<(Seq<char>, Seq<char>)>,
    line: Seq<char>,
) -> (LoadState, ActionView) {
    step_on(st, set, outside, trim(strip_comment(line)))
}

/// The state and action for the text `l` of a line, without its comment
/// and surrounding blanks.
#[verifier::opaque]
pub open spec fn step_on(
    st: LoadState,
    set: Seq<(Seq<char>, Seq<char>)>,
    outside: Seq<(Seq<char>, Seq<char>)>,
    l: Seq<char>,
) -> (LoadState, ActionView) {
    let off = st.wrong_locale || st.wrong_var;
    if l.len() > 0 && l[0] == '!' {
        let (d, arg) = split2(trim(l.drop_first()));
        if d == "locale"@ {
            (LoadState { wrong_locale: arg != "en_US"@, ..st }, ActionView::Skip)
        } else if d == "endlocale"@ {
            (LoadState { wrong_locale: false, ..st }, ActionView::Skip)
        } else if d == "utf8"@ {
            (LoadState { in_utf8: true, ..st }, ActionView::Skip)
        } else if d == "endutf8"@ {
            (LoadState { in_utf8: false, ..st }, ActionView::Skip)
        } else if d == "var"@ || d == "varnot"@ {
            let (vn, vals) = split2(arg);
            let wrong = match lookup_var(set, outside, vn) {
                Some(v) => if d == "var"@ {
                    !words(vals).contains(v)
                } else {
                    words(vals).contains(v)
                },
                None => true,
            };
            (LoadState { wrong_var: wrong, ..st }, ActionView::Skip)
        } else if d == "endvar"@ {
            (LoadState { wrong_var: false, ..st }, ActionView::Skip)
        } else if d == "set"@ {
            let (vn, val) = split2(arg);
            if !off && lookup_var(set, outside, vn) is None {
                (st, ActionView::SetVar(vn, val))
            } else {
                (st, ActionView::Skip)
            }
        } else if d == "unitlist"@ {
            let (n, def) = split2(arg);
            if !off && n.len() > 0 {
                (st, ActionView::Alias(n, def))
            } else {
                (st, ActionView::Skip)
            }
        } else if d == "include"@ {
            if !off {
                (st, ActionView::Include(arg))
            } else {
                (st, ActionView::Skip)
            }
        } else {
            (st, ActionView::Skip)
        }
    } else if off {
        (st, ActionView::Skip)
    } else {
        let norm = trim(replaced_operators(l));
        let (raw, def) = split2(norm);
        let name = if raw.len() > 0 && raw[0] == '+' {
            raw.drop_first()
        } else {
            raw
        };
        if norm.len() == 0 || raw == "-"@ || def.len() == 0 || name.len() == 0 {
            (st, ActionView::Skip)
        } else {
            (st, ActionView::Define(name, def))
        }
    }
}

/// Everything from the first `#` of a line on is a comment: reading the
/// line `l # text` does exactly what reading `l` does.
pub proof fn lemma_comment_ignored(
    st: LoadState,
    set: Seq<(Seq<char>, Seq<char>)>,
    outside: Seq<(Seq<char>, Seq<char>)>,
    l: Seq<char>,
    text: Seq<char>,
)
    requires
        forall|i: int| 0 <= i < l.len() ==> #[trigger] l[i] != '#',
    ensures
        step(st, set, outside, l + seq!['#'] + text) == step(st, set, outside, l),
{
    crate::text::lemma_comment_cut(l, text);
}

/// The view of a list of variable bindings.
pub open spec fn vars_view(v: Seq<(String, String)>) -> Seq<(Seq<char>, Seq<char>)> {
    v.map_values(|p: (String, String)| (p.0@, p.1@))
}

fn find_var(v: &Vec<(String, String)>, name: &Vec<char>) -> (r: Option<String>)
    ensures
        match r {
            Some(x) => exists|i: int| 0 <= i < v@.len() && vars_view(v@)[i].0 == name@ && (forall|j: int| 0 <= j < i ==> #[trigger] vars_view(v@)[j].0 != name@) && x@ == vars_view(v@)[i].1,
            None => forall|i: int| 0 <= i < v@.len() ==> #[trigger] vars_view(v@)[i].0 != name@,
        },
{
    let ns = from_chars(name.as_slice());
    let mut i: usize = 0;
    while i < v.len()
        invariant
            i <= v@.len(),
            ns@ == name@,
            forall|j: int| 0 <= j < i ==> #[trigger] vars_view(v@)[j].0 != name@,
        decreases v@.len() - i,
    {
        proof {
            assert(vars_view(v@)[i as int] == (v@[i as int].0@, v@[i as int].1@));
        }
        if v[i].0 == ns {
            return Some(v[i].1.clone());
        }
        i = i + 1;
    }
    None
}

fn lookup(set: &Vec<(String, String)>, outside: &Vec<(String, String)>, name: &Vec<char>) -> (r: Option<String>)
    ensures
        opt_chars(r) == lookup_var(vars_view(set@), vars_view(outside@), name@),
{
    let ghost sv = vars_view(set@);
    let ghost ov = vars_view(outside@);
    match find_var(set, name) {
        Some(x) => {
            proof {
                let i = choose|i: int| 0 <= i < set@.len() && sv[i].0 == name@ && (forall|j: int| 0 <= j < i ==> #[trigger] sv[j].0 != name@) && x@ == sv[i].1;
                let c = choose|c: int| 0 <= c < sv.len() && sv[c].0 == name@ && forall|j: int| 0 <= j < c ==> #[trigger] sv[j].0 != name@;
                if c < i {
                    assert(sv[c].0 != name@);
                }
                if c > i {
                    assert(sv[i].0 != name@);
                }
            }
            Some(x)
        },
        None => match find_var(outside, name) {
            Some(x) => {
                proof {
                    let i = choose|i: int| 0 <= i < outside@.len() && ov[i].0 == name@ && (forall|j: int| 0 <= j < i ==> #[trigger] ov[j].0 != name@) && x@ == ov[i].1;
                    let c = choose|c: int| 0 <= c < ov.len() && ov[c].0 == name@ && forall|j: int| 0 <= j < c ==> #[trigger] ov[j].0 != name@;
                    if c < i {
                        assert(ov[c].0 != name@);
                    }
                    if c > i {
                        assert(ov[i].0 != name@);
                    }
                }
                Some(x)
            },
            None => None,
        },
    }
}

/// The view of an optional string.
pub open spec fn opt_chars(o: Option<String>) -> Option<Seq<char>> {
    match o {
        Some(s) => Some(s@),
        None => None,
    }
}

fn words_contain(ws: &Vec<Vec<char>>, v: &Vec<char>) -> (b: bool)
    ensures
        b == ws@.map_values(|w: Vec<char>| w@).contains(v@),
{
    let ghost wv = ws@.map_values(|w: Vec<char>| w@);
    let mut i: usize = 0;
    while i < ws.len()
        invariant
            i <= ws@.len(),
            wv == ws@.map_values(|w: Vec<char>| w@),
            forall|j: int| 0 <= j < i ==> #[trigger] wv[j] != v@,
        decreases ws@.len() - i,
    {
        let a = from_chars(ws[i].as_slice());
        let b = from_chars(v.as_slice());
        if a == b {
            proof {
                assert(wv[i as int] == v@);
            }
            return true;
        }
        i = i + 1;
    }
    false
}

/// Reads one logical line of a definitions file (see [`step`]).
#[verifier::rlimit(60)]
pub fn step_line(
    st: LoadState,
    set: &Vec<(String, String)>,
    outside: &Vec<(String, String)>,
    line: &String,
) -> (r: (LoadState, LineAction))
    ensures
        (r.0, action_view(r.1)) == step(st, vars_view(set@), vars_view(outside@), line@),
        match r.1 {
            LineAction::Alias(n, _) => n@.len() > 0,
            LineAction::Define(n, _) => n@.len() > 0,
            _ => true,
        },
{
    reveal(step_on);
    let raw = to_chars(line.as_str());
    let sc = strip_comment_chars(&raw);
    let l = trim_range(&sc, 0, sc.len());
    proof {
        assert(sc@.subrange(0, sc@.len() as int) =~= sc@);
    }
    let off = st.wrong_locale || st.wrong_var;
    if l.len() > 0 && l[0] == '!' {
        let body = trim_range(&l, 1, l.len());
        proof {
            assert(l@.subrange(1, l@.len() as int) =~= l@.drop_first());
        }
        let (d, arg) = split_first_word(&body);
        if chars_eq_str(&d, "locale") {
            let wrong = !chars_eq_str(&arg, "en_US");
            (LoadState { wrong_locale: wrong, ..st }, LineAction::Skip)
        } else if chars_eq_str(&d, "endlocale") {
            (LoadState { wrong_locale: false, ..st }, LineAction::Skip)
        } else if chars_eq_str(&d, "utf8") {
            (LoadState { in_utf8: true, ..st }, LineAction::Skip)
        } else if chars_eq_str(&d, "endutf8") {
            (LoadState { in_utf8: false, ..st }, LineAction::Skip)
        } else if chars_eq_str(&d, "var") || chars_eq_str(&d, "varnot") {
            let is_var = chars_eq_str(&d, "var");
            let (vn, vals) = split_first_word(&arg);
            let wrong = match lookup(set, outside, &vn) {
                Some(v) => {
                    let ws = split_words(&vals);
                    proof {
                        assert(ws@.map_values(|w: Vec<char>| w@) =~= words(vals@));
                    }
                    let vc = to_chars(v.as_str());
                    let found = words_contain(&ws, &vc);
                    if is_var {
                        !found
                    } else {
                        found
                    }
                },
                None => true,
            };
            (LoadState { wrong_var: wrong, ..st }, LineAction::Skip)
        } else if chars_eq_str(&d, "endvar") {
            (LoadState { wrong_var: false, ..st }, LineAction::Skip)
        } else if chars_eq_str(&d, "set") {
            let (vn, val) = split_first_word(&arg);
            if !off && lookup(set, outside, &vn).is_none() {
                (st, LineAction::SetVar(from_chars(vn.as_slice()), from_chars(val.as_slice())))
            } else {
                (st, LineAction::Skip)
            }
        } else if chars_eq_str(&d, "unitlist") {
            let (n, def) = split_first_word(&arg);
            if !off && n.len() > 0 {
                (st, LineAction::Alias(from_chars(n.as_slice()), from_chars(def.as_slice())))
            } else {
                (st, LineAction::Skip)
            }
        } else if chars_eq_str(&d, "include") {
            if !off {
                (st, LineAction::Include(from_chars(arg.as_slice())))
            } else {
                (st, LineAction::Skip)
            }
        } else {
            (st, LineAction::Skip)
        }
    } else if off {
        (st, LineAction::Skip)
    } else {
        let rep = replace_operators(&l);
        let norm = trim_range(&rep, 0, rep.len());
        proof {
            assert(rep@.subrange(0, rep@.len() as int) =~= rep@);
        }
        let (raw_name, def) = split_first_word(&norm);
        let name = if raw_name.len() > 0 && raw_name[0] == '+' {
            let nm = slice_vec(&raw_name, 1, raw_name.len());
            proof {
                assert(nm@ =~= raw_name@.drop_first());
            }
            nm
        } else {
            raw_name.clone()
        };
        if norm.len() == 0 || chars_eq_str(&raw_name, "-") || def.len() == 0 || name.len() == 0 {
            (st, LineAction::Skip)
        } else {
            (st, LineAction::Define(from_chars(name.as_slice()), from_chars(def.as_slice())))
        }
    }
}

} // verus!

verus! {

/// A definition is named and its kind fits its name.
pub open spec fn def_valid(d: Definition) -> bool {
    d.name@.len() > 0 && (d.kind == DefinitionKind::Alias || d.kind == kind_of_name(d.name@))
}

/// Every definition of a list is valid.
pub open spec fn defs_valid(v: Seq<Definition>) -> bool {
    forall|i: int| 0 <= i < v.len() ==> def_valid(#[trigger] v[i])
}

/// The content of a definition: its name, its definition text and its kind.
pub open spec fn def_view(d: Definition) -> (Seq<char>, Seq<char>, DefinitionKind) {
    (d.name@, d.definition@, d.kind)
}

/// The contents of a list of definitions.
pub open spec fn defs_view(v: Seq<Definition>) -> Seq<(Seq<char>, Seq<char>, DefinitionKind)> {
    v.map_values(|d: Definition| def_view(d))
}

/// The text of the first file of `includes` named `name`.
pub open spec fn include_text(includes: Seq<(Seq<char>, Seq<char>)>, name: Seq<char>) -> Option<Seq<char>>
    decreases includes.len(),
{
    if includes.len() == 0 {
        None
    } else if includes[0].0 == name {
        Some(includes[0].1)
    } else {
        include_text(includes.drop_first(), name)
    }
}

/// The state at the start of a file: no block in force.
pub open spec fn start_state() -> LoadState {
    LoadState { wrong_locale: false, in_utf8: false, wrong_var: false }
}

/// Reading the logical lines `lines[i..]` in state `st`, with the
/// variables `set` set so far: the definitions read, in order, and the
/// variables set afterwards.  An `!include` reads the named file of
/// `includes`, at most `depth` files deep.
pub open spec fn read_lines(
    lines: Seq<(int, Seq<char>)>,
    i: int,
    st: LoadState,
    set: Seq<(Seq<char>, Seq<char>)>,
    outside: Seq<(Seq<char>, Seq<char>)>,
    includes: Seq<(Seq<char>, Seq<char>)>,
    depth: nat,
) -> (Seq<(Seq<char>, Seq<char>, DefinitionKind)>, Seq<(Seq<char>, Seq<char>)>)
    decreases depth, lines.len() - i,
{
    if i < 0 || i >= lines.len() {
        (Seq::empty(), set)
    } else {
        let (st2, act) = step(st, set, outside, lines[i].1);
        match act {
            ActionView::SetVar(n, v) => read_lines(lines, i + 1, st2, set.push((n, v)), outside, includes, depth),
            ActionView::Alias(n, d) => {
                let r = read_lines(lines, i + 1, st2, set, outside, includes, depth);
                (seq![(n, d, DefinitionKind::Alias)] + r.0, r.1)
            },
            ActionView::Define(n, d) => {
                let r = read_lines(lines, i + 1, st2, set, outside, includes, depth);
                (seq![(n, d, kind_of_name(n))] + r.0, r.1)
            },
            ActionView::Include(f) => match include_text(includes, f) {
                Some(c) => if depth > 0 {
                    let sub = read_text(c, set, outside, includes, (depth - 1) as nat);
                    let r = read_lines(lines, i + 1, st2, sub.1, outside, includes, depth);
                    (sub.0 + r.0, r.1)
                } else {
                    read_lines(lines, i + 1, st2, set, outside, includes, depth)
                },
                None => read_lines(lines, i + 1, st2, set, outside, includes, depth),
            },
            ActionView::Skip => read_lines(lines, i + 1, st2, set, outside, includes, depth),
        }
    }
}

/// Reading a definitions file (see [`read_lines`]).
pub open spec fn read_text(
    content: Seq<char>,
    set: Seq<(Seq<char>, Seq<char>)>,
    outside: Seq<(Seq<char>, Seq<char>)>,
    includes: Seq<(Seq<char>, Seq<char>)>,
    depth: nat,
) -> (Seq<(Seq<char>, Seq<char>, DefinitionKind)>, Seq<(Seq<char>, Seq<char>)>)
    decreases depth + 1, 0int,
{
    read_lines(logical_lines(content), 0, start_state(), set, outside, includes, depth)
}

/// `b` is `a` with definition `def` of `name` registered according to the
/// kind of the name.
pub open spec fn registered_one(a: DbView, name: Seq<char>, def: Seq<char>, b: DbView) -> bool {
    match kind_of_name(name) {
        DefinitionKind::Prefix => prefix_registered(a, name, def, b),
        DefinitionKind::Table => table_registered(a, name, def, b),
        DefinitionKind::Function => function_registered(a, name, def, b),
        _ => unit_registered(a, name, def, b),
    }
}

/// `chain` steps from state to state through the registrations `regs`.
pub open spec fn registration_chain(chain: Seq<DbView>, regs: Seq<(Seq<char>, Seq<char>)>) -> bool {
    &&& chain.len() == regs.len() + 1
    &&& forall|k: int| 0 <= k < regs.len() ==> registered_one(#[trigger] chain[k], regs[k].0, regs[k].1, chain[k + 1])
}

/// `b` is `a` with each `(name, definition)` of `regs` registered in turn.
pub open spec fn registered(a: DbView, regs: Seq<(Seq<char>, Seq<char>)>, b: DbView) -> bool {
    exists|chain: Seq<DbView>| #[trigger] registration_chain(chain, regs) && chain[0] == a && chain.last() == b
}

/// The `(name, definition)` of the definitions that the database registers:
/// all but the unit list aliases.
pub open spec fn registrations(v: Seq<(Seq<char>, Seq<char>, DefinitionKind)>) -> Seq<(Seq<char>, Seq<char>)>
    decreases v.len(),
{
    if v.len() == 0 {
        Seq::empty()
    } else if v.last().2 == DefinitionKind::Alias {
        registrations(v.drop_last())
    } else {
        registrations(v.drop_last()).push((v.last().0, v.last().1))
    }
}

proof fn lemma_registrations_append(
    a: Seq<(Seq<char>, Seq<char>, DefinitionKind)>,
    b: Seq<(Seq<char>, Seq<char>, DefinitionKind)>,
)
    ensures
        registrations(a + b) == registrations(a) + registrations(b),
    decreases b.len(),
{
    if b.len() == 0 {
        assert(a + b =~= a);
        assert(registrations(a) + registrations(b) =~= registrations(a));
    } else {
        lemma_registrations_append(a, b.drop_last());
        assert((a + b).drop_last() =~= a + b.drop_last());
        assert((a + b).last() == b.last());
        if b.last().2 != DefinitionKind::Alias {
            assert(registrations(a) + registrations(b) =~= (registrations(a) + registrations(b.drop_last())).push(
                (b.last().0, b.last().1),
            ));
        }
    }
}

proof fn lemma_registered_empty(x: DbView)
    ensures
        registered(x, Seq::empty(), x),
{
    let chain = seq![x];
    assert(registration_chain(chain, Seq::empty()));
}

proof fn lemma_registered_chain(
    x: DbView,
    s1: Seq<(Seq<char>, Seq<char>)>,
    m: DbView,
    s2: Seq<(Seq<char>, Seq<char>)>,
    y: DbView,
)
    requires
        registered(x, s1, m),
        registered(m, s2, y),
    ensures
        registered(x, s1 + s2, y),
{
    let c1 = choose|c: Seq<DbView>| #[trigger] registration_chain(c, s1) && c[0] == x && c.last() == m;
    let c2 = choose|c: Seq<DbView>| #[trigger] registration_chain(c, s2) && c[0] == m && c.last() == y;
    let c = c1 + c2.drop_first();
    let s = s1 + s2;
    assert forall|k: int| 0 <= k < s.len() implies registered_one(#[trigger] c[k], s[k].0, s[k].1, c[k + 1]) by {
        if k < s1.len() {
            assert(c[k] == c1[k]);
            assert(s[k] == s1[k]);
            if k + 1 < c1.len() {
                assert(c[k + 1] == c1[k + 1]);
            } else {
                assert(c[k + 1] == c2[1]);
                assert(c1[k + 1] == m);
                assert(registered_one(c1[k], s1[k].0, s1[k].1, c1[k + 1]));
                assert(registered_one(c2[0], s2[0].0, s2[0].1, c2[1]));
            }
        } else {
            let j = k - s1.len();
            assert(s[k] == s2[j]);
            assert(c[k + 1] == c2[j + 1]);
            if j == 0 {
                assert(c[k] == c1.last());
                assert(registered_one(c2[0], s2[0].0, s2[0].1, c2[1]));
            } else {
                assert(c[k] == c2[j]);
                assert(registered_one(c2[j], s2[j].0, s2[j].1, c2[j + 1]));
            }
        }
    }
    assert(registration_chain(c, s));
    if s2.len() == 0 {
        assert(c =~= c1);
    }
}

proof fn lemma_registered_push(x: DbView, s: Seq<(Seq<char>, Seq<char>)>, m: DbView, n: Seq<char>, d: Seq<char>, y: DbView)
    requires
        registered(x, s, m),
        registered_one(m, n, d, y),
    ensures
        registered(x, s.push((n, d)), y),
{
    let c = choose|c: Seq<DbView>| #[trigger] registration_chain(c, s) && c[0] == x && c.last() == m;
    let c2 = c.push(y);
    let t = s.push((n, d));
    assert forall|k: int| 0 <= k < t.len() implies registered_one(#[trigger] c2[k], t[k].0, t[k].1, c2[k + 1]) by {
        if k < s.len() {
            assert(c2[k] == c[k] && c2[k + 1] == c[k + 1] && t[k] == s[k]);
            assert(registered_one(c[k], s[k].0, s[k].1, c[k + 1]));
        }
    }
    assert(registration_chain(c2, t));
}

proof fn lemma_defs_view_push(v: Seq<Definition>, d: Definition)
    ensures
        defs_view(v.push(d)) == defs_view(v).push(def_view(d)),
        d.kind == DefinitionKind::Alias ==> registrations(defs_view(v).push(def_view(d))) == registrations(defs_view(v)),
        d.kind != DefinitionKind::Alias ==> registrations(defs_view(v).push(def_view(d))) == registrations(defs_view(v)).push((d.name@, d.definition@)),
{
    assert(defs_view(v.push(d)) =~= defs_view(v).push(def_view(d)));
    assert(defs_view(v).push(def_view(d)).drop_last() =~= defs_view(v));
}

fn find_include<'a>(includes: &'a Vec<(String, String)>, name: &String) -> (r: Option<&'a String>)
    ensures
        match r {
            Some(c) => include_text(vars_view(includes@), name@) == Some(c@),
            None => include_text(vars_view(includes@), name@) is None,
        },
{
    let ghost iv = vars_view(includes@);
    let mut i: usize = 0;
    proof {
        assert(iv.skip(0) =~= iv);
    }
    while i < includes.len()
        invariant
            i <= includes@.len(),
            iv == vars_view(includes@),
            include_text(iv, name@) == include_text(iv.skip(i as int), name@),
        decreases includes@.len() - i,
    {
        proof {
            assert(iv.skip(i as int).drop_first() =~= iv.skip(i + 1));
            assert(iv.skip(i as int)[0] == (includes@[i as int].0@, includes@[i as int].1@));
        }
        if includes[i].0 == *name {
            return Some(&includes[i].1);
        }
        i = i + 1;
    }
    None
}

/// Registers a definition in the database according to the kind of its
/// name.
fn register(db: &mut Database, name: &String, def: &String)
    requires
        old(db).wf(),
    ensures
        final(db).wf(),
        registered_one(old(db).content(), name@, def@, final(db).content()),
{
    match DefinitionKind::from_name(name.as_str()) {
        DefinitionKind::Prefix => db.insert_prefix(name, def),
        DefinitionKind::Table => db.insert_table(name, def),
        DefinitionKind::Function => db.insert_function(name, def),
        _ => db.insert_unit(name, def),
    }
}

/// Reads a definitions file (see [`read_text`]): definitions are registered
/// in `db`, `!set` variables added to `set`, `!include` files read from
/// `includes` (at most `depth` deep).  Returns the definitions in file
/// order.
pub fn load_core(
    content: &str,
    set: &mut Vec<(String, String)>,
    outside: &Vec<(String, String)>,
    includes: &Vec<(String, String)>,
    db: &mut Database,
    depth: usize,
) -> (r: Vec<Definition>)
    requires
        old(db).wf(),
    ensures
        final(db).wf(),
        defs_valid(r@),
        (defs_view(r@), vars_view(final(set)@)) == read_text(
            content@,
            vars_view(old(set)@),
            vars_view(outside@),
            vars_view(includes@),
            depth as nat,
        ),
        registered(old(db).content(), registrations(defs_view(r@)), final(db).content()),
    decreases depth,
{
    let lines = join_continuations(content);
    let ghost lv = logical_lines(content@);
    let ghost ov = vars_view(outside@);
    let ghost iv = vars_view(includes@);
    let ghost total = read_text(content@, vars_view(set@), ov, iv, depth as nat);
    let ghost db0 = db.content();
    let mut st = LoadState { wrong_locale: false, in_utf8: false, wrong_var: false };
    let mut results: Vec<Definition> = Vec::new();
    let mut i: usize = 0;
    proof {
        assert forall|k: int| 0 <= k < lines@.len() implies #[trigger] lines@[k].1@ == lv[k].1 by {
            assert(lines@[k].0 as int == lv[k].0);
        }
        assert(defs_view(results@) + total.0 =~= total.0);
        assert(registrations(defs_view(results@)) =~= Seq::<(Seq<char>, Seq<char>)>::empty());
        lemma_registered_empty(db0);
    }
    while i < lines.len()
        invariant
            i <= lines@.len(),
            lines@.len() == lv.len(),
            forall|k: int| 0 <= k < lines@.len() ==> #[trigger] lines@[k].1@ == lv[k].1,
            ov == vars_view(outside@),
            iv == vars_view(includes@),
            db.wf(),
            defs_valid(results@),
            ({
                let rest = read_lines(lv, i as int, st, vars_view(set@), ov, iv, depth as nat);
                defs_view(results@) + rest.0 == total.0 && rest.1 == total.1
            }),
            registered(db0, registrations(defs_view(results@)), db.content()),
        decreases lines@.len() - i,
    {
        let ghost sv = vars_view(set@);
        let ghost dv = defs_view(results@);
        let ghost rest = read_lines(lv, i as int, st, sv, ov, iv, depth as nat);
        let (st2, act) = step_line(st, set, outside, &lines[i].1);
        let ghost next = read_lines(lv, i + 1, st2, sv, ov, iv, depth as nat);
        st = st2;
        match act {
            LineAction::Skip => {
                assert(rest == next);
            },
            LineAction::SetVar(n, v) => {
                let ghost nv = n@;
                let ghost vv = v@;
                set.push((n, v));
                proof {
                    assert(vars_view(set@) =~= sv.push((nv, vv)));
                }
            },
            LineAction::Alias(n, d) => {
                let def = Definition { name: n, definition: d, kind: DefinitionKind::Alias };
                let ghost before = results@;
                results.push(def);
                proof {
                    lemma_defs_view_push(before, def);
                    assert(dv + rest.0 =~= defs_view(results@) + next.0);
                    assert forall|k: int| 0 <= k < results@.len() implies def_valid(#[trigger] results@[k]) by {
                        if k < before.len() {
                            assert(results@[k] == before[k]);
                        }
                    }
                }
            },
            LineAction::Include(f) => {
                if depth > 0 {
                    match find_include(includes, &f) {
                        Some(c) => {
                            let ghost mid = db.content();
                            let mut sub = load_core(c.as_str(), set, outside, includes, db, depth - 1);
                            let ghost before = results@;
                            let ghost sv2 = defs_view(sub@);
                            results.append(&mut sub);
                            proof {
                                assert(defs_view(results@) =~= dv + sv2);
                                assert(dv + rest.0 =~= (dv + sv2) + read_lines(lv, i + 1, st2, vars_view(set@), ov, iv, depth as nat).0);
                                lemma_registrations_append(dv, sv2);
                                lemma_registered_chain(db0, registrations(dv), mid, registrations(sv2), db.content());
                                assert forall|k: int| 0 <= k < results@.len() implies def_valid(#[trigger] results@[k]) by {
                                    if k < before.len() {
                                        assert(results@[k] == before[k]);
                                    }
                                }
                            }
                        },
                        None => {
                            assert(rest == next);
                        },
                    }
                } else {
                    assert(rest == next);
                }
            },
            LineAction::Define(n, d) => {
                let ghost mid = db.content();
                register(db, &n, &d);
                let kind = DefinitionKind::from_name(n.as_str());
                let def = Definition { name: n, definition: d, kind };
                let ghost before = results@;
                results.push(def);
                proof {
                    lemma_defs_view_push(before, def);
                    assert(dv + rest.0 =~= defs_view(results@) + next.0);
                    lemma_registered_push(db0, registrations(dv), mid, def.name@, def.definition@, db.content());
                    assert forall|k: int| 0 <= k < results@.len() implies def_valid(#[trigger] results@[k]) by {
                        if k < before.len() {
                            assert(results@[k] == before[k]);
                        }
                    }
                }
            },
        }
        i = i + 1;
    }
    proof {
        assert(defs_view(results@) + Seq::<(Seq<char>, Seq<char>, DefinitionKind)>::empty() =~= defs_view(results@));
    }
    results
}

} // verus!

verus! {

/// The key under which definitions replace each other: canonical name and
/// kind.
#[verifier::opaque]
pub open spec fn def_key(d: Definition) -> (Seq<char>, DefinitionKind) {
    (canonical(d.name@), d.kind)
}

/// The listing order: by name, then by kind.
#[verifier::opaque]
pub open spec fn def_lt(a: Definition, b: Definition) -> bool {
    chars_lt(a.name@, b.name@) || (a.name@ == b.name@ && kind_rank(a.kind) < kind_rank(b.kind))
}

/// Strictly ordered by [`def_lt`], with distinct keys.
#[verifier::opaque]
pub open spec fn sorted_unique(v: Seq<Definition>) -> bool {
    forall|i: int, j: int|
        0 <= i < j < v.len() ==> def_lt(#[trigger] v[i], #[trigger] v[j]) && def_key(v[i]) != def_key(v[j])
}

/// Entry `k` is the last entry of `input[..m]` with its key.
pub open spec fn last_with_key(input: Seq<Definition>, k: int, m: int) -> bool {
    0 <= k < m && forall|k2: int| k < k2 < m ==> def_key(#[trigger] input[k2]) != def_key(input[k])
}

/// `out` lists, in order, the last definition of `input[..m]` for each key.
pub open spec fn normalized_upto(input: Seq<Definition>, out: Seq<Definition>, m: int) -> bool {
    &&& sorted_unique(out)
    &&& all_last(input, out, m)
    &&& covers(input, out, m)
}

/// `out` lists, in order, the last definition of `input` for each key.
pub open spec fn normalized(input: Seq<Definition>, out: Seq<Definition>) -> bool {
    normalized_upto(input, out, input.len() as int)
}

/// The listing order is irreflexive.
pub proof fn lemma_def_lt_irreflexive(a: Definition)
    ensures
        !def_lt(a, a),
{
    reveal(def_lt);
    lemma_chars_lt_irreflexive(a.name@);
}

/// The listing order is transitive.
pub proof fn lemma_def_lt_transitive(a: Definition, b: Definition, c: Definition)
    requires
        def_lt(a, b),
        def_lt(b, c),
    ensures
        def_lt(a, c),
{
    reveal(def_lt);
    if chars_lt(a.name@, b.name@) && chars_lt(b.name@, c.name@) {
        lemma_chars_lt_transitive(a.name@, b.name@, c.name@);
    }
}

/// The listing order is total on definitions with different names or kinds.
pub proof fn lemma_def_lt_total(a: Definition, b: Definition)
    ensures
        (a.name@ != b.name@ || a.kind != b.kind) ==> def_lt(a, b) || def_lt(b, a),
        !(def_lt(a, b) && def_lt(b, a)),
        !def_lt(a, b) && !def_lt(b, a) ==> def_key(a) == def_key(b),
{
    reveal(def_lt);
    reveal(def_key);
    lemma_chars_lt_total(a.name@, b.name@);
}

impl Definition {
    /// A copy of the definition.
    pub fn duplicate(&self) -> (d: Definition)
        ensures
            d == *self,
    {
        Definition { name: self.name.clone(), definition: self.definition.clone(), kind: self.kind }
    }
}

fn def_less(a: &Definition, b: &Definition) -> (r: bool)
    ensures
        r == def_lt(*a, *b),
{
    reveal(def_lt);
    let an = to_chars(a.name.as_str());
    let bn = to_chars(b.name.as_str());
    if chars_less(&an, &bn) {
        true
    } else {
        a.name == b.name && a.kind.rank() < b.kind.rank()
    }
}

fn same_key(a: &Definition, b: &Definition) -> (r: bool)
    ensures
        r == (def_key(*a) == def_key(*b)),
{
    reveal(def_key);
    a.kind == b.kind && a.canonical_name() == b.canonical_name()
}

proof fn lemma_remove_sorted(o0: Seq<Definition>, k: int)
    requires
        sorted_unique(o0),
        0 <= k < o0.len(),
    ensures
        sorted_unique(o0.remove(k)),
{
    reveal(sorted_unique);
    let o1 = o0.remove(k);
    assert forall|a: int, b: int| 0 <= a < b < o1.len() implies def_lt(#[trigger] o1[a], #[trigger] o1[b]) && def_key(o1[a]) != def_key(o1[b]) by {
        let a0 = if a < k { a } else { a + 1 };
        let b0 = if b < k { b } else { b + 1 };
        assert(o1[a] == o0[a0]);
        assert(o1[b] == o0[b0]);
    }
}

proof fn lemma_remove_other_keys(o0: Seq<Definition>, o1: Seq<Definition>, k: int, key: (Seq<char>, DefinitionKind))
    requires
        sorted_unique(o0),
        0 <= k <= o0.len(),
        forall|j: int| 0 <= j < k ==> def_key(#[trigger] o0[j]) != key,
        k < o0.len() ==> def_key(o0[k]) == key,
        o1 == (if k < o0.len() { o0.remove(k) } else { o0 }),
    ensures
        forall|j: int| 0 <= j < o1.len() ==> def_key(#[trigger] o1[j]) != key,
{
    reveal(sorted_unique);
    assert forall|j: int| 0 <= j < o1.len() implies def_key(#[trigger] o1[j]) != key by {
        if k < o0.len() {
            let j0 = if j < k { j } else { j + 1 };
            assert(o1[j] == o0[j0]);
            if j0 > k {
                assert(def_key(o0[k]) != def_key(o0[j0]));
            }
        }
    }
}

/// `d` is the last entry of `input[..m]` with its key.
pub open spec fn is_last_def(input: Seq<Definition>, d: Definition, m: int) -> bool {
    exists|kk: int| last_with_key(input, kk, m) && d == input[kk]
}

/// Every entry of `o` is the last entry of `input[..m]` with its key.
#[verifier::opaque]
pub open spec fn all_last(input: Seq<Definition>, o: Seq<Definition>, m: int) -> bool {
    forall|j: int| 0 <= j < o.len() ==> is_last_def(input, #[trigger] o[j], m)
}

/// Every key of `input[..m]` has an entry in `o`.
#[verifier::opaque]
pub open spec fn covers(input: Seq<Definition>, o: Seq<Definition>, m: int) -> bool {
    forall|kq: int|
        0 <= kq < m ==> exists|i: int| 0 <= i < o.len() && #[trigger] def_key(o[i]) == def_key(#[trigger] input[kq])
}

proof fn lemma_remove_all_last(input: Seq<Definition>, o0: Seq<Definition>, m: int, k: int)
    requires
        all_last(input, o0, m),
        0 <= k < o0.len(),
    ensures
        all_last(input, o0.remove(k), m),
{
    reveal(all_last);
    let o1 = o0.remove(k);
    assert forall|j: int| 0 <= j < o1.len() implies is_last_def(input, #[trigger] o1[j], m) by {
        let j0 = if j < k { j } else { j + 1 };
        assert(o1[j] == o0[j0]);
    }
}

proof fn lemma_covers_weaken(input: Seq<Definition>, o0: Seq<Definition>, m: int, key: (Seq<char>, DefinitionKind))
    requires
        covers(input, o0, m),
    ensures
        forall|kq: int|
            0 <= kq < m && def_key(#[trigger] input[kq]) != key ==> exists|i: int|
                0 <= i < o0.len() && #[trigger] def_key(o0[i]) == def_key(input[kq]),
{
    reveal(covers);
}

proof fn lemma_remove_covers(input: Seq<Definition>, o0: Seq<Definition>, m: int, k: int)
    requires
        covers(input, o0, m),
        0 <= k < o0.len(),
    ensures
        forall|kq: int|
            0 <= kq < m && def_key(#[trigger] input[kq]) != def_key(o0[k]) ==> exists|i: int|
                0 <= i < o0.remove(k).len() && #[trigger] def_key(o0.remove(k)[i]) == def_key(input[kq]),
{
    reveal(covers);
    let o1 = o0.remove(k);
    assert forall|kq: int| 0 <= kq < m && def_key(#[trigger] input[kq]) != def_key(o0[k]) implies exists|i: int| 0 <= i < o1.len() && #[trigger] def_key(o1[i]) == def_key(input[kq]) by {
        let i0 = choose|i: int| 0 <= i < o0.len() && #[trigger] def_key(o0[i]) == def_key(input[kq]);
        assert(i0 != k);
        let i1 = if i0 < k { i0 } else { i0 - 1 };
        assert(o1[i1] == o0[i0]);
    }
}

proof fn lemma_insert_sorted(o1: Seq<Definition>, dd: Definition, pos: int)
    requires
        sorted_unique(o1),
        forall|j: int| 0 <= j < o1.len() ==> def_key(#[trigger] o1[j]) != def_key(dd),
        0 <= pos <= o1.len(),
        forall|j: int| 0 <= j < pos ==> def_lt(#[trigger] o1[j], dd),
        pos < o1.len() ==> !def_lt(o1[pos], dd),
    ensures
        sorted_unique(o1.insert(pos, dd)),
{
    reveal(sorted_unique);
    let o2 = o1.insert(pos, dd);
    assert forall|j: int| pos <= j < o1.len() implies def_lt(dd, #[trigger] o1[j]) by {
        lemma_def_lt_total(o1[pos], dd);
        assert(def_key(o1[pos]) != def_key(dd));
        if j > pos {
            lemma_def_lt_transitive(dd, o1[pos], o1[j]);
        }
    }
    assert forall|a: int, b: int| 0 <= a < b < o2.len() implies def_lt(#[trigger] o2[a], #[trigger] o2[b]) && def_key(o2[a]) != def_key(o2[b]) by {
        if b < pos {
            assert(o2[a] == o1[a] && o2[b] == o1[b]);
        } else if b == pos {
            assert(o2[a] == o1[a]);
        } else if a < pos {
            assert(o2[a] == o1[a] && o2[b] == o1[b - 1]);
            lemma_def_lt_transitive(o1[a], dd, o1[b - 1]);
        } else if a == pos {
            assert(o2[b] == o1[b - 1]);
        } else {
            assert(o2[a] == o1[a - 1] && o2[b] == o1[b - 1]);
        }
    }
}

proof fn lemma_insert_all_last(input: Seq<Definition>, o1: Seq<Definition>, m: int, pos: int)
    requires
        0 <= m < input.len(),
        all_last(input, o1, m),
        forall|j: int| 0 <= j < o1.len() ==> def_key(#[trigger] o1[j]) != def_key(input[m]),
        0 <= pos <= o1.len(),
    ensures
        all_last(input, o1.insert(pos, input[m]), m + 1),
{
    reveal(all_last);
    let dd = input[m];
    let o2 = o1.insert(pos, dd);
    assert forall|j: int| 0 <= j < o2.len() implies is_last_def(input, #[trigger] o2[j], m + 1) by {
        if j == pos {
            assert(last_with_key(input, m, m + 1));
            assert(o2[j] == input[m]);
        } else {
            let j1 = if j < pos { j } else { j - 1 };
            assert(o2[j] == o1[j1]);
            assert(is_last_def(input, o1[j1], m));
            let kk = choose|kk: int| last_with_key(input, kk, m) && o1[j1] == input[kk];
            assert(def_key(o1[j1]) != def_key(dd));
            assert(last_with_key(input, kk, m + 1));
        }
    }
}

proof fn lemma_insert_covers(input: Seq<Definition>, o1: Seq<Definition>, m: int, pos: int)
    requires
        0 <= m < input.len(),
        forall|kq: int|
            0 <= kq < m && def_key(#[trigger] input[kq]) != def_key(input[m]) ==> exists|i: int|
                0 <= i < o1.len() && #[trigger] def_key(o1[i]) == def_key(input[kq]),
        0 <= pos <= o1.len(),
    ensures
        covers(input, o1.insert(pos, input[m]), m + 1),
{
    reveal(covers);
    let dd = input[m];
    let o2 = o1.insert(pos, dd);
    assert forall|kq: int| 0 <= kq < m + 1 implies exists|i: int| 0 <= i < o2.len() && #[trigger] def_key(o2[i]) == def_key(#[trigger] input[kq]) by {
        if def_key(input[kq]) == def_key(dd) {
            assert(def_key(o2[pos]) == def_key(input[kq]));
        } else {
            let i1 = choose|i: int| 0 <= i < o1.len() && #[trigger] def_key(o1[i]) == def_key(input[kq]);
            let i2 = if i1 < pos { i1 } else { i1 + 1 };
            assert(o2[i2] == o1[i1]);
        }
    }
}

/// Keeps, for each key, the last definition of `input`, listed in name
/// order (ties by kind).
pub fn normalize_definitions(input: &Vec<Definition>) -> (out: Vec<Definition>)
    ensures
        normalized(input@, out@),
{
    let mut out: Vec<Definition> = Vec::new();
    let mut m: usize = 0;
    proof {
        reveal(sorted_unique);
        reveal(all_last);
        reveal(covers);
    }
    while m < input.len()
        invariant
            m <= input@.len(),
            normalized_upto(input@, out@, m as int),
        decreases input@.len() - m,
    {
        let d = &input[m];
        let ghost o0 = out@;
        let mut k: usize = 0;
        while k < out.len() && !same_key(&out[k], d)
            invariant
                k <= out@.len(),
                out@ == o0,
                forall|j: int| 0 <= j < k ==> def_key(#[trigger] out@[j]) != def_key(*d),
            decreases out@.len() - k,
        {
            k = k + 1;
        }
        if k < out.len() {
            proof {
                lemma_remove_sorted(o0, k as int);
                lemma_remove_all_last(input@, o0, m as int, k as int);
                lemma_remove_covers(input@, o0, m as int, k as int);
            }
            out.remove(k);
        }
        let ghost o1 = out@;
        proof {
            lemma_remove_other_keys(o0, o1, k as int, def_key(input@[m as int]));
            if k == o0.len() {
                lemma_covers_weaken(input@, o0, m as int, def_key(input@[m as int]));
            }
        }
        let mut pos: usize = 0;
        while pos < out.len() && def_less(&out[pos], d)
            invariant
                pos <= out@.len(),
                out@ == o1,
                forall|j: int| 0 <= j < pos ==> def_lt(#[trigger] out@[j], *d),
            decreases out@.len() - pos,
        {
            pos = pos + 1;
        }
        let nd = d.duplicate();
        out.insert(pos, nd);
        proof {
            lemma_insert_sorted(o1, input@[m as int], pos as int);
            lemma_insert_all_last(input@, o1, m as int, pos as int);
            lemma_insert_covers(input@, o1, m as int, pos as int);
        }
        m = m + 1;
    }
    out
}

} // verus!
