//! The loaded units database together with its list of definitions.
use vstd::prelude::*;

use crate::database::Database;
use crate::database::empty_content;
use crate::definitions::{
    def_lt, def_valid, defs_valid, defs_view, lemma_def_lt_irreflexive, lemma_def_lt_total, load_core,
    normalize_definitions, normalized, read_text, registered, registrations, sorted_unique, vars_view,
    Definition, DefinitionKind,
};
use crate::dims::{chars_less, chars_lt, lemma_chars_lt_irreflexive, lemma_chars_lt_total, lemma_chars_lt_transitive};
use crate::text::to_chars;

verus! {

/// How deeply `!include` directives are followed.
pub const MAX_INCLUDE_DEPTH: usize = 8;

/// The definitions of a definitions file, in file order (see
/// [`read_text`]): `outside` the environment variables that `!var` may
/// test, `includes` the files that `!include` may name.
pub open spec fn file_definitions(
    content: Seq<char>,
    outside: Seq<(Seq<char>, Seq<char>)>,
    includes: Seq<(Seq<char>, Seq<char>)>,
) -> Seq<(Seq<char>, Seq<char>, DefinitionKind)> {
    read_text(content, Seq::empty(), outside, includes, MAX_INCLUDE_DEPTH as nat).0
}

/// Names never decrease along the list.
pub open spec fn sorted_by_name(v: Seq<Definition>) -> bool {
    forall|i: int, j: int| 0 <= i < j < v.len() ==> !chars_lt(#[trigger] v[j].name@, #[trigger] v[i].name@)
}

/// Whether a list of definitions has one named `name`.
pub open spec fn has_def_named(v: Seq<Definition>, name: Seq<char>) -> bool {
    exists|i: int| 0 <= i < v.len() && #[trigger] v[i].name@ == name
}

/// The definitions of `old` that a reload keeps: all but the units named
/// like one of the new definitions.
pub open spec fn kept_defs(old: Seq<Definition>, news: Seq<Definition>) -> Seq<Definition>
    decreases old.len(),
{
    if old.len() == 0 {
        Seq::empty()
    } else {
        let d = old.last();
        let rest = kept_defs(old.drop_last(), news);
        if d.kind != DefinitionKind::Unit || !has_def_named(news, d.name@) {
            rest.push(d)
        } else {
            rest
        }
    }
}

/// The index at which `d` goes into a list sorted by name: after every
/// entry whose name is not greater.
pub open spec fn upper_index(s: Seq<Definition>, d: Definition) -> int
    decreases s.len(),
{
    if s.len() == 0 {
        0
    } else if chars_lt(d.name@, s[0].name@) {
        0
    } else {
        1 + upper_index(s.drop_first(), d)
    }
}

/// `s` with each of `news`, in order, put after the entries whose names
/// are not greater: a stable sort by name of `s` followed by `news`, when
/// `s` is sorted.
pub open spec fn insert_all_by_name(s: Seq<Definition>, news: Seq<Definition>) -> Seq<Definition>
    decreases news.len(),
{
    if news.len() == 0 {
        s
    } else {
        insert_all_by_name(s.insert(upper_index(s, news[0]), news[0]), news.drop_first())
    }
}

/// The loaded database and its definitions.
pub struct Registry {
    defs: Vec<Definition>,
    db: Database,
}

proof fn lemma_sorted_unique_by_name(v: Seq<Definition>)
    requires
        sorted_unique(v),
    ensures
        sorted_by_name(v),
{
    reveal(sorted_unique);
    assert forall|i: int, j: int| 0 <= i < j < v.len() implies !chars_lt(#[trigger] v[j].name@, #[trigger] v[i].name@) by {
        assert(def_lt(v[i], v[j]));
        reveal(def_lt);
        lemma_chars_lt_total(v[i].name@, v[j].name@);
        lemma_chars_lt_irreflexive(v[i].name@);
    }
}

proof fn lemma_upper_index(s: Seq<Definition>, d: Definition)
    requires
        sorted_by_name(s),
    ensures
        0 <= upper_index(s, d) <= s.len(),
        forall|i: int| 0 <= i < upper_index(s, d) ==> !chars_lt(d.name@, #[trigger] s[i].name@),
        upper_index(s, d) < s.len() ==> chars_lt(d.name@, s[upper_index(s, d)].name@),
    decreases s.len(),
{
    if s.len() > 0 && !chars_lt(d.name@, s[0].name@) {
        let t = s.drop_first();
        assert forall|i: int, j: int| 0 <= i < j < t.len() implies !chars_lt(#[trigger] t[j].name@, #[trigger] t[i].name@) by {
            assert(t[i] == s[i + 1] && t[j] == s[j + 1]);
        }
        lemma_upper_index(t, d);
        assert forall|i: int| 0 <= i < upper_index(s, d) implies !chars_lt(d.name@, #[trigger] s[i].name@) by {
            if i > 0 {
                assert(s[i] == t[i - 1]);
            }
        }
    }
}

proof fn lemma_insert_keeps_sorted(s: Seq<Definition>, d: Definition)
    requires
        sorted_by_name(s),
    ensures
        sorted_by_name(s.insert(upper_index(s, d), d)),
{
    lemma_upper_index(s, d);
    let p = upper_index(s, d);
    let t = s.insert(p, d);
    assert forall|i: int, j: int| 0 <= i < j < t.len() implies !chars_lt(#[trigger] t[j].name@, #[trigger] t[i].name@) by {
        if j < p {
            assert(t[i] == s[i] && t[j] == s[j]);
        } else if j == p {
            assert(t[i] == s[i]);
            lemma_chars_lt_total(d.name@, s[i].name@);
        } else if i < p {
            assert(t[i] == s[i] && t[j] == s[j - 1]);
            // s[i] <= d < s[p] <= s[j - 1]
            lemma_chars_lt_total(s[j - 1].name@, s[i].name@);
            if chars_lt(s[j - 1].name@, s[i].name@) {
                lemma_chars_lt_total(d.name@, s[i].name@);
                if j - 1 > p {
                    lemma_chars_lt_total(s[j - 1].name@, s[p].name@);
                    if s[j - 1].name@ == s[p].name@ {
                        lemma_chars_lt_transitive(d.name@, s[p].name@, s[i].name@);
                    } else {
                        lemma_chars_lt_transitive(d.name@, s[p].name@, s[j - 1].name@);
                        lemma_chars_lt_transitive(d.name@, s[j - 1].name@, s[i].name@);
                    }
                } else {
                    lemma_chars_lt_transitive(d.name@, s[p].name@, s[i].name@);
                }
                if d.name@ == s[i].name@ {
                    lemma_chars_lt_total(s[j - 1].name@, d.name@);
                    if j - 1 > p {
                        lemma_chars_lt_total(s[j - 1].name@, s[p].name@);
                        if s[j - 1].name@ != s[p].name@ {
                            lemma_chars_lt_transitive(d.name@, s[p].name@, s[j - 1].name@);
                        }
                    }
                }
            }
        } else if i == p {
            assert(t[j] == s[j - 1]);
            if j - 1 > p {
                lemma_chars_lt_total(s[j - 1].name@, s[p].name@);
                if s[j - 1].name@ != s[p].name@ {
                    lemma_chars_lt_transitive(d.name@, s[p].name@, s[j - 1].name@);
                }
                lemma_chars_lt_total(d.name@, s[j - 1].name@);
            } else {
                lemma_chars_lt_total(d.name@, s[p].name@);
            }
        } else {
            assert(t[i] == s[i - 1] && t[j] == s[j - 1]);
        }
    }
}

impl Registry {
    /// The database is well formed; the definitions are valid and sorted by
    /// name.
    pub closed spec fn wf(&self) -> bool {
        &&& self.db.wf()
        &&& defs_valid(self.defs@)
        &&& sorted_by_name(self.defs@)
    }

    /// The definitions, in listing order.
    pub closed spec fn definitions(&self) -> Seq<Definition> {
        self.defs@
    }

    /// The database that expressions are evaluated against.
    pub closed spec fn database(&self) -> Database {
        self.db
    }

    /// A registry with no definitions.
    pub fn empty() -> (r: Registry)
        ensures
            r.wf(),
            r.definitions() == Seq::<Definition>::empty(),
    {
        let r = Registry { defs: Vec::new(), db: Database::new() };
        assert(r.defs@ =~= Seq::<Definition>::empty());
        r
    }

    /// Loads a definitions file: `outside` gives the environment variables
    /// that `!var` may test, `includes` the contents of the files that
    /// `!include` may name.  For each name and kind the last definition in
    /// the file is kept, and the definitions are listed by name, then kind.
    pub fn load(content: &str, outside: &Vec<(String, String)>, includes: &Vec<(String, String)>) -> (r:
        Registry)
        ensures
            r.wf(),
            exists|raw: Seq<Definition>|
                {
                    &&& defs_valid(raw)
                    &&& defs_view(raw) == file_definitions(content@, vars_view(outside@), vars_view(includes@))
                    &&& normalized(raw, r.definitions())
                    &&& registered(empty_content(), registrations(defs_view(raw)), r.database().content())
                },
    {
        let mut db = Database::new();
        let mut set: Vec<(String, String)> = Vec::new();
        proof {
            assert(vars_view(set@) =~= Seq::<(Seq<char>, Seq<char>)>::empty());
        }
        let raw = load_core(content, &mut set, outside, includes, &mut db, MAX_INCLUDE_DEPTH);
        let defs = normalize_definitions(&raw);
        proof {
            reveal(crate::definitions::all_last);
            assert forall|i: int| 0 <= i < defs@.len() implies def_valid(#[trigger] defs@[i]) by {
                assert(crate::definitions::is_last_def(raw@, defs@[i], raw@.len() as int));
                let kk = choose|kk: int| crate::definitions::last_with_key(raw@, kk, raw@.len() as int) && defs@[i] == raw@[kk];
                assert(def_valid(raw@[kk]));
            }
            lemma_sorted_unique_by_name(defs@);
        }
        Registry { defs, db }
    }

    /// The database.
    pub fn db(&self) -> (d: &Database)
        requires
            self.wf(),
        ensures
            d.wf(),
            *d == self.database(),
    {
        &self.db
    }

    /// A copy of the definitions, in listing order.
    pub fn list_definitions(&self) -> (v: Vec<Definition>)
        ensures
            v@ == self.definitions(),
    {
        let mut v: Vec<Definition> = Vec::new();
        let mut i: usize = 0;
        while i < self.defs.len()
            invariant
                i <= self.defs@.len(),
                v@ == self.defs@.take(i as int),
            decreases self.defs@.len() - i,
        {
            v.push(self.defs[i].duplicate());
            proof {
                assert(self.defs@.take(i + 1) =~= self.defs@.take(i as int).push(self.defs@[i as int]));
            }
            i = i + 1;
        }
        proof {
            assert(self.defs@.take(self.defs@.len() as int) =~= self.defs@);
        }
        v
    }

    /// Reloads currency definitions from a definitions file: its entries are
    /// registered in the database; the units named like one of them are
    /// dropped from the list, and the new definitions are added in name
    /// order, after the entries of the same name.
    pub fn reload_currency(&mut self, content: &str, outside: &Vec<(String, String)>, includes: &Vec<(String, String)>)
        requires
            old(self).wf(),
        ensures
            final(self).wf(),
            exists|news: Seq<Definition>|
                {
                    &&& defs_valid(news)
                    &&& defs_view(news) == file_definitions(content@, vars_view(outside@), vars_view(includes@))
                    &&& final(self).definitions() == insert_all_by_name(kept_defs(old(self).definitions(), news), news)
                    &&& registered(
                        old(self).database().content(),
                        registrations(defs_view(news)),
                        final(self).database().content(),
                    )
                },
    {
        let mut set: Vec<(String, String)> = Vec::new();
        proof {
            assert(vars_view(set@) =~= Seq::<(Seq<char>, Seq<char>)>::empty());
        }
        let news = load_core(content, &mut set, outside, includes, &mut self.db, MAX_INCLUDE_DEPTH);
        let ghost old_defs = self.defs@;
        // keep all but the units that the new definitions rename
        let mut kept: Vec<Definition> = Vec::new();
        let mut i: usize = 0;
        while i < self.defs.len()
            invariant
                i <= self.defs@.len(),
                self.defs@ == old_defs,
                defs_valid(old_defs),
                sorted_by_name(old_defs),
                kept@ == kept_defs(old_defs.take(i as int), news@),
            decreases self.defs@.len() - i,
        {
            let d = &self.defs[i];
            let mut named = false;
            let mut j: usize = 0;
            while j < news.len() && !named
                invariant
                    j <= news@.len(),
                    named ==> has_def_named(news@, d.name@),
                    !named ==> forall|q: int| 0 <= q < j ==> #[trigger] news@[q].name@ != d.name@,
                decreases news@.len() - j, (if named { 0int } else { 1int }),
            {
                if news[j].name == d.name {
                    named = true;
                } else {
                    j = j + 1;
                }
            }
            proof {
                assert(old_defs.take(i + 1).drop_last() =~= old_defs.take(i as int));
                assert(old_defs.take(i + 1).last() == old_defs[i as int]);
            }
            if d.kind != DefinitionKind::Unit || !named {
                kept.push(d.duplicate());
            }
            i = i + 1;
        }
        proof {
            assert(old_defs.take(old_defs.len() as int) =~= old_defs);
        }
        // add the new definitions by name
        let ghost target = insert_all_by_name(kept@, news@);
        let mut k: usize = 0;
        proof {
            assert(news@.skip(0) =~= news@);
        }
        while k < news.len()
            invariant
                k <= news@.len(),
                target == insert_all_by_name(kept@, news@.skip(k as int)),
            decreases news@.len() - k,
        {
            let d = &news[k];
            let dn = to_chars(d.name.as_str());
            let mut p: usize = 0;
            let mut found = false;
            proof {
                assert(kept@.skip(0) =~= kept@);
            }
            while p < kept.len() && !found
                invariant
                    p <= kept@.len(),
                    k < news@.len(),
                    dn@ == news@[k as int].name@,
                    upper_index(kept@, news@[k as int]) == (if found { p as int } else { p + upper_index(kept@.skip(p as int), news@[k as int]) }),
                decreases kept@.len() - p, (if found { 0int } else { 1int }),
            {
                let kn = to_chars(kept[p].name.as_str());
                proof {
                    assert(kept@.skip(p as int)[0] == kept@[p as int]);
                    assert(kept@.skip(p as int).drop_first() =~= kept@.skip(p + 1));
                }
                if chars_less(&dn, &kn) {
                    found = true;
                } else {
                    p = p + 1;
                }
            }
            proof {
                if !found {
                    assert(kept@.skip(p as int) =~= Seq::<Definition>::empty());
                }
                assert(news@.skip(k as int)[0] == news@[k as int]);
                assert(news@.skip(k as int).drop_first() =~= news@.skip(k + 1));
            }
            kept.insert(p, d.duplicate());
            k = k + 1;
        }
        proof {
            assert(news@.skip(k as int) =~= Seq::<Definition>::empty());
        }
        self.defs = kept;
        proof {
            lemma_reload_valid(old_defs, news@);
        }
    }
}

proof fn lemma_kept_props(old: Seq<Definition>, news: Seq<Definition>)
    requires
        defs_valid(old),
        sorted_by_name(old),
    ensures
        defs_valid(kept_defs(old, news)),
        sorted_by_name(kept_defs(old, news)),
        forall|i: int| 0 <= i < kept_defs(old, news).len() ==> exists|j: int| 0 <= j < old.len() && #[trigger] kept_defs(old, news)[i] == old[j],
        kept_defs(old, news).len() <= old.len(),
    decreases old.len(),
{
    if old.len() > 0 {
        let o2 = old.drop_last();
        assert forall|i: int, j: int| 0 <= i < j < o2.len() implies !chars_lt(#[trigger] o2[j].name@, #[trigger] o2[i].name@) by {
            assert(o2[i] == old[i] && o2[j] == old[j]);
        }
        assert forall|i: int| 0 <= i < o2.len() implies def_valid(#[trigger] o2[i]) by {
            assert(o2[i] == old[i]);
        }
        lemma_kept_props(o2, news);
        let rest = kept_defs(o2, news);
        let d = old.last();
        assert forall|i: int| 0 <= i < rest.len() implies exists|j: int| 0 <= j < old.len() && #[trigger] rest[i] == old[j] by {
            let j = choose|j: int| 0 <= j < o2.len() && rest[i] == o2[j];
            assert(rest[i] == old[j]);
        }
        if d.kind != DefinitionKind::Unit || !has_def_named(news, d.name@) {
            let r = rest.push(d);
            assert forall|i: int, j: int| 0 <= i < j < r.len() implies !chars_lt(#[trigger] r[j].name@, #[trigger] r[i].name@) by {
                if j == rest.len() {
                    let jj = choose|jj: int| 0 <= jj < o2.len() && rest[i] == o2[jj];
                    assert(r[i] == old[jj]);
                    assert(r[j] == old[old.len() - 1]);
                } else {
                    assert(r[i] == rest[i] && r[j] == rest[j]);
                }
            }
            assert forall|i: int| 0 <= i < r.len() implies exists|j: int| 0 <= j < old.len() && #[trigger] r[i] == old[j] by {
                if i == rest.len() {
                    assert(r[i] == old[old.len() - 1]);
                } else {
                    assert(r[i] == rest[i]);
                }
            }
            assert forall|i: int| 0 <= i < r.len() implies def_valid(#[trigger] r[i]) by {
                if i < rest.len() {
                    assert(r[i] == rest[i]);
                }
            }
        }
    }
}

proof fn lemma_insert_all_props(s: Seq<Definition>, news: Seq<Definition>)
    requires
        defs_valid(s),
        defs_valid(news),
        sorted_by_name(s),
    ensures
        defs_valid(insert_all_by_name(s, news)),
        sorted_by_name(insert_all_by_name(s, news)),
    decreases news.len(),
{
    if news.len() > 0 {
        let d = news[0];
        lemma_upper_index(s, d);
        lemma_insert_keeps_sorted(s, d);
        let t = s.insert(upper_index(s, d), d);
        assert forall|i: int| 0 <= i < t.len() implies def_valid(#[trigger] t[i]) by {
            let p = upper_index(s, d);
            if i < p {
                assert(t[i] == s[i]);
            } else if i > p {
                assert(t[i] == s[i - 1]);
            }
        }
        let n2 = news.drop_first();
        assert forall|i: int| 0 <= i < n2.len() implies def_valid(#[trigger] n2[i]) by {
            assert(n2[i] == news[i + 1]);
        }
        lemma_insert_all_props(t, n2);
    }
}

proof fn lemma_reload_valid(old: Seq<Definition>, news: Seq<Definition>)
    requires
        defs_valid(old),
        sorted_by_name(old),
        defs_valid(news),
    ensures
        defs_valid(insert_all_by_name(kept_defs(old, news), news)),
        sorted_by_name(insert_all_by_name(kept_defs(old, news), news)),
{
    lemma_kept_props(old, news);
    lemma_insert_all_props(kept_defs(old, news), news);
}

/// Inserting by name loses nothing and adds nothing: the result holds
/// every entry of `s` and every new definition, and nothing else.
pub proof fn lemma_insert_all_contents(s: Seq<Definition>, news: Seq<Definition>)
    ensures
        insert_all_by_name(s, news).len() == s.len() + news.len(),
        forall|d: Definition| #[trigger] s.contains(d) ==> insert_all_by_name(s, news).contains(d),
        forall|d: Definition| #[trigger] news.contains(d) ==> insert_all_by_name(s, news).contains(d),
        forall|d: Definition|
            #[trigger] insert_all_by_name(s, news).contains(d) ==> s.contains(d) || news.contains(d),
    decreases news.len(),
{
    if news.len() > 0 {
        let d0 = news[0];
        let p = upper_index(s, d0);
        lemma_upper_index_bound(s, d0);
        let t = s.insert(p, d0);
        let n2 = news.drop_first();
        lemma_insert_all_contents(t, n2);
        assert forall|d: Definition| #[trigger] s.contains(d) implies insert_all_by_name(s, news).contains(d) by {
            let i = choose|i: int| 0 <= i < s.len() && s[i] == d;
            if i < p {
                assert(t[i] == d);
            } else {
                assert(t[i + 1] == d);
            }
            assert(t.contains(d));
        }
        assert forall|d: Definition| #[trigger] news.contains(d) implies insert_all_by_name(s, news).contains(d) by {
            let i = choose|i: int| 0 <= i < news.len() && news[i] == d;
            if i == 0 {
                assert(t[p] == d);
                assert(t.contains(d));
            } else {
                assert(n2[i - 1] == d);
                assert(n2.contains(d));
            }
        }
        assert forall|d: Definition| #[trigger] insert_all_by_name(s, news).contains(d) implies s.contains(d)
            || news.contains(d) by {
            if t.contains(d) {
                let i = choose|i: int| 0 <= i < t.len() && t[i] == d;
                if i < p {
                    assert(s[i] == d);
                } else if i == p {
                    assert(news[0] == d);
                } else {
                    assert(s[i - 1] == d);
                }
            } else {
                let i = choose|i: int| 0 <= i < n2.len() && n2[i] == d;
                assert(news[i + 1] == d);
            }
        }
    }
}

/// Inserting by name permutes the entries: the result holds the entries
/// of `s` followed by `news`, each as often as there.
pub proof fn lemma_insert_all_permutes(s: Seq<Definition>, news: Seq<Definition>)
    ensures
        insert_all_by_name(s, news).to_multiset() == (s + news).to_multiset(),
    decreases news.len(),
{
    broadcast use vstd::multiset::group_multiset_axioms;

    if news.len() == 0 {
        assert(s + news =~= s);
    } else {
        let d0 = news[0];
        lemma_upper_index_bound(s, d0);
        let t = s.insert(upper_index(s, d0), d0);
        let n2 = news.drop_first();
        lemma_insert_all_permutes(t, n2);
        vstd::seq_lib::to_multiset_insert(s, upper_index(s, d0), d0);
        vstd::seq_lib::lemma_multiset_commutative(t, n2);
        vstd::seq_lib::lemma_multiset_commutative(s, news);
        assert(news =~= seq![d0] + n2);
        vstd::seq_lib::lemma_multiset_commutative(seq![d0], n2);
        assert(seq![d0].to_multiset() =~= vstd::multiset::Multiset::empty().insert(d0)) by {
            assert(seq![d0] =~= Seq::<Definition>::empty().push(d0));
            vstd::seq_lib::to_multiset_build(Seq::<Definition>::empty(), d0);
            vstd::seq_lib::to_multiset_len(Seq::<Definition>::empty());
            vstd::multiset::lemma_multiset_empty_len(Seq::<Definition>::empty().to_multiset());
        }
        assert((t + n2).to_multiset() =~= (s + news).to_multiset());
    }
}

/// The definitions `v` in name order, equal names keeping their order in
/// `v`: each entry in turn put after the entries whose names are not
/// greater (a stable sort by name).
pub open spec fn sort_by_name(v: Seq<Definition>) -> Seq<Definition>
    decreases v.len(),
{
    if v.len() == 0 {
        v
    } else {
        let t = sort_by_name(v.drop_last());
        t.insert(upper_index(t, v.last()), v.last())
    }
}

proof fn lemma_upper_index_end(s: Seq<Definition>, d: Definition)
    requires
        forall|i: int| 0 <= i < s.len() ==> !chars_lt(d.name@, #[trigger] s[i].name@),
    ensures
        upper_index(s, d) == s.len(),
    decreases s.len(),
{
    if s.len() > 0 {
        let t = s.drop_first();
        assert forall|i: int| 0 <= i < t.len() implies !chars_lt(d.name@, #[trigger] t[i].name@) by {
            assert(t[i] == s[i + 1]);
        }
        lemma_upper_index_end(t, d);
    }
}

proof fn lemma_sort_sorted(s: Seq<Definition>)
    requires
        sorted_by_name(s),
    ensures
        sort_by_name(s) == s,
    decreases s.len(),
{
    if s.len() > 0 {
        let p = s.drop_last();
        assert forall|i: int, j: int| 0 <= i < j < p.len() implies !chars_lt(#[trigger] p[j].name@, #[trigger] p[i].name@) by {
            assert(p[i] == s[i] && p[j] == s[j]);
        }
        lemma_sort_sorted(p);
        assert forall|i: int| 0 <= i < p.len() implies !chars_lt(s.last().name@, #[trigger] p[i].name@) by {
            assert(p[i] == s[i]);
        }
        lemma_upper_index_end(p, s.last());
        assert(p.insert(p.len() as int, s.last()) =~= s);
    }
}

proof fn lemma_insert_all_push(t: Seq<Definition>, news: Seq<Definition>, x: Definition)
    ensures
        insert_all_by_name(t, news.push(x)) == {
            let r = insert_all_by_name(t, news);
            r.insert(upper_index(r, x), x)
        },
    decreases news.len(),
{
    lemma_upper_index_bound(t, x);
    if news.len() == 0 {
        assert(news.push(x).drop_first() =~= news);
        assert(news.push(x)[0] == x);
        let t1 = t.insert(upper_index(t, x), x);
        assert(insert_all_by_name(t, news) == t);
        assert(insert_all_by_name(t1, news) == t1);
        assert(insert_all_by_name(t, news.push(x)) == insert_all_by_name(t1, news.push(x).drop_first()));
    } else {
        lemma_upper_index_bound(t, news[0]);
        let t2 = t.insert(upper_index(t, news[0]), news[0]);
        assert(news.push(x).drop_first() =~= news.drop_first().push(x));
        assert(news.push(x)[0] == news[0]);
        lemma_insert_all_push(t2, news.drop_first(), x);
        assert(insert_all_by_name(t, news.push(x)) == insert_all_by_name(t2, news.push(x).drop_first()));
        assert(insert_all_by_name(t, news) == insert_all_by_name(t2, news.drop_first()));
    }
}

proof fn lemma_sort_append(s: Seq<Definition>, news: Seq<Definition>)
    ensures
        sort_by_name(s + news) == insert_all_by_name(sort_by_name(s), news),
    decreases news.len(),
{
    if news.len() == 0 {
        assert(s + news =~= s);
    } else {
        let n0 = news.drop_last();
        lemma_sort_append(s, n0);
        assert((s + news).drop_last() =~= s + n0);
        assert((s + news).last() == news.last());
        assert(n0.push(news.last()) =~= news);
        lemma_insert_all_push(sort_by_name(s), n0, news.last());
    }
}

/// A reload keeps the definitions in a stable sort by name of the kept
/// definitions followed by the new ones, and holds each of them as often
/// as they occur there.
pub proof fn lemma_reload_is_stable_sort(old: Seq<Definition>, news: Seq<Definition>)
    requires
        defs_valid(old),
        sorted_by_name(old),
    ensures
        insert_all_by_name(kept_defs(old, news), news) == sort_by_name(kept_defs(old, news) + news),
        insert_all_by_name(kept_defs(old, news), news).to_multiset() == (kept_defs(old, news) + news).to_multiset(),
{
    lemma_kept_props(old, news);
    lemma_sort_sorted(kept_defs(old, news));
    lemma_sort_append(kept_defs(old, news), news);
    lemma_insert_all_permutes(kept_defs(old, news), news);
}

proof fn lemma_upper_index_bound(s: Seq<Definition>, d: Definition)
    ensures
        0 <= upper_index(s, d) <= s.len(),
    decreases s.len(),
{
    if s.len() > 0 && !chars_lt(d.name@, s[0].name@) {
        lemma_upper_index_bound(s.drop_first(), d);
    }
}

/// A registry lists its definitions by name, each named, with a kind that
/// fits its name (a prefix ends in `-`, a table holds `[`, a function `(`).
pub proof fn lemma_registry_listing(r: Registry)
    requires
        r.wf(),
    ensures
        sorted_by_name(r.definitions()),
        defs_valid(r.definitions()),
{
}

} // verus!
