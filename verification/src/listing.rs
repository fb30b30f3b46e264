//! The base-units text of a quantity determines its dimensions, as long as
//! every primitive name prints as one unambiguous word.
use vstd::prelude::*;

use crate::dims::{
    chars_lt, denominator_words, is_sorted_listing, join_words, lemma_chars_lt_irreflexive, numerator_words,
    units_text,
};
use crate::unit::{nonzero_exponents, Unit};

verus! {

/// A primitive name that prints as one unambiguous word: not empty,
/// without spaces, and neither `1` nor `/`.
pub open spec fn plain_name(k: Seq<char>) -> bool {
    &&& k.len() > 0
    &&& forall|i: int| 0 <= i < k.len() ==> #[trigger] k[i] != ' '
    &&& k != seq!['1']
    &&& k != seq!['/']
}

/// A word: not empty and without spaces.
pub open spec fn is_word(w: Seq<char>) -> bool {
    w.len() > 0 && forall|i: int| 0 <= i < w.len() ==> #[trigger] w[i] != ' '
}

/// Every element is a word.
pub open spec fn all_words(s: Seq<Seq<char>>) -> bool {
    forall|i: int| 0 <= i < s.len() ==> is_word(#[trigger] s[i])
}

proof fn lemma_join_last(w: Seq<Seq<char>>)
    requires
        w.len() >= 2,
        all_words(w),
    ensures
        join_words(w) == join_words(w.drop_last()) + seq![' '] + w.last(),
        join_words(w)[join_words(w).len() - w.last().len() - 1] == ' ',
        join_words(w).len() > w.last().len(),
{
    let t = join_words(w);
    let a = join_words(w.drop_last());
    assert(t == a + seq![' '] + w.last());
    assert(t[a.len() as int] == ' ');
}

proof fn lemma_join_single(w: Seq<Seq<char>>)
    requires
        w.len() == 1,
        all_words(w),
    ensures
        join_words(w) == w[0],
        forall|i: int| 0 <= i < join_words(w).len() ==> #[trigger] join_words(w)[i] != ' ',
        join_words(w).len() > 0,
{
    assert(is_word(w[0]));
}

/// Joining words with single spaces loses nothing.
proof fn lemma_join_injective(v: Seq<Seq<char>>, w: Seq<Seq<char>>)
    requires
        all_words(v),
        all_words(w),
        join_words(v) == join_words(w),
    ensures
        v == w,
    decreases v.len() + w.len(),
{
    if v.len() == 0 && w.len() == 0 {
        assert(v =~= w);
    } else if v.len() == 0 {
        if w.len() == 1 {
            lemma_join_single(w);
        } else {
            lemma_join_last(w);
        }
    } else if w.len() == 0 {
        if v.len() == 1 {
            lemma_join_single(v);
        } else {
            lemma_join_last(v);
        }
    } else if v.len() == 1 && w.len() == 1 {
        lemma_join_single(v);
        lemma_join_single(w);
        assert(v =~= w);
    } else if v.len() == 1 {
        lemma_join_single(v);
        lemma_join_last(w);
    } else if w.len() == 1 {
        lemma_join_single(w);
        lemma_join_last(v);
    } else {
        lemma_join_last(v);
        lemma_join_last(w);
        let t = join_words(v);
        let a = v.last();
        let b = w.last();
        assert(is_word(a));
        assert(is_word(b));
        let n = t.len();
        if a.len() < b.len() {
            let j = n - a.len() - 1;
            assert(t[j] == ' ');
            assert(t[j] == b[j - (n - b.len())]);
        } else if b.len() < a.len() {
            let j = n - b.len() - 1;
            assert(t[j] == ' ');
            assert(t[j] == a[j - (n - a.len())]);
        } else {
            assert(a =~= t.skip(n - a.len()));
            assert(b =~= t.skip(n - b.len()));
            assert(join_words(v.drop_last()) =~= t.take(n - a.len() - 1));
            assert(join_words(w.drop_last()) =~= t.take(n - b.len() - 1));
            lemma_join_injective(v.drop_last(), w.drop_last());
            assert(v =~= v.drop_last().push(a));
            assert(w =~= w.drop_last().push(b));
        }
    }
}

/// The words of the base-units text of listing `p`: the numerator words
/// (or `1` when there are none but the denominator has some), then `/` and
/// the denominator words.
pub open spec fn text_words(p: Seq<(Seq<char>, int)>) -> Seq<Seq<char>> {
    let n = numerator_words(p);
    let d = denominator_words(p);
    if d.len() == 0 {
        n
    } else {
        (if n.len() == 0 {
            seq![seq!['1']]
        } else {
            n
        }) + seq![seq!['/']] + d
    }
}

proof fn lemma_join_concat(a: Seq<Seq<char>>, b: Seq<Seq<char>>)
    requires
        a.len() > 0,
        b.len() > 0,
    ensures
        join_words(a + b) == join_words(a) + seq![' '] + join_words(b),
    decreases b.len(),
{
    if b.len() == 1 {
        assert((a + b).drop_last() =~= a);
        assert((a + b).last() == b[0]);
    } else {
        lemma_join_concat(a, b.drop_last());
        assert((a + b).drop_last() =~= a + b.drop_last());
        assert((a + b).last() == b.last());
        assert(join_words(a + b) =~= join_words(a) + seq![' '] + join_words(b));
    }
}

/// The base-units text is its words joined by spaces.
proof fn lemma_units_text_words(p: Seq<(Seq<char>, int)>)
    ensures
        units_text(p) == join_words(text_words(p)),
{
    let n = numerator_words(p);
    let d = denominator_words(p);
    if d.len() > 0 {
        let x: Seq<Seq<char>> = if n.len() == 0 {
            seq![seq!['1']]
        } else {
            n
        };
        let xs = x + seq![seq!['/']];
        lemma_join_concat(xs, d);
        assert(xs.drop_last() =~= x);
        assert(join_words(xs) == join_words(x) + seq![' '] + seq!['/']);
        if n.len() == 0 {
            assert(join_words(x) == seq!['1']);
        }
        assert(units_text(p) =~= join_words(text_words(p)));
    }
}

/// Every name of the listing prints as one unambiguous word.
pub open spec fn names_plain(p: Seq<(Seq<char>, int)>) -> bool {
    forall|i: int| 0 <= i < p.len() ==> plain_name(#[trigger] p[i].0)
}

/// Every element is a plain name.
pub open spec fn all_plain(s: Seq<Seq<char>>) -> bool {
    forall|i: int| 0 <= i < s.len() ==> plain_name(#[trigger] s[i])
}

proof fn lemma_words_plain(p: Seq<(Seq<char>, int)>)
    requires
        names_plain(p),
    ensures
        all_plain(numerator_words(p)),
        all_plain(denominator_words(p)),
    decreases p.len(),
{
    if p.len() > 0 {
        let q = p.drop_last();
        assert(names_plain(q)) by {
            assert forall|i: int| 0 <= i < q.len() implies plain_name(#[trigger] q[i].0) by {
                assert(q[i] == p[i]);
            }
        }
        lemma_words_plain(q);
        assert(plain_name(p[p.len() - 1].0));
        let x = p.last().0;
        let a = numerator_words(q);
        let b = denominator_words(q);
        let n = numerator_words(p);
        let d = denominator_words(p);
        assert forall|j: int| 0 <= j < n.len() implies plain_name(#[trigger] n[j]) by {
            if j < a.len() {
                assert(n[j] == a[j]);
            } else {
                assert(n[j] == x);
            }
        }
        assert forall|j: int| 0 <= j < d.len() implies plain_name(#[trigger] d[j]) by {
            if j < b.len() {
                assert(d[j] == b[j]);
            } else {
                assert(d[j] == x);
            }
        }
    }
}

proof fn lemma_plain_words(s: Seq<Seq<char>>)
    requires
        all_plain(s),
    ensures
        all_words(s),
{
    assert forall|i: int| 0 <= i < s.len() implies is_word(#[trigger] s[i]) by {
        assert(plain_name(s[i]));
    }
}

proof fn lemma_text_words_are_words(p: Seq<(Seq<char>, int)>)
    requires
        names_plain(p),
    ensures
        all_words(text_words(p)),
{
    lemma_words_plain(p);
    let n = numerator_words(p);
    let d = denominator_words(p);
    lemma_plain_words(n);
    lemma_plain_words(d);
    let w = text_words(p);
    if d.len() > 0 {
        let x: Seq<Seq<char>> = if n.len() == 0 {
            seq![seq!['1']]
        } else {
            n
        };
        assert forall|i: int| 0 <= i < w.len() implies is_word(#[trigger] w[i]) by {
            if i < x.len() {
                assert(w[i] == x[i]);
                if n.len() == 0 {
                    assert(x[i] == seq!['1']);
                    assert(seq!['1'][0] != ' ');
                }
            } else if i == x.len() {
                assert(w[i] == seq!['/']);
                assert(seq!['/'][0] != ' ');
            } else {
                assert(w[i] == d[i - x.len() - 1]);
            }
        }
    }
}

/// The words of the text give back the numerator and denominator words.
proof fn lemma_text_words_split(p: Seq<(Seq<char>, int)>, q: Seq<(Seq<char>, int)>)
    requires
        names_plain(p),
        names_plain(q),
        text_words(p) == text_words(q),
    ensures
        numerator_words(p) == numerator_words(q),
        denominator_words(p) == denominator_words(q),
{
    lemma_words_plain(p);
    lemma_words_plain(q);
    let n1 = numerator_words(p);
    let d1 = denominator_words(p);
    let n2 = numerator_words(q);
    let d2 = denominator_words(q);
    let w = text_words(p);
    let x1: Seq<Seq<char>> = if n1.len() == 0 {
        seq![seq!['1']]
    } else {
        n1
    };
    let x2: Seq<Seq<char>> = if n2.len() == 0 {
        seq![seq!['1']]
    } else {
        n2
    };
    assert(forall|i: int| 0 <= i < x1.len() ==> #[trigger] x1[i] != seq!['/']) by {
        assert forall|i: int| 0 <= i < x1.len() implies #[trigger] x1[i] != seq!['/'] by {
            if n1.len() == 0 {
                assert(seq!['1'][0] != seq!['/'][0]);
            } else {
                assert(plain_name(n1[i]));
            }
        }
    }
    assert(forall|i: int| 0 <= i < x2.len() ==> #[trigger] x2[i] != seq!['/']) by {
        assert forall|i: int| 0 <= i < x2.len() implies #[trigger] x2[i] != seq!['/'] by {
            if n2.len() == 0 {
                assert(seq!['1'][0] != seq!['/'][0]);
            } else {
                assert(plain_name(n2[i]));
            }
        }
    }
    if d1.len() == 0 && d2.len() > 0 {
        let j = x2.len() as int;
        assert(w[j] == seq!['/']);
        assert(plain_name(n1[j]));
    } else if d2.len() == 0 && d1.len() > 0 {
        let j = x1.len() as int;
        assert(w[j] == seq!['/']);
        assert(plain_name(n2[j]));
    } else if d1.len() > 0 {
        if x1.len() < x2.len() {
            let j = x1.len() as int;
            assert(w[j] == seq!['/']);
            assert(w[j] == x2[j]);
        } else if x2.len() < x1.len() {
            let j = x2.len() as int;
            assert(w[j] == seq!['/']);
            assert(w[j] == x1[j]);
        } else {
            assert(x1 =~= w.take(x1.len() as int));
            assert(x2 =~= w.take(x2.len() as int));
            assert(d1 =~= w.skip(x1.len() as int + 1));
            assert(d2 =~= w.skip(x2.len() as int + 1));
            if n1.len() == 0 && n2.len() > 0 {
                assert(n2[0] == seq!['1']);
                assert(plain_name(n2[0]));
            } else if n2.len() == 0 && n1.len() > 0 {
                assert(n1[0] == seq!['1']);
                assert(plain_name(n1[0]));
            } else if n1.len() == 0 {
                assert(n1 =~= n2);
            }
        }
    }
}

/// How often `k` occurs in `s`.
pub open spec fn occurrences(s: Seq<Seq<char>>, k: Seq<char>) -> int
    decreases s.len(),
{
    if s.len() == 0 {
        0
    } else {
        occurrences(s.drop_last(), k) + (if s.last() == k {
            1int
        } else {
            0int
        })
    }
}

/// The exponent of `k` in the listing `p` (its last entry for `k`), zero
/// when absent.
pub open spec fn exponent_in(p: Seq<(Seq<char>, int)>, k: Seq<char>) -> int
    decreases p.len(),
{
    if p.len() == 0 {
        0
    } else if p.last().0 == k {
        p.last().1
    } else {
        exponent_in(p.drop_last(), k)
    }
}

/// No name occurs twice in the listing.
pub open spec fn distinct_names(p: Seq<(Seq<char>, int)>) -> bool {
    forall|i: int, j: int| 0 <= i < j < p.len() ==> #[trigger] p[i].0 != #[trigger] p[j].0
}

proof fn lemma_occurrences_concat(a: Seq<Seq<char>>, b: Seq<Seq<char>>, k: Seq<char>)
    ensures
        occurrences(a + b, k) == occurrences(a, k) + occurrences(b, k),
    decreases b.len(),
{
    if b.len() == 0 {
        assert(a + b =~= a);
    } else {
        lemma_occurrences_concat(a, b.drop_last(), k);
        assert((a + b).drop_last() =~= a + b.drop_last());
    }
}

proof fn lemma_occurrences_repeat(x: Seq<char>, n: nat, k: Seq<char>)
    ensures
        occurrences(Seq::new(n, |i: int| x), k) == (if x == k {
            n as int
        } else {
            0
        }),
    decreases n,
{
    if n > 0 {
        lemma_occurrences_repeat(x, (n - 1) as nat, k);
        assert(Seq::new(n, |i: int| x).drop_last() =~= Seq::new((n - 1) as nat, |i: int| x));
    }
}

proof fn lemma_exponent_absent(p: Seq<(Seq<char>, int)>, k: Seq<char>)
    requires
        forall|i: int| 0 <= i < p.len() ==> #[trigger] p[i].0 != k,
    ensures
        exponent_in(p, k) == 0,
    decreases p.len(),
{
    if p.len() > 0 {
        assert(p[p.len() - 1].0 != k);
        let q = p.drop_last();
        assert forall|i: int| 0 <= i < q.len() implies #[trigger] q[i].0 != k by {
            assert(q[i] == p[i]);
        }
        lemma_exponent_absent(q, k);
    }
}

proof fn lemma_word_counts(p: Seq<(Seq<char>, int)>, k: Seq<char>)
    requires
        distinct_names(p),
    ensures
        occurrences(numerator_words(p), k) == (if exponent_in(p, k) > 0 {
            exponent_in(p, k)
        } else {
            0
        }),
        occurrences(denominator_words(p), k) == (if exponent_in(p, k) < 0 {
            -exponent_in(p, k)
        } else {
            0
        }),
    decreases p.len(),
{
    if p.len() > 0 {
        let q = p.drop_last();
        let x = p.last().0;
        let e = p.last().1;
        assert(distinct_names(q)) by {
            assert forall|i: int, j: int| 0 <= i < j < q.len() implies #[trigger] q[i].0 != #[trigger] q[j].0 by {
                assert(q[i] == p[i] && q[j] == p[j]);
            }
        }
        lemma_word_counts(q, k);
        let rn: Seq<Seq<char>> = if e > 0 {
            Seq::new(e as nat, |i: int| x)
        } else {
            Seq::empty()
        };
        let rd: Seq<Seq<char>> = if e < 0 {
            Seq::new((-e) as nat, |i: int| x)
        } else {
            Seq::empty()
        };
        assert(numerator_words(p) =~= numerator_words(q) + rn);
        assert(denominator_words(p) =~= denominator_words(q) + rd);
        lemma_occurrences_concat(numerator_words(q), rn, k);
        lemma_occurrences_concat(denominator_words(q), rd, k);
        if e > 0 {
            lemma_occurrences_repeat(x, e as nat, k);
        }
        if e < 0 {
            lemma_occurrences_repeat(x, (-e) as nat, k);
        }
        if x == k {
            assert forall|i: int| 0 <= i < q.len() implies #[trigger] q[i].0 != k by {
                assert(q[i] == p[i]);
                assert(p[i].0 != p[p.len() - 1].0);
            }
            lemma_exponent_absent(q, k);
        }
    }
}

proof fn lemma_exponent_of_listing(p: Seq<(Seq<char>, int)>, m: Map<Seq<char>, int>, k: Seq<char>)
    requires
        is_sorted_listing(p, m),
        distinct_names(p),
    ensures
        exponent_in(p, k) == (if m.contains_key(k) {
            m[k]
        } else {
            0
        }),
{
    if m.contains_key(k) {
        let i = choose|i: int| 0 <= i < p.len() && p[i].0 == k;
        lemma_exponent_at(p, i);
    } else {
        assert forall|i: int| 0 <= i < p.len() implies #[trigger] p[i].0 != k by {
            assert(m.contains_key(p[i].0));
        }
        lemma_exponent_absent(p, k);
    }
}

proof fn lemma_exponent_at(p: Seq<(Seq<char>, int)>, i: int)
    requires
        distinct_names(p),
        0 <= i < p.len(),
    ensures
        exponent_in(p, p[i].0) == p[i].1,
    decreases p.len(),
{
    if i < p.len() - 1 {
        let q = p.drop_last();
        assert(p[i].0 != p[p.len() - 1].0);
        assert(distinct_names(q)) by {
            assert forall|a: int, b: int| 0 <= a < b < q.len() implies #[trigger] q[a].0 != #[trigger] q[b].0 by {
                assert(q[a] == p[a] && q[b] == p[b]);
            }
        }
        assert(q[i] == p[i]);
        lemma_exponent_at(q, i);
    }
}

proof fn lemma_sorted_distinct(p: Seq<(Seq<char>, int)>, m: Map<Seq<char>, int>)
    requires
        is_sorted_listing(p, m),
    ensures
        distinct_names(p),
{
    assert forall|i: int, j: int| 0 <= i < j < p.len() implies #[trigger] p[i].0 != #[trigger] p[j].0 by {
        assert(chars_lt(p[i].0, p[j].0));
        lemma_chars_lt_irreflexive(p[i].0);
    }
}

/// Two quantities whose primitive names each print as one unambiguous
/// word (see [`plain_name`]) have the same dimensions exactly when their
/// base-units texts are equal: the text lists each name as often as its
/// exponent, before or after ` / `.
pub proof fn lemma_same_text_same_dimensions(
    p: Seq<(Seq<char>, int)>,
    q: Seq<(Seq<char>, int)>,
    a: Map<Seq<char>, int>,
    b: Map<Seq<char>, int>,
)
    requires
        is_sorted_listing(p, a),
        is_sorted_listing(q, b),
        nonzero_exponents(a),
        nonzero_exponents(b),
        forall|k: Seq<char>| #[trigger] a.contains_key(k) ==> plain_name(k),
        forall|k: Seq<char>| #[trigger] b.contains_key(k) ==> plain_name(k),
    ensures
        (units_text(p) == units_text(q)) <==> (a == b),
{
    assert(names_plain(p)) by {
        assert forall|i: int| 0 <= i < p.len() implies plain_name(#[trigger] p[i].0) by {
            assert(a.contains_key(p[i].0));
        }
    }
    assert(names_plain(q)) by {
        assert forall|i: int| 0 <= i < q.len() implies plain_name(#[trigger] q[i].0) by {
            assert(b.contains_key(q[i].0));
        }
    }
    lemma_sorted_distinct(p, a);
    lemma_sorted_distinct(q, b);
    if a == b {
        crate::unit::lemma_sorted_listing_unique(p, q, a);
    }
    if units_text(p) == units_text(q) {
        lemma_units_text_words(p);
        lemma_units_text_words(q);
        lemma_text_words_are_words(p);
        lemma_text_words_are_words(q);
        lemma_join_injective(text_words(p), text_words(q));
        lemma_text_words_split(p, q);
        assert forall|k: Seq<char>| #[trigger] exponent_in(p, k) == exponent_in(q, k) by {
            lemma_word_counts(p, k);
            lemma_word_counts(q, k);
        }
        assert forall|k: Seq<char>| a.contains_key(k) <==> #[trigger] b.contains_key(k) by {
            lemma_exponent_of_listing(p, a, k);
            lemma_exponent_of_listing(q, b, k);
            assert(exponent_in(p, k) == exponent_in(q, k));
        }
        assert forall|k: Seq<char>| #[trigger] a.contains_key(k) implies a[k] == b[k] by {
            lemma_exponent_of_listing(p, a, k);
            lemma_exponent_of_listing(q, b, k);
            assert(exponent_in(p, k) == exponent_in(q, k));
        }
        assert(a =~= b);
    }
}

/// Two units whose primitive names each print as one unambiguous word are
/// conformable (have the same dimensions, as [`Unit::is_conformable`]
/// tells) exactly when their base-units texts (as [`Unit::base_units`]
/// writes them from the sorted listings `p` and `q`) are equal.
pub proof fn lemma_conformable_iff_same_base_units(
    x: Unit,
    y: Unit,
    p: Seq<(Seq<char>, int)>,
    q: Seq<(Seq<char>, int)>,
)
    requires
        x.wf(),
        y.wf(),
        is_sorted_listing(p, x.dimensions()),
        is_sorted_listing(q, y.dimensions()),
        forall|k: Seq<char>| #[trigger] x.dimensions().contains_key(k) ==> plain_name(k),
        forall|k: Seq<char>| #[trigger] y.dimensions().contains_key(k) ==> plain_name(k),
    ensures
        (x.dimensions() == y.dimensions()) <==> (units_text(p) == units_text(q)),
{
    x.lemma_dimensions();
    y.lemma_dimensions();
    lemma_same_text_same_dimensions(p, q, x.dimensions(), y.dimensions());
}

} // verus!
