//! Dimension vectors: a finite map from primitive unit names to non-zero
//! integer exponents.
use vstd::prelude::*;

use crate::text::to_chars;

verus! {

/// The exponent a map assigns to `k`, zero when `k` is absent.
pub open spec fn exponent_of(m: Map<Seq<char>, int>, k: Seq<char>) -> int {
    if m.contains_key(k) {
        m[k]
    } else {
        0
    }
}

/// The dimension map with exponent `f(k)` at each key in `keys` where `f(k)`
/// is non-zero.
pub open spec fn nonzero_map(keys: Set<Seq<char>>, f: spec_fn(Seq<char>) -> int) -> Map<
    Seq<char>,
    int,
> {
    Map::new(|k: Seq<char>| keys.contains(k) && f(k) != 0, |k: Seq<char>| f(k))
}

/// Pointwise sum of two dimension maps, dropping zero exponents.
pub open spec fn product_dims(a: Map<Seq<char>, int>, b: Map<Seq<char>, int>) -> Map<
    Seq<char>,
    int,
> {
    nonzero_map(a.dom() + b.dom(), |k: Seq<char>| exponent_of(a, k) + exponent_of(b, k))
}

/// Pointwise difference of two dimension maps, dropping zero exponents.
pub open spec fn quotient_dims(a: Map<Seq<char>, int>, b: Map<Seq<char>, int>) -> Map<
    Seq<char>,
    int,
> {
    nonzero_map(a.dom() + b.dom(), |k: Seq<char>| exponent_of(a, k) - exponent_of(b, k))
}

/// `x`, negated when `negate` holds.
pub open spec fn signed(negate: bool, x: int) -> int {
    if negate {
        -x
    } else {
        x
    }
}

/// Negation of an `i32` exponent that wraps at `i32::MIN`.
pub open spec fn wrapping_negate(e: int) -> int {
    if e == i32::MIN as int {
        e
    } else {
        -e
    }
}

/// Every exponent negated (wrapping at `i32::MIN`).
pub open spec fn inverse_dims(a: Map<Seq<char>, int>) -> Map<Seq<char>, int> {
    Map::new(|k: Seq<char>| a.contains_key(k), |k: Seq<char>| wrapping_negate(a[k]))
}

/// Every exponent multiplied by `n`.
pub open spec fn power_dims(a: Map<Seq<char>, int>, n: int) -> Map<Seq<char>, int> {
    nonzero_map(a.dom(), |k: Seq<char>| a[k] * n)
}

/// Every exponent divided by `n`.
pub open spec fn root_dims(a: Map<Seq<char>, int>, n: int) -> Map<Seq<char>, int> {
    Map::new(|k: Seq<char>| a.contains_key(k), |k: Seq<char>| a[k] / n)
}

/// Whether every exponent of `a` is a multiple of `n`.
pub open spec fn divisible_by(a: Map<Seq<char>, int>, n: int) -> bool {
    forall|k: Seq<char>| a.contains_key(k) ==> #[trigger] a[k] % n == 0
}

/// Whether an integer fits in an `i32`.
pub open spec fn fits_i32(x: int) -> bool {
    i32::MIN <= x <= i32::MAX
}

pub(crate) proof fn lemma_neg_divisible(a: int, n: int)
    requires
        n > 0,
        a >= 0,
    ensures
        (a % n == 0) == ((-a) % n == 0),
        a % n == 0 ==> (-a) / n == -(a / n),
        a % n == 0 ==> a == n * (a / n),
{
    vstd::arithmetic::div_mod::lemma_fundamental_div_mod(a, n);
    vstd::arithmetic::div_mod::lemma_fundamental_div_mod(-a, n);
    if a % n == 0 {
        let m = a / n;
        assert(-a == n * (-m)) by (nonlinear_arith)
            requires
                a == n * m + 0,
        ;
        vstd::arithmetic::div_mod::lemma_div_multiples_vanish(-m, n);
        vstd::arithmetic::div_mod::lemma_mod_multiples_basic(-m, n);
        assert((-m) * n == n * (-m)) by (nonlinear_arith);
    }
    if (-a) % n == 0 {
        let m = (-a) / n;
        assert(a == n * (-m)) by (nonlinear_arith)
            requires
                -a == n * m + 0,
        ;
        vstd::arithmetic::div_mod::lemma_mod_multiples_basic(-m, n);
        assert((-m) * n == n * (-m)) by (nonlinear_arith);
    }
}

proof fn lemma_nonzero_product(x: int, y: int)
    by (nonlinear_arith)
    requires
        x != 0,
        y != 0,
    ensures
        x * y != 0,
{
}

proof fn lemma_times_zero(x: int, y: int)
    by (nonlinear_arith)
    requires
        y == 0,
    ensures
        x * y == 0,
{
}

/// Whether `e` is a multiple of `n`.
fn exponent_divisible(e: i32, n: i32) -> (b: bool)
    requires
        n > 0,
    ensures
        b == (e as int % n as int == 0),
{
    let a: u64 = if e < 0 { (0 - (e as i64)) as u64 } else { e as u64 };
    let r = a % (n as u64);
    proof {
        if e < 0 {
            lemma_neg_divisible(a as int, n as int);
            assert(e as int == -(a as int));
        }
    }
    r == 0
}

/// `e / n` for a multiple `e` of `n > 0`.
fn exact_quotient(e: i32, n: i32) -> (q: i32)
    requires
        n > 0,
        e as int % n as int == 0,
    ensures
        q as int == e as int / n as int,
{
    let a: u64 = if e < 0 { (0 - (e as i64)) as u64 } else { e as u64 };
    let qa = a / (n as u64);
    proof {
        lemma_neg_divisible(a as int, n as int);
        if e < 0 {
            assert(e as int == -(a as int));
        }
        vstd::arithmetic::div_mod::lemma_div_is_ordered_by_denominator(a as int, 1, n as int);
    }
    if e < 0 {
        (0 - (qa as i64)) as i32
    } else {
        qa as i32
    }
}

/// Strict lexicographic order on character sequences, which is the order
/// Rust uses on strings.
pub open spec fn chars_lt(a: Seq<char>, b: Seq<char>) -> bool
    decreases a.len(),
{
    if a.len() == 0 {
        b.len() > 0
    } else if b.len() == 0 {
        false
    } else if a[0] != b[0] {
        a[0] < b[0]
    } else {
        chars_lt(a.drop_first(), b.drop_first())
    }
}

pub proof fn lemma_chars_lt_irreflexive(a: Seq<char>)
    ensures
        !chars_lt(a, a),
    decreases a.len(),
{
    if a.len() > 0 {
        lemma_chars_lt_irreflexive(a.drop_first());
    }
}

pub proof fn lemma_chars_lt_total(a: Seq<char>, b: Seq<char>)
    ensures
        a != b ==> chars_lt(a, b) || chars_lt(b, a),
        !(chars_lt(a, b) && chars_lt(b, a)),
    decreases a.len(),
{
    if a.len() > 0 && b.len() > 0 {
        lemma_chars_lt_total(a.drop_first(), b.drop_first());
        if a[0] == b[0] && a != b {
            assert(a =~= seq![a[0]] + a.drop_first());
            assert(b =~= seq![b[0]] + b.drop_first());
        }
    } else if a.len() == 0 && b.len() == 0 {
        assert(a =~= b);
    }
}

pub proof fn lemma_chars_lt_transitive(a: Seq<char>, b: Seq<char>, c: Seq<char>)
    requires
        chars_lt(a, b),
        chars_lt(b, c),
    ensures
        chars_lt(a, c),
    decreases a.len(),
{
    if a.len() > 0 && b.len() > 0 && c.len() > 0 {
        if a[0] == b[0] && b[0] == c[0] {
            lemma_chars_lt_transitive(a.drop_first(), b.drop_first(), c.drop_first());
        }
    }
}

/// Compares two character sequences in Rust's string order.
pub fn chars_less(a: &Vec<char>, b: &Vec<char>) -> (r: bool)
    ensures
        r == chars_lt(a@, b@),
{
    let mut i: usize = 0;
    proof {
        assert(a@.skip(0) =~= a@);
        assert(b@.skip(0) =~= b@);
    }
    while i < a.len() && i < b.len() && a[i] == b[i]
        invariant
            i <= a@.len(),
            i <= b@.len(),
            chars_lt(a@, b@) == chars_lt(a@.skip(i as int), b@.skip(i as int)),
        decreases a@.len() - i,
    {
        proof {
            assert(a@.skip(i as int).drop_first() =~= a@.skip(i + 1));
            assert(b@.skip(i as int).drop_first() =~= b@.skip(i + 1));
        }
        i = i + 1;
    }
    if i == a.len() {
        i < b.len()
    } else if i == b.len() {
        false
    } else {
        a[i] < b[i]
    }
}

/// Words for the numerator: each name repeated as often as its positive exponent.
pub open spec fn numerator_words(p: Seq<(Seq<char>, int)>) -> Seq<Seq<char>>
    decreases p.len(),
{
    if p.len() == 0 {
        Seq::empty()
    } else {
        numerator_words(p.drop_last()) + (if p.last().1 > 0 {
            Seq::new(p.last().1 as nat, |i: int| p.last().0)
        } else {
            Seq::empty()
        })
    }
}

/// Words for the denominator: each name repeated as often as its negative exponent.
pub open spec fn denominator_words(p: Seq<(Seq<char>, int)>) -> Seq<Seq<char>>
    decreases p.len(),
{
    if p.len() == 0 {
        Seq::empty()
    } else {
        denominator_words(p.drop_last()) + (if p.last().1 < 0 {
            Seq::new((-p.last().1) as nat, |i: int| p.last().0)
        } else {
            Seq::empty()
        })
    }
}

/// Words joined by single spaces.
pub open spec fn join_words(w: Seq<Seq<char>>) -> Seq<char>
    decreases w.len(),
{
    if w.len() == 0 {
        Seq::empty()
    } else if w.len() == 1 {
        w[0]
    } else {
        join_words(w.drop_last()) + seq![' '] + w.last()
    }
}

/// The human-readable text for a listing of (name, exponent) pairs,
/// e.g. `kg m / s s`.
pub open spec fn units_text(p: Seq<(Seq<char>, int)>) -> Seq<char> {
    let n = numerator_words(p);
    let d = denominator_words(p);
    if n.len() == 0 && d.len() == 0 {
        Seq::empty()
    } else if d.len() == 0 {
        join_words(n)
    } else {
        (if n.len() == 0 {
            seq!['1']
        } else {
            join_words(n)
        }) + seq![' ', '/', ' '] + join_words(d)
    }
}

/// `p` lists the entries of `m` once each, in increasing name order.
pub open spec fn is_sorted_listing(p: Seq<(Seq<char>, int)>, m: Map<Seq<char>, int>) -> bool {
    &&& forall|i: int, j: int| 0 <= i < j < p.len() ==> chars_lt(#[trigger] p[i].0, #[trigger] p[j].0)
    &&& forall|i: int| 0 <= i < p.len() ==> #[trigger] m.contains_key(p[i].0) && m[p[i].0] == p[i].1
    &&& forall|k: Seq<char>| #[trigger] m.contains_key(k) ==> exists|i: int| 0 <= i < p.len() && p[i].0 == k
}

/// The base dimensions of a quantity: each primitive unit name mapped to a
/// non-zero exponent.
#[derive(Debug, Clone)]
pub struct Dimensions {
    entries: Vec<(String, i32)>,
}

impl View for Dimensions {
    type V = Map<Seq<char>, int>;

    closed spec fn view(&self) -> Map<Seq<char>, int> {
        Map::new(
            |k: Seq<char>| self.has(k),
            |k: Seq<char>| self.entries@[self.index_of(k)].1 as int,
        )
    }
}

impl Dimensions {
    spec fn has(&self, k: Seq<char>) -> bool {
        exists|i: int| 0 <= i < self.entries@.len() && self.entries@[i].0@ == k
    }

    spec fn index_of(&self, k: Seq<char>) -> int {
        choose|i: int| 0 <= i < self.entries@.len() && self.entries@[i].0@ == k
    }

    /// Names are distinct and every exponent is non-zero.
    pub closed spec fn wf(&self) -> bool {
        &&& forall|i: int, j: int|
            0 <= i < j < self.entries@.len() ==> #[trigger] self.entries@[i].0@
                != #[trigger] self.entries@[j].0@
        &&& forall|i: int| 0 <= i < self.entries@.len() ==> #[trigger] self.entries@[i].1 != 0
    }

    proof fn lemma_entry(&self, i: int)
        requires
            self.wf(),
            0 <= i < self.entries@.len(),
        ensures
            self@.contains_key(self.entries@[i].0@),
            self@[self.entries@[i].0@] == self.entries@[i].1 as int,
    {
        let k = self.entries@[i].0@;
        assert(self.has(k));
        let j = self.index_of(k);
        if i != j {
            if i < j {
                assert(self.entries@[i].0@ != self.entries@[j].0@);
            } else {
                assert(self.entries@[j].0@ != self.entries@[i].0@);
            }
        }
    }

    proof fn lemma_all_entries(&self)
        requires
            self.wf(),
        ensures
            forall|i: int|
                0 <= i < self.entries@.len() ==> #[trigger] self@.contains_key(
                    self.entries@[i].0@,
                ) && self@[self.entries@[i].0@] == self.entries@[i].1 as int,
            forall|k: Seq<char>|
                #[trigger] self@.contains_key(k) ==> self@[k] != 0 && fits_i32(self@[k]),
            forall|k: Seq<char>|
                #[trigger] self@.contains_key(k) ==> exists|i: int|
                    0 <= i < self.entries@.len() && self.entries@[i].0@ == k,
    {
        assert forall|i: int| 0 <= i < self.entries@.len() implies #[trigger] self@.contains_key(
            self.entries@[i].0@,
        ) && self@[self.entries@[i].0@] == self.entries@[i].1 as int by {
            self.lemma_entry(i);
        }
        assert forall|k: Seq<char>| #[trigger] self@.contains_key(k) implies self@[k] != 0
            && fits_i32(self@[k]) by {
            let j = self.index_of(k);
            self.lemma_entry(j);
        }
    }

    /// Every exponent of well-formed dimensions is a non-zero `i32`.
    pub proof fn lemma_exponents(&self)
        requires
            self.wf(),
        ensures
            forall|k: Seq<char>| #[trigger] self@.contains_key(k) ==> self@[k] != 0 && fits_i32(self@[k]),
    {
        self.lemma_all_entries();
    }

    /// The dimensionless dimension vector.
    pub fn empty() -> (d: Dimensions)
        ensures
            d.wf(),
            d@ == Map::<Seq<char>, int>::empty(),
    {
        let d = Dimensions { entries: Vec::new() };
        assert(d@ =~= Map::<Seq<char>, int>::empty());
        d
    }

    /// The dimensions of a primitive unit: `name` with exponent one.
    pub fn primitive(name: String) -> (d: Dimensions)
        ensures
            d.wf(),
            d@ == Map::<Seq<char>, int>::empty().insert(name@, 1),
    {
        let ghost k = name@;
        let mut entries = Vec::new();
        entries.push((name, 1i32));
        let d = Dimensions { entries };
        proof {
            d.lemma_entry(0);
            assert(d@ =~= Map::<Seq<char>, int>::empty().insert(k, 1));
        }
        d
    }

    /// A copy of these dimensions.
    pub fn duplicate(&self) -> (d: Dimensions)
        requires
            self.wf(),
        ensures
            d.wf(),
            d@ == self@,
    {
        let mut entries: Vec<(String, i32)> = Vec::new();
        let mut i: usize = 0;
        while i < self.entries.len()
            invariant
                i <= self.entries@.len(),
                entries@.len() == i,
                forall|j: int| 0 <= j < i ==> #[trigger] entries@[j] == self.entries@[j],
            decreases self.entries@.len() - i,
        {
            let name = self.entries[i].0.clone();
            entries.push((name, self.entries[i].1));
            i = i + 1;
        }
        let d = Dimensions { entries };
        assert(d.entries@ =~= self.entries@);
        d
    }

    fn find(&self, name: &String) -> (r: Option<usize>)
        requires
            self.wf(),
        ensures
            match r {
                Some(i) => i < self.entries@.len() && self.entries@[i as int].0@ == name@,
                None => !self@.contains_key(name@),
            },
    {
        let mut i: usize = 0;
        while i < self.entries.len()
            invariant
                i <= self.entries@.len(),
                forall|j: int| 0 <= j < i ==> self.entries@[j].0@ != name@,
            decreases self.entries@.len() - i,
        {
            if self.entries[i].0 == *name {
                return Some(i);
            }
            i = i + 1;
        }
        None
    }

    /// The exponent of `name`, zero when it does not occur.
    pub fn get(&self, name: &String) -> (e: i32)
        requires
            self.wf(),
        ensures
            e as int == exponent_of(self@, name@),
    {
        proof {
            self.lemma_all_entries();
        }
        match self.find(name) {
            Some(i) => self.entries[i].1,
            None => 0,
        }
    }

    /// Adds `delta` to the exponent of `name`, removing the name when the
    /// exponent becomes zero.
    fn add_exponent(&mut self, name: &String, delta: i64)
        requires
            old(self).wf(),
            fits_i32(exponent_of(old(self)@, name@) + delta),
        ensures
            final(self).wf(),
            final(self)@ == (if exponent_of(old(self)@, name@) + delta == 0 {
                old(self)@.remove(name@)
            } else {
                old(self)@.insert(name@, exponent_of(old(self)@, name@) + delta)
            }),
    {
        proof {
            old(self).lemma_all_entries();
        }
        let ghost before = old(self)@;
        match self.find(name) {
            Some(i) => {
                proof {
                    self.lemma_entry(i as int);
                }
                let v = self.entries[i].1 as i64 + delta;
                if v == 0 {
                    self.entries.remove(i);
                    proof {
                        assert forall|a: int, b: int|
                            0 <= a < b < self.entries@.len() implies #[trigger] self.entries@[a].0@
                            != #[trigger] self.entries@[b].0@ by {
                            let a0 = if a < i { a } else { a + 1 };
                            let b0 = if b < i { b } else { b + 1 };
                            assert(old(self).entries@[a0].0@ != old(self).entries@[b0].0@);
                        }
                        assert forall|a: int| 0 <= a < self.entries@.len() implies #[trigger] self.entries@[a].1 != 0 by {
                            let a0 = if a < i { a } else { a + 1 };
                            assert(old(self).entries@[a0].1 != 0);
                        }
                        self.lemma_all_entries();
                        assert forall|k: Seq<char>| #[trigger] self@.contains_key(k) == before.remove(name@).contains_key(k) by {
                            if before.remove(name@).contains_key(k) {
                                let j = choose|j: int| 0 <= j < old(self).entries@.len() && old(self).entries@[j].0@ == k;
                                assert(j != i);
                                let j1 = if j < i { j } else { j - 1 };
                                assert(self.entries@[j1].0@ == k);
                            }
                        }
                        assert forall|k: Seq<char>| #[trigger] self@.contains_key(k) implies self@[k] == before.remove(name@)[k] by {
                            let j1 = choose|j: int| 0 <= j < self.entries@.len() && self.entries@[j].0@ == k;
                            let j0 = if j1 < i { j1 } else { j1 + 1 };
                            old(self).lemma_entry(j0);
                        }
                        assert(self@ =~= before.remove(name@));
                    }
                } else {
                    let n = self.entries[i].0.clone();
                    self.entries.set(i, (n, v as i32));
                    proof {
                        assert forall|a: int, b: int|
                            0 <= a < b < self.entries@.len() implies #[trigger] self.entries@[a].0@
                            != #[trigger] self.entries@[b].0@ by {
                            assert(old(self).entries@[a].0@ != old(self).entries@[b].0@);
                        }
                        assert forall|a: int| 0 <= a < self.entries@.len() implies #[trigger] self.entries@[a].1 != 0 by {
                            if a != i {
                                assert(old(self).entries@[a].1 != 0);
                            }
                        }
                        self.lemma_all_entries();
                        let target = before.insert(name@, v as int);
                        assert forall|k: Seq<char>| #[trigger] self@.contains_key(k) == target.contains_key(k) by {
                            if target.contains_key(k) && k != name@ {
                                let j = choose|j: int| 0 <= j < old(self).entries@.len() && old(self).entries@[j].0@ == k;
                                assert(self.entries@[j].0@ == k);
                            }
                            if k == name@ {
                                assert(self.entries@[i as int].0@ == k);
                            }
                            if self@.contains_key(k) {
                                let j = choose|j: int| 0 <= j < self.entries@.len() && self.entries@[j].0@ == k;
                                if j != i {
                                    old(self).lemma_entry(j);
                                }
                            }
                        }
                        assert forall|k: Seq<char>| #[trigger] self@.contains_key(k) implies self@[k] == target[k] by {
                            let j = choose|j: int| 0 <= j < self.entries@.len() && self.entries@[j].0@ == k;
                            self.lemma_entry(j);
                            if j != i {
                                old(self).lemma_entry(j);
                            }
                        }
                        assert(self@ =~= target);
                    }
                }
            },
            None => {
                if delta != 0 {
                    let n = name.clone();
                    self.entries.push((n, delta as i32));
                    proof {
                        let last = self.entries@.len() - 1;
                        assert forall|a: int, b: int|
                            0 <= a < b < self.entries@.len() implies #[trigger] self.entries@[a].0@
                            != #[trigger] self.entries@[b].0@ by {
                            if b < last {
                                assert(old(self).entries@[a].0@ != old(self).entries@[b].0@);
                            } else {
                                assert(old(self).entries@[a].0@ != name@);
                            }
                        }
                        assert forall|a: int| 0 <= a < self.entries@.len() implies #[trigger] self.entries@[a].1 != 0 by {
                            if a < last {
                                assert(old(self).entries@[a].1 != 0);
                            }
                        }
                        self.lemma_all_entries();
                        let target = before.insert(name@, delta as int);
                        assert forall|k: Seq<char>| #[trigger] self@.contains_key(k) == target.contains_key(k) by {
                            if target.contains_key(k) && k != name@ {
                                let j = choose|j: int| 0 <= j < old(self).entries@.len() && old(self).entries@[j].0@ == k;
                                assert(self.entries@[j].0@ == k);
                            }
                            if k == name@ {
                                assert(self.entries@[last].0@ == k);
                            }
                        }
                        assert forall|k: Seq<char>| #[trigger] self@.contains_key(k) implies self@[k] == target[k] by {
                            let j = choose|j: int| 0 <= j < self.entries@.len() && self.entries@[j].0@ == k;
                            self.lemma_entry(j);
                            if j != last {
                                old(self).lemma_entry(j);
                            }
                        }
                        assert(self@ =~= target);
                    }
                } else {
                    assert(before.remove(name@) =~= before);
                }
            },
        }
    }

    /// Multiplies by `rhs`: exponents are added, zero exponents dropped.
    pub fn multiply(&mut self, rhs: &Dimensions)
        requires
            old(self).wf(),
            rhs.wf(),
            forall|k: Seq<char>| fits_i32(#[trigger] exponent_of(old(self)@, k) + exponent_of(rhs@, k)),
        ensures
            final(self).wf(),
            final(self)@ == product_dims(old(self)@, rhs@),
    {
        self.combine(rhs, false);
    }

    /// Divides by `rhs`: exponents are subtracted, zero exponents dropped.
    pub fn divide(&mut self, rhs: &Dimensions)
        requires
            old(self).wf(),
            rhs.wf(),
            forall|k: Seq<char>| fits_i32(#[trigger] exponent_of(old(self)@, k) - exponent_of(rhs@, k)),
        ensures
            final(self).wf(),
            final(self)@ == quotient_dims(old(self)@, rhs@),
    {
        self.combine(rhs, true);
    }

    fn combine(&mut self, rhs: &Dimensions, subtract: bool)
        requires
            old(self).wf(),
            rhs.wf(),
            forall|k: Seq<char>|
                fits_i32(
                    #[trigger] exponent_of(old(self)@, k) + (if subtract {
                        -exponent_of(rhs@, k)
                    } else {
                        exponent_of(rhs@, k)
                    }),
                ),
        ensures
            final(self).wf(),
            subtract ==> final(self)@ == quotient_dims(old(self)@, rhs@),
            !subtract ==> final(self)@ == product_dims(old(self)@, rhs@),
    {
        proof {
            rhs.lemma_all_entries();
            old(self).lemma_all_entries();
        }
        let ghost a = old(self)@;
        let ghost b = rhs@;
        let mut i: usize = 0;
        while i < rhs.entries.len()
            invariant
                self.wf(),
                rhs.wf(),
                i <= rhs.entries@.len(),
                a == old(self)@,
                b == rhs@,
                forall|k: Seq<char>|
                    fits_i32(#[trigger] exponent_of(a, k) + signed(subtract, exponent_of(b, k))),
                forall|k: Seq<char>|
                    #[trigger] exponent_of(self@, k) == exponent_of(a, k) + (if exists|j: int|
                        0 <= j < i && rhs.entries@[j].0@ == k {
                        signed(subtract, exponent_of(b, k))
                    } else {
                        0
                    }),
            decreases rhs.entries@.len() - i,
        {
            let name = &rhs.entries[i].0;
            let e = rhs.entries[i].1 as i64;
            let delta: i64 = if subtract { -e } else { e };
            proof {
                rhs.lemma_entry(i as int);
                assert(!exists|j: int| 0 <= j < i && rhs.entries@[j].0@ == name@) by {
                    if exists|j: int| 0 <= j < i && rhs.entries@[j].0@ == name@ {
                        let j = choose|j: int| 0 <= j < i && rhs.entries@[j].0@ == name@;
                        assert(rhs.entries@[j].0@ != rhs.entries@[i as int].0@);
                    }
                }
                assert(exponent_of(self@, name@) == exponent_of(a, name@));
                assert(fits_i32(exponent_of(a, name@) + signed(subtract, exponent_of(b, name@))));
                assert(signed(subtract, exponent_of(b, name@)) == delta);
            }
            let ghost prev = self@;
            self.add_exponent(name, delta);
            proof {
                assert forall|k: Seq<char>|
                    #[trigger] exponent_of(self@, k) == exponent_of(a, k) + (if exists|j: int|
                        0 <= j < i + 1 && rhs.entries@[j].0@ == k {
                        signed(subtract, exponent_of(b, k))
                    } else {
                        0
                    }) by {
                    if k == name@ {
                        assert(rhs.entries@[i as int].0@ == k);
                    } else {
                        assert(exponent_of(self@, k) == exponent_of(prev, k));
                        if exists|j: int| 0 <= j < i + 1 && rhs.entries@[j].0@ == k {
                            let j = choose|j: int| 0 <= j < i + 1 && rhs.entries@[j].0@ == k;
                            assert(j != i);
                        }
                    }
                }
            }
            i = i + 1;
        }
        proof {
            let target = if subtract {
                quotient_dims(a, b)
            } else {
                product_dims(a, b)
            };
            self.lemma_all_entries();
            assert forall|k: Seq<char>| #[trigger] exponent_of(self@, k) == exponent_of(a, k) + signed(subtract, exponent_of(b, k)) by {
                if b.contains_key(k) {
                    let j = choose|j: int| 0 <= j < rhs.entries@.len() && rhs.entries@[j].0@ == k;
                    assert(rhs.entries@[j].0@ == k);
                }
            }
            assert forall|k: Seq<char>| #[trigger] self@.contains_key(k) == target.contains_key(k) by {
                assert(exponent_of(self@, k) == exponent_of(a, k) + signed(subtract, exponent_of(b, k)));
            }
            assert forall|k: Seq<char>| #[trigger] self@.contains_key(k) implies self@[k] == target[k] by {
                assert(exponent_of(self@, k) == exponent_of(a, k) + signed(subtract, exponent_of(b, k)));
            }
            assert(self@ =~= target);
        }
    }

    /// Whether every exponent is zero.
    pub fn is_dimensionless(&self) -> (b: bool)
        requires
            self.wf(),
        ensures
            b == (self@ == Map::<Seq<char>, int>::empty()),
    {
        proof {
            self.lemma_all_entries();
            if self.entries@.len() == 0 {
                assert(self@ =~= Map::<Seq<char>, int>::empty());
            } else {
                assert(self@.contains_key(self.entries@[0].0@));
            }
        }
        self.entries.len() == 0
    }

    fn contained_in(&self, other: &Dimensions) -> (b: bool)
        requires
            self.wf(),
            other.wf(),
        ensures
            b == forall|k: Seq<char>| #[trigger] self@.contains_key(k) ==> other@.contains_key(k) && other@[k] == self@[k],
    {
        proof {
            self.lemma_all_entries();
            other.lemma_all_entries();
        }
        let mut i: usize = 0;
        while i < self.entries.len()
            invariant
                self.wf(),
                other.wf(),
                i <= self.entries@.len(),
                forall|j: int| 0 <= j < i ==> #[trigger] other@.contains_key(self.entries@[j].0@) && other@[self.entries@[j].0@] == self.entries@[j].1 as int,
            decreases self.entries@.len() - i,
        {
            let e = other.get(&self.entries[i].0);
            proof {
                self.lemma_entry(i as int);
                assert(self.entries@[i as int].1 != 0);
            }
            if e != self.entries[i].1 {
                return false;
            }
            proof {
                assert(other@.contains_key(self.entries@[i as int].0@));
                assert(other@[self.entries@[i as int].0@] == self.entries@[i as int].1 as int);
                assert forall|j: int| 0 <= j < i + 1 implies #[trigger] other@.contains_key(self.entries@[j].0@) && other@[self.entries@[j].0@] == self.entries@[j].1 as int by {
                    if j < i {
                        assert(other@.contains_key(self.entries@[j].0@));
                    }
                }
            }
            i = i + 1;
        }
        proof {
            assert forall|k: Seq<char>| #[trigger] self@.contains_key(k) implies other@.contains_key(k) && other@[k] == self@[k] by {
                let j = choose|j: int| 0 <= j < self.entries@.len() && self.entries@[j].0@ == k;
                self.lemma_entry(j);
                assert(other@.contains_key(self.entries@[j].0@));
            }
        }
        true
    }

    /// Whether both dimension vectors are the same.
    pub fn same_as(&self, other: &Dimensions) -> (b: bool)
        requires
            self.wf(),
            other.wf(),
        ensures
            b == (self@ == other@),
    {
        let x = self.contained_in(other);
        let y = other.contained_in(self);
        proof {
            if x && y {
                assert(self@ =~= other@);
            }
        }
        x && y
    }

    /// Negates every exponent (wrapping at `i32::MIN`).
    pub fn invert(&mut self)
        requires
            old(self).wf(),
        ensures
            final(self).wf(),
            final(self)@ == inverse_dims(old(self)@),
    {
        proof { old(self).lemma_all_entries(); }
        let ghost a = old(self)@;
        let mut i: usize = 0;
        while i < self.entries.len()
            invariant
                i <= self.entries@.len(),
                self.entries@.len() == old(self).entries@.len(),
                forall|j: int| 0 <= j < self.entries@.len() ==> #[trigger] self.entries@[j].0 == old(self).entries@[j].0,
                forall|j: int| 0 <= j < i ==> #[trigger] self.entries@[j].1 as int == wrapping_negate(old(self).entries@[j].1 as int),
                forall|j: int| i <= j < self.entries@.len() ==> #[trigger] self.entries@[j].1 == old(self).entries@[j].1,
            decreases self.entries@.len() - i,
        {
            let e = self.entries[i].1;
            let ne: i32 = if e == i32::MIN { e } else { -e };
            let n = self.entries[i].0.clone();
            self.entries.set(i, (n, ne));
            i = i + 1;
        }
        proof {
            assert forall|x: int, y: int|
                0 <= x < y < self.entries@.len() implies #[trigger] self.entries@[x].0@
                != #[trigger] self.entries@[y].0@ by {
                assert(old(self).entries@[x].0@ != old(self).entries@[y].0@);
            }
            assert forall|x: int| 0 <= x < self.entries@.len() implies #[trigger] self.entries@[x].1 != 0 by {
                assert(old(self).entries@[x].1 != 0);
            }
            self.lemma_all_entries();
            let target = inverse_dims(a);
            assert forall|k: Seq<char>| #[trigger] self@.contains_key(k) == target.contains_key(k) by {
                if a.contains_key(k) {
                    let j = choose|j: int| 0 <= j < old(self).entries@.len() && old(self).entries@[j].0@ == k;
                    assert(self.entries@[j].0@ == k);
                }
                if self@.contains_key(k) {
                    let j = choose|j: int| 0 <= j < self.entries@.len() && self.entries@[j].0@ == k;
                    old(self).lemma_entry(j);
                }
            }
            assert forall|k: Seq<char>| #[trigger] self@.contains_key(k) implies self@[k] == target[k] by {
                let j = choose|j: int| 0 <= j < self.entries@.len() && self.entries@[j].0@ == k;
                self.lemma_entry(j);
                old(self).lemma_entry(j);
            }
            assert(self@ =~= target);
        }
    }

    /// Multiplies every exponent by `n`, dropping zero exponents.
    pub fn power(&mut self, n: i32)
        requires
            old(self).wf(),
            forall|k: Seq<char>| #[trigger] old(self)@.contains_key(k) ==> fits_i32(old(self)@[k] * n),
        ensures
            final(self).wf(),
            final(self)@ == power_dims(old(self)@, n as int),
    {
        proof { old(self).lemma_all_entries(); }
        let ghost a = old(self)@;
        let mut out: Vec<(String, i32)> = Vec::new();
        let mut i: usize = 0;
        if n != 0 {
            while i < self.entries.len()
                invariant
                    n != 0,
                    old(self).wf(),
                    self.entries@ == old(self).entries@,
                    a == old(self)@,
                    forall|k: Seq<char>| #[trigger] a.contains_key(k) ==> fits_i32(a[k] * n),
                    i <= self.entries@.len(),
                    out@.len() == i,
                    forall|j: int| 0 <= j < i ==> (#[trigger] out@[j]).0 == self.entries@[j].0
                        && out@[j].1 as int == self.entries@[j].1 as int * n as int,
                decreases self.entries@.len() - i,
            {
                proof {
                    old(self).lemma_entry(i as int);
                    assert(fits_i32(self.entries@[i as int].1 as int * n as int));
                }
                let e = self.entries[i].1 * n;
                let nm = self.entries[i].0.clone();
                out.push((nm, e));
                i = i + 1;
            }
        }
        self.entries = out;
        proof {
            if n != 0 {
                assert forall|x: int, y: int|
                    0 <= x < y < self.entries@.len() implies #[trigger] self.entries@[x].0@
                    != #[trigger] self.entries@[y].0@ by {
                    assert(old(self).entries@[x].0@ != old(self).entries@[y].0@);
                }
                assert forall|x: int| 0 <= x < self.entries@.len() implies #[trigger] self.entries@[x].1 != 0 by {
                    assert(old(self).entries@[x].1 != 0);
                    lemma_nonzero_product(old(self).entries@[x].1 as int, n as int);
                }
            }
            self.lemma_all_entries();
            let target = power_dims(a, n as int);
            assert forall|k: Seq<char>| #[trigger] self@.contains_key(k) == target.contains_key(k) by {
                if target.contains_key(k) {
                    let j = choose|j: int| 0 <= j < old(self).entries@.len() && old(self).entries@[j].0@ == k;
                    old(self).lemma_entry(j);
                    if n == 0 {
                        lemma_times_zero(a[k], n as int);
                    }
                    assert(self.entries@[j].0@ == k);
                }
                if self@.contains_key(k) {
                    let j = choose|j: int| 0 <= j < self.entries@.len() && self.entries@[j].0@ == k;
                    old(self).lemma_entry(j);
                    self.lemma_entry(j);
                }
            }
            assert forall|k: Seq<char>| #[trigger] self@.contains_key(k) implies self@[k] == target[k] by {
                let j = choose|j: int| 0 <= j < self.entries@.len() && self.entries@[j].0@ == k;
                self.lemma_entry(j);
                old(self).lemma_entry(j);
            }
            assert(self@ =~= target);
        }
    }

    /// Whether every exponent is a multiple of `n`.
    pub fn divisible(&self, n: i32) -> (b: bool)
        requires
            self.wf(),
            n > 0,
        ensures
            b == divisible_by(self@, n as int),
    {
        proof { self.lemma_all_entries(); }
        let mut i: usize = 0;
        while i < self.entries.len()
            invariant
                self.wf(),
                n > 0,
                i <= self.entries@.len(),
                forall|j: int| 0 <= j < i ==> #[trigger] self.entries@[j].1 as int % n as int == 0,
            decreases self.entries@.len() - i,
        {
            let e = self.entries[i].1;
            proof { self.lemma_entry(i as int); }
            if !exponent_divisible(e, n) {
                proof {
                    assert(self@[self.entries@[i as int].0@] % n as int != 0);
                }
                return false;
            }
            i = i + 1;
        }
        proof {
            assert forall|k: Seq<char>| #[trigger] self@.contains_key(k) implies self@[k] % n as int == 0 by {
                let j = choose|j: int| 0 <= j < self.entries@.len() && self.entries@[j].0@ == k;
                self.lemma_entry(j);
            }
        }
        true
    }

    /// Divides every exponent by `n`; all of them are multiples of `n`.
    pub fn root(&mut self, n: i32)
        requires
            old(self).wf(),
            n > 0,
            divisible_by(old(self)@, n as int),
        ensures
            final(self).wf(),
            final(self)@ == root_dims(old(self)@, n as int),
    {
        proof { old(self).lemma_all_entries(); }
        let ghost a = old(self)@;
        let mut i: usize = 0;
        while i < self.entries.len()
            invariant
                n > 0,
                old(self).wf(),
                a == old(self)@,
                divisible_by(a, n as int),
                i <= self.entries@.len(),
                self.entries@.len() == old(self).entries@.len(),
                forall|j: int| 0 <= j < self.entries@.len() ==> #[trigger] self.entries@[j].0 == old(self).entries@[j].0,
                forall|j: int| 0 <= j < i ==> #[trigger] self.entries@[j].1 as int == old(self).entries@[j].1 as int / n as int,
                forall|j: int| i <= j < self.entries@.len() ==> #[trigger] self.entries@[j].1 == old(self).entries@[j].1,
            decreases self.entries@.len() - i,
        {
            let e = self.entries[i].1;
            proof {
                old(self).lemma_entry(i as int);
                assert(a[old(self).entries@[i as int].0@] % n as int == 0);
            }
            let q = exact_quotient(e, n);
            let nm = self.entries[i].0.clone();
            self.entries.set(i, (nm, q));
            i = i + 1;
        }
        proof {
            assert forall|x: int, y: int|
                0 <= x < y < self.entries@.len() implies #[trigger] self.entries@[x].0@
                != #[trigger] self.entries@[y].0@ by {
                assert(old(self).entries@[x].0@ != old(self).entries@[y].0@);
            }
            assert forall|x: int| 0 <= x < self.entries@.len() implies #[trigger] self.entries@[x].1 != 0 by {
                old(self).lemma_entry(x);
                let e = old(self).entries@[x].1 as int;
                assert(e % n as int == 0);
                assert(e != 0);
                if e / (n as int) == 0 {
                    vstd::arithmetic::div_mod::lemma_fundamental_div_mod(e, n as int);
                }
            }
            self.lemma_all_entries();
            let target = root_dims(a, n as int);
            assert forall|k: Seq<char>| #[trigger] self@.contains_key(k) == target.contains_key(k) by {
                if a.contains_key(k) {
                    let j = choose|j: int| 0 <= j < old(self).entries@.len() && old(self).entries@[j].0@ == k;
                    assert(self.entries@[j].0@ == k);
                }
                if self@.contains_key(k) {
                    let j = choose|j: int| 0 <= j < self.entries@.len() && self.entries@[j].0@ == k;
                    old(self).lemma_entry(j);
                }
            }
            assert forall|k: Seq<char>| #[trigger] self@.contains_key(k) implies self@[k] == target[k] by {
                let j = choose|j: int| 0 <= j < self.entries@.len() && self.entries@[j].0@ == k;
                self.lemma_entry(j);
                old(self).lemma_entry(j);
            }
            assert(self@ =~= target);
        }
    }
}


/// A listing of (name, exponent) pairs seen through the names' characters.
pub open spec fn listing_view(v: Seq<(String, i32)>) -> Seq<(Seq<char>, int)> {
    v.map_values(|x: (String, i32)| (x.0@, x.1 as int))
}

proof fn lemma_join_push(w: Seq<Seq<char>>, x: Seq<char>)
    ensures
        join_words(w.push(x)) == (if w.len() == 0 {
            x
        } else {
            join_words(w) + seq![' '] + x
        }),
{
    assert(w.push(x).drop_last() =~= w);
    if w.len() == 0 {
        assert(w.push(x)[0] == x);
    }
}

proof fn lemma_words_step(p: Seq<(Seq<char>, int)>, i: int)
    requires
        0 <= i < p.len(),
    ensures
        numerator_words(p.take(i + 1)) == numerator_words(p.take(i)) + (if p[i].1 > 0 {
            Seq::new(p[i].1 as nat, |j: int| p[i].0)
        } else {
            Seq::empty()
        }),
        denominator_words(p.take(i + 1)) == denominator_words(p.take(i)) + (if p[i].1 < 0 {
            Seq::new((-p[i].1) as nat, |j: int| p[i].0)
        } else {
            Seq::empty()
        }),
{
    assert(p.take(i + 1).drop_last() =~= p.take(i));
    assert(p.take(i + 1).last() == p[i]);
}

/// Appends `count` copies of `name` to the word text `s`, which joins the
/// words `base`; `nonempty` records whether any word has been written.
fn push_words(s: &mut String, nonempty: &mut bool, name: &String, count: u32, base: Ghost<Seq<Seq<char>>>)
    requires
        old(s)@ == join_words(base@),
        *old(nonempty) == (base@.len() > 0),
    ensures
        final(s)@ == join_words(base@ + Seq::new(count as nat, |j: int| name@)),
        *final(nonempty) == (base@.len() + count > 0),
{
    let ghost b = base@;
    let mut r: u32 = 0;
    proof {
        assert(b + Seq::new(0, |j: int| name@) =~= b);
    }
    while r < count
        invariant
            r <= count,
            s@ == join_words(b + Seq::new(r as nat, |j: int| name@)),
            *nonempty == (b.len() + r > 0),
        decreases count - r,
    {
        let ghost w = b + Seq::new(r as nat, |j: int| name@);
        proof {
            lemma_join_push(w, name@);
            assert(b + Seq::new((r + 1) as nat, |j: int| name@) =~= w.push(name@));
        }
        if *nonempty {
            s.push(' ');
        }
        s.append(name.as_str());
        *nonempty = true;
        r = r + 1;
    }
}

/// Names strictly increasing along a listing.
pub open spec fn names_sorted(v: Seq<(String, i32)>) -> bool {
    forall|a: int, b: int| 0 <= a < b < v.len() ==> chars_lt(#[trigger] v[a].0@, #[trigger] v[b].0@)
}

/// The number of leading entries whose names do not come after `key`,
/// scanning until the first name that does.
fn insert_position(out: &Vec<(String, i32)>, key: &Vec<char>) -> (pos: usize)
    ensures
        pos <= out@.len(),
        forall|a: int| 0 <= a < pos ==> !chars_lt(key@, #[trigger] out@[a].0@),
        pos < out@.len() ==> chars_lt(key@, out@[pos as int].0@),
{
    let mut pos: usize = 0;
    while pos < out.len()
        invariant
            pos <= out@.len(),
            forall|a: int| 0 <= a < pos ==> !chars_lt(key@, #[trigger] out@[a].0@),
        ensures
            pos <= out@.len(),
            forall|a: int| 0 <= a < pos ==> !chars_lt(key@, #[trigger] out@[a].0@),
            pos < out@.len() ==> chars_lt(key@, out@[pos as int].0@),
        decreases out@.len() - pos,
    {
        let other = to_chars(out[pos].0.as_str());
        if chars_less(key, &other) {
            break;
        }
        pos = pos + 1;
    }
    pos
}

/// Inserts `item` where it keeps the names increasing.
fn insert_sorted(out: &mut Vec<(String, i32)>, item: (String, i32)) -> (pos: usize)
    requires
        names_sorted(old(out)@),
        forall|a: int| 0 <= a < old(out)@.len() ==> #[trigger] old(out)@[a].0@ != item.0@,
    ensures
        pos <= old(out)@.len(),
        final(out)@ == old(out)@.insert(pos as int, item),
        names_sorted(final(out)@),
{
    let key = to_chars(item.0.as_str());
    let pos = insert_position(out, &key);
    proof {
        lemma_insert_position(out@, item, pos as int);
    }
    out.insert(pos, item);
    pos
}

proof fn lemma_insert_position(v: Seq<(String, i32)>, item: (String, i32), pos: int)
    requires
        names_sorted(v),
        0 <= pos <= v.len(),
        forall|a: int| 0 <= a < v.len() ==> #[trigger] v[a].0@ != item.0@,
        forall|a: int| 0 <= a < pos ==> !chars_lt(item.0@, #[trigger] v[a].0@),
        pos < v.len() ==> chars_lt(item.0@, v[pos].0@),
    ensures
        names_sorted(v.insert(pos, item)),
{
    assert forall|a: int| 0 <= a < pos implies chars_lt(#[trigger] v[a].0@, item.0@) by {
        lemma_chars_lt_total(v[a].0@, item.0@);
    }
    assert forall|a: int| pos <= a < v.len() implies chars_lt(item.0@, #[trigger] v[a].0@) by {
        if a > pos {
            assert(chars_lt(v[pos].0@, v[a].0@));
            lemma_chars_lt_transitive(item.0@, v[pos].0@, v[a].0@);
        }
    }
    let w = v.insert(pos, item);
    assert forall|a: int, b: int| 0 <= a < b < w.len() implies chars_lt(#[trigger] w[a].0@, #[trigger] w[b].0@) by {
        if a < pos && b < pos {
            assert(chars_lt(v[a].0@, v[b].0@));
        } else if a < pos && b == pos {
            assert(chars_lt(v[a].0@, item.0@));
        } else if a < pos {
            assert(chars_lt(v[a].0@, item.0@));
            assert(chars_lt(item.0@, v[b - 1].0@));
            lemma_chars_lt_transitive(v[a].0@, item.0@, v[b - 1].0@);
        } else if a == pos {
            assert(chars_lt(item.0@, v[b - 1].0@));
        } else {
            assert(chars_lt(v[a - 1].0@, v[b - 1].0@));
        }
    }
}

impl Dimensions {
    /// The entries listed once each in increasing name order.
    fn sorted_listing(&self) -> (out: Vec<(String, i32)>)
        requires
            self.wf(),
        ensures
            is_sorted_listing(listing_view(out@), self@),
    {
        let mut out: Vec<(String, i32)> = Vec::new();
        let mut i: usize = 0;
        // src[a]: the entry that out[a] came from; at[k]: where entry k went
        let ghost mut src: Seq<int> = Seq::empty();
        let ghost mut at: Seq<int> = Seq::empty();
        while i < self.entries.len()
            invariant
                self.wf(),
                i <= self.entries@.len(),
                names_sorted(out@),
                src.len() == out@.len(),
                at.len() == i,
                forall|a: int| 0 <= a < out@.len() ==> 0 <= #[trigger] src[a] < i && out@[a] == self.entries@[src[a]],
                forall|k: int| 0 <= k < i ==> 0 <= #[trigger] at[k] < out@.len() && out@[at[k]] == self.entries@[k],
            decreases self.entries@.len() - i,
        {
            let item = (self.entries[i].0.clone(), self.entries[i].1);
            proof {
                assert forall|a: int| 0 <= a < out@.len() implies #[trigger] out@[a].0@ != item.0@ by {
                    let k = src[a];
                    assert(self.entries@[k].0@ != self.entries@[i as int].0@);
                }
            }
            let ghost before = out@;
            let pos = insert_sorted(&mut out, item);
            proof {
                let p = pos as int;
                let old_src = src;
                let old_at = at;
                src = old_src.insert(p, i as int);
                at = Seq::new((i + 1) as nat, |k: int| if k == i { p } else if old_at[k] < p { old_at[k] } else { old_at[k] + 1 });
                assert forall|a: int| 0 <= a < out@.len() implies 0 <= #[trigger] src[a] < i + 1 && out@[a] == self.entries@[src[a]] by {
                    if a < p {
                        assert(src[a] == old_src[a]);
                    } else if a > p {
                        assert(src[a] == old_src[a - 1]);
                    }
                }
                assert forall|k: int| 0 <= k < i + 1 implies 0 <= #[trigger] at[k] < out@.len() && out@[at[k]] == self.entries@[k] by {
                    if k < i {
                        assert(before[old_at[k]] == self.entries@[k]);
                    }
                }
            }
            i = i + 1;
        }
        proof {
            self.lemma_all_entries();
            let lv = listing_view(out@);
            assert forall|a: int, b: int| 0 <= a < b < lv.len() implies chars_lt(#[trigger] lv[a].0, #[trigger] lv[b].0) by {
                assert(chars_lt(out@[a].0@, out@[b].0@));
            }
            assert forall|a: int| 0 <= a < lv.len() implies #[trigger] self@.contains_key(lv[a].0) && self@[lv[a].0] == lv[a].1 by {
                let k = src[a];
                self.lemma_entry(k);
            }
            assert forall|key: Seq<char>| #[trigger] self@.contains_key(key) implies exists|a: int| 0 <= a < lv.len() && lv[a].0 == key by {
                let k = choose|k: int| 0 <= k < self.entries@.len() && self.entries@[k].0@ == key;
                let a = at[k];
                assert(lv[a].0 == key);
            }
        }
        out
    }

    /// The base dimensions as text: numerator names (each repeated by its
    /// exponent) in name order, then ` / ` and the denominator names, e.g.
    /// `kg m / s s`; `1 / s` when only a denominator exists; empty when
    /// dimensionless.
    pub fn base_units_string(&self) -> (s: String)
        requires
            self.wf(),
        ensures
            exists|p: Seq<(Seq<char>, int)>| is_sorted_listing(p, self@) && s@ == units_text(p),
    {
        let sorted = self.sorted_listing();
        let ghost lv = listing_view(sorted@);
        let mut num = String::new();
        let mut den = String::new();
        let mut nn = false;
        let mut dn = false;
        let mut i: usize = 0;
        proof {
            assert(lv.take(0) =~= Seq::<(Seq<char>, int)>::empty());
        }
        while i < sorted.len()
            invariant
                lv == listing_view(sorted@),
                i <= sorted@.len(),
                num@ == join_words(numerator_words(lv.take(i as int))),
                den@ == join_words(denominator_words(lv.take(i as int))),
                nn == (numerator_words(lv.take(i as int)).len() > 0),
                dn == (denominator_words(lv.take(i as int)).len() > 0),
            decreases sorted@.len() - i,
        {
            let e = sorted[i].1;
            proof {
                lemma_words_step(lv, i as int);
            }
            if e > 0 {
                push_words(&mut num, &mut nn, &sorted[i].0, e as u32, Ghost(numerator_words(lv.take(i as int))));
            } else if e < 0 {
                let c: u32 = (0 - (e as i64)) as u32;
                push_words(&mut den, &mut dn, &sorted[i].0, c, Ghost(denominator_words(lv.take(i as int))));
            }
            i = i + 1;
        }
        proof {
            assert(lv.take(lv.len() as int) =~= lv);
        }
        let result = if !nn && !dn {
            String::new()
        } else if !dn {
            num
        } else {
            let mut out = if !nn { String::from_str("1") } else { num };
            out.append(" / ");
            out.append(den.as_str());
            proof {
                reveal_strlit("1");
                reveal_strlit(" / ");
                assert(" / "@ =~= seq![' ', '/', ' ']);
                assert("1"@ =~= seq!['1']);
            }
            out
        };
        proof {
            assert(is_sorted_listing(lv, self@));
            assert(result@ =~= units_text(lv));
        }
        result
    }
}
impl Dimensions {
    /// Whether combining with `rhs` (adding its exponents, or subtracting
    /// them when `subtract`) keeps every exponent within `i32`.
    pub fn fits_combined(&self, rhs: &Dimensions, subtract: bool) -> (b: bool)
        requires
            self.wf(),
            rhs.wf(),
        ensures
            b == forall|k: Seq<char>| fits_i32(#[trigger] exponent_of(self@, k) + signed(subtract, exponent_of(rhs@, k))),
    {
        proof {
            self.lemma_all_entries();
            rhs.lemma_all_entries();
        }
        let mut i: usize = 0;
        while i < self.entries.len()
            invariant
                self.wf(),
                rhs.wf(),
                i <= self.entries@.len(),
                forall|j: int| 0 <= j < i ==> fits_i32(#[trigger] exponent_of(self@, self.entries@[j].0@) + signed(subtract, exponent_of(rhs@, self.entries@[j].0@))),
            decreases self.entries@.len() - i,
        {
            let e = rhs.get(&self.entries[i].0) as i64;
            let v: i64 = if subtract { self.entries[i].1 as i64 - e } else { self.entries[i].1 as i64 + e };
            proof { self.lemma_entry(i as int); }
            if v < i32::MIN as i64 || v > i32::MAX as i64 {
                proof {
                    let k = self.entries@[i as int].0@;
                    assert(exponent_of(self@, k) == self.entries@[i as int].1);
                    assert(!fits_i32(exponent_of(self@, k) + signed(subtract, exponent_of(rhs@, k))));
                }
                return false;
            }
            i = i + 1;
        }
        let mut j: usize = 0;
        while j < rhs.entries.len()
            invariant
                self.wf(),
                rhs.wf(),
                j <= rhs.entries@.len(),
                forall|x: int| 0 <= x < j ==> fits_i32(#[trigger] exponent_of(self@, rhs.entries@[x].0@) + signed(subtract, exponent_of(rhs@, rhs.entries@[x].0@))),
            decreases rhs.entries@.len() - j,
        {
            let e = self.get(&rhs.entries[j].0) as i64;
            let v: i64 = if subtract { e - rhs.entries[j].1 as i64 } else { e + rhs.entries[j].1 as i64 };
            proof { rhs.lemma_entry(j as int); }
            if v < i32::MIN as i64 || v > i32::MAX as i64 {
                proof {
                    let k = rhs.entries@[j as int].0@;
                    assert(exponent_of(rhs@, k) == rhs.entries@[j as int].1);
                    assert(!fits_i32(exponent_of(self@, k) + signed(subtract, exponent_of(rhs@, k))));
                }
                return false;
            }
            j = j + 1;
        }
        proof {
            assert forall|k: Seq<char>| fits_i32(#[trigger] exponent_of(self@, k) + signed(subtract, exponent_of(rhs@, k))) by {
                if self@.contains_key(k) {
                    let x = choose|x: int| 0 <= x < self.entries@.len() && self.entries@[x].0@ == k;
                    assert(fits_i32(exponent_of(self@, self.entries@[x].0@) + signed(subtract, exponent_of(rhs@, self.entries@[x].0@))));
                } else if rhs@.contains_key(k) {
                    let x = choose|x: int| 0 <= x < rhs.entries@.len() && rhs.entries@[x].0@ == k;
                    assert(fits_i32(exponent_of(self@, rhs.entries@[x].0@) + signed(subtract, exponent_of(rhs@, rhs.entries@[x].0@))));
                }
            }
        }
        true
    }

    /// Whether multiplying every exponent by `n` keeps it within `i32`.
    pub fn fits_power(&self, n: i32) -> (b: bool)
        requires
            self.wf(),
        ensures
            b == forall|k: Seq<char>| #[trigger] self@.contains_key(k) ==> fits_i32(self@[k] * n),
    {
        proof { self.lemma_all_entries(); }
        let mut i: usize = 0;
        while i < self.entries.len()
            invariant
                self.wf(),
                i <= self.entries@.len(),
                forall|j: int| 0 <= j < i ==> fits_i32(#[trigger] self.entries@[j].1 as int * n as int),
            decreases self.entries@.len() - i,
        {
            proof {
                self.lemma_entry(i as int);
                assert(-2147483648 * 2147483648 <= self.entries@[i as int].1 as int * n as int <= 2147483648 * 2147483648) by (nonlinear_arith)
                    requires
                        -2147483648 <= self.entries@[i as int].1 <= 2147483647,
                        -2147483648 <= n <= 2147483647,
                ;
            }
            let v: i64 = self.entries[i].1 as i64 * n as i64;
            if v < i32::MIN as i64 || v > i32::MAX as i64 {
                proof {
                    assert(self@.contains_key(self.entries@[i as int].0@));
                }
                return false;
            }
            i = i + 1;
        }
        proof {
            assert forall|k: Seq<char>| #[trigger] self@.contains_key(k) implies fits_i32(self@[k] * n) by {
                let x = choose|x: int| 0 <= x < self.entries@.len() && self.entries@[x].0@ == k;
                self.lemma_entry(x);
                assert(fits_i32(self.entries@[x].1 as int * n as int));
            }
        }
        true
    }
}

} // verus!
