//! Parsing, conversion and listing against a loaded [`Registry`].
use vstd::prelude::*;

use crate::database::Database;
use crate::definitions::{Definition, DefinitionKind};
use crate::dims::{exponent_of, fits_i32, quotient_dims, Dimensions};
use crate::error::{ErrorCode, UnitsError};
use crate::eval::{div_vals, eval_text, evaluate, evaluate_with, lemma_eval_text_not_a_func, outcome, unit_val, Val, MAX_DEPTH};
use crate::magnitude::{mag_view, MagView, Magnitude};
use crate::dims::chars_lt;
use crate::registry::{sorted_by_name, Registry};
use crate::text::to_chars;
use crate::unit::Unit;

verus! {

/// The value of the expression `input`, with no variables bound.
pub open spec fn parse_spec(db: Database, input: Seq<char>) -> Result<Val, ErrorCode> {
    eval_text(db, Seq::empty(), Seq::empty(), MAX_DEPTH as nat, input)
}

/// `r` is the outcome `v`, with errors wrapped in [`UnitsError`].
pub open spec fn unit_outcome(r: Result<Unit, UnitsError>, v: Result<Val, ErrorCode>) -> bool {
    match r {
        Ok(u) => u.wf() && v == Ok::<Val, ErrorCode>(unit_val(u)),
        Err(e) => v == Err::<Val, ErrorCode>(e.0),
    }
}

fn wrap(r: Result<Unit, ErrorCode>) -> (w: Result<Unit, UnitsError>)
    ensures
        forall|v: Result<Val, ErrorCode>| outcome(r, v) ==> unit_outcome(w, v),
{
    match r {
        Ok(u) => Ok(u),
        Err(c) => Err(UnitsError(c)),
    }
}

impl Unit {
    /// Parses a units expression against the registry's database.
    pub fn parse(reg: &Registry, input: &str) -> (r: Result<Unit, UnitsError>)
        requires
            reg.wf(),
        ensures
            unit_outcome(r, parse_spec(reg.database(), input@)),
    {
        let db = reg.db();
        let s = to_chars(input);
        wrap(evaluate(db, &s))
    }

    /// The factor of a dimensionless unit; `NotANumber` when the unit has
    /// dimensions.
    pub fn to_number(&self) -> (r: Result<Magnitude, UnitsError>)
        requires
            self.wf(),
        ensures
            match r {
                Ok(m) => self.dimensions() == Map::<Seq<char>, int>::empty() && mag_view(m) == mag_view(self.factor_term()),
                Err(e) => self.dimensions() != Map::<Seq<char>, int>::empty() && e == UnitsError(ErrorCode::NotANumber),
            },
    {
        if !self.is_dimensionless() {
            return Err(UnitsError(ErrorCode::NotANumber));
        }
        Ok(self.magnitude().duplicate())
    }

    /// The factor that converts `self` into `to`: `self / to`, which must be
    /// dimensionless (`NotANumber` otherwise).
    pub fn convert_to(self, to: Unit) -> (r: Result<Magnitude, UnitsError>)
        requires
            self.wf(),
            to.wf(),
            forall|k: Seq<char>| fits_i32(#[trigger] exponent_of(self.dimensions(), k) - exponent_of(to.dimensions(), k)),
        ensures
            match r {
                Ok(m) => quotient_dims(self.dimensions(), to.dimensions()) == Map::<Seq<char>, int>::empty()
                    && mag_view(m) == MagView::Quotient(Box::new(mag_view(self.factor_term())), Box::new(mag_view(to.factor_term()))),
                Err(e) => quotient_dims(self.dimensions(), to.dimensions()) != Map::<Seq<char>, int>::empty()
                    && e == UnitsError(ErrorCode::NotANumber),
            },
    {
        let mut q = self;
        let _ = q.divide(to);
        q.to_number()
    }
}

/// Convenience wrapper around [`Unit::parse`].
pub fn parse(reg: &Registry, input: &str) -> (r: Result<Unit, UnitsError>)
    requires
        reg.wf(),
    ensures
        unit_outcome(r, parse_spec(reg.database(), input@)),
{
    Unit::parse(reg, input)
}

/// The names of the unit definitions (in list order) whose names evaluate
/// to a value with dimensions `target`.
#[verifier::opaque]
pub open spec fn conformable_names(db: Database, defs: Seq<Definition>, target: Map<Seq<char>, int>) -> Seq<
    Seq<char>,
>
    decreases defs.len(),
{
    if defs.len() == 0 {
        Seq::empty()
    } else {
        let rest = conformable_names(db, defs.drop_last(), target);
        let d = defs.last();
        let fits = d.kind == DefinitionKind::Unit && match parse_spec(db, d.name@) {
            Ok(v) => v.0 == target,
            Err(_) => false,
        };
        if fits {
            rest.push(d.name@)
        } else {
            rest
        }
    }
}

/// The definition `d` is a unit whose name evaluates to dimensions `target`.
#[verifier::opaque]
pub open spec fn conforms(db: Database, d: Definition, target: Map<Seq<char>, int>) -> bool {
    d.kind == DefinitionKind::Unit && match parse_spec(db, d.name@) {
        Ok(v) => v.0 == target,
        Err(_) => false,
    }
}

proof fn lemma_conformable_step(db: Database, defs: Seq<Definition>, target: Map<Seq<char>, int>)
    requires
        defs.len() > 0,
    ensures
        conformable_names(db, defs, target) == if conforms(db, defs.last(), target) {
            conformable_names(db, defs.drop_last(), target).push(defs.last().name@)
        } else {
            conformable_names(db, defs.drop_last(), target)
        },
{
    reveal(conforms);
    reveal(conformable_names);
}

/// `x` is the name of a definition of `defs` that conforms to `target`.
pub open spec fn names_conforming(db: Database, defs: Seq<Definition>, target: Map<Seq<char>, int>, x: Seq<char>) -> bool {
    exists|k: int| 0 <= k < defs.len() && #[trigger] defs[k].name@ == x && conforms(db, defs[k], target)
}

/// Every name listed as conformable over `defs` is the name of a unit
/// definition of `defs` that conforms to `target`, and every such
/// definition's name is listed.
pub proof fn lemma_conformable_names_exact(db: Database, defs: Seq<Definition>, target: Map<Seq<char>, int>)
    ensures
        forall|i: int|
            0 <= i < conformable_names(db, defs, target).len() ==> names_conforming(
                db,
                defs,
                target,
                #[trigger] conformable_names(db, defs, target)[i],
            ),
        forall|k: int|
            0 <= k < defs.len() && conforms(db, #[trigger] defs[k], target) ==> conformable_names(db, defs, target).contains(
                defs[k].name@,
            ),
    decreases defs.len(),
{
    if defs.len() == 0 {
        reveal(conformable_names);
    } else {
        let p = defs.drop_last();
        lemma_conformable_names_exact(db, p, target);
        lemma_conformable_step(db, defs, target);
        let rest = conformable_names(db, p, target);
        let names = conformable_names(db, defs, target);
        let d = defs.last();
        assert forall|i: int| 0 <= i < names.len() implies names_conforming(db, defs, target, #[trigger] names[i]) by {
            if i < rest.len() {
                assert(names[i] == rest[i]);
                assert(names_conforming(db, p, target, rest[i]));
                let k = choose|k: int| 0 <= k < p.len() && #[trigger] p[k].name@ == rest[i] && conforms(db, p[k], target);
                assert(defs[k] == p[k]);
                assert(0 <= k < defs.len() && defs[k].name@ == names[i] && conforms(db, defs[k], target));
            } else {
                let k = defs.len() - 1;
                assert(defs[k] == d);
                assert(names[i] == d.name@);
                assert(0 <= k < defs.len() && defs[k].name@ == names[i] && conforms(db, defs[k], target));
            }
        }
        assert forall|k: int| 0 <= k < defs.len() && conforms(db, #[trigger] defs[k], target) implies names.contains(
            defs[k].name@,
        ) by {
            if k < p.len() {
                assert(defs[k] == p[k]);
                let i = choose|i: int| 0 <= i < rest.len() && rest[i] == p[k].name@;
                assert(names[i] == rest[i]);
            } else {
                assert(names[rest.len() as int] == d.name@);
            }
        }
    }
}

/// Over a list sorted by name, the conformable names come out in name
/// order: each is not less than the one before.
pub proof fn lemma_conformable_names_sorted(db: Database, defs: Seq<Definition>, target: Map<Seq<char>, int>)
    requires
        sorted_by_name(defs),
    ensures
        forall|i: int, j: int|
            0 <= i < j < conformable_names(db, defs, target).len() ==> !chars_lt(
                #[trigger] conformable_names(db, defs, target)[j],
                #[trigger] conformable_names(db, defs, target)[i],
            ),
    decreases defs.len(),
{
    if defs.len() == 0 {
        reveal(conformable_names);
    } else {
        let p = defs.drop_last();
        assert(sorted_by_name(p)) by {
            assert forall|i: int, j: int| 0 <= i < j < p.len() implies !chars_lt(#[trigger] p[j].name@, #[trigger] p[i].name@) by {
                assert(p[i] == defs[i] && p[j] == defs[j]);
            }
        }
        lemma_conformable_names_sorted(db, p, target);
        lemma_conformable_names_exact(db, p, target);
        lemma_conformable_step(db, defs, target);
        let rest = conformable_names(db, p, target);
        let names = conformable_names(db, defs, target);
        let d = defs.last();
        if conforms(db, d, target) {
            assert forall|i: int| 0 <= i < rest.len() implies !chars_lt(d.name@, #[trigger] rest[i]) by {
                assert(names_conforming(db, p, target, rest[i]));
                let k = choose|k: int| 0 <= k < p.len() && #[trigger] p[k].name@ == rest[i] && conforms(db, p[k], target);
                assert(defs[k] == p[k]);
                assert(!chars_lt(defs[defs.len() - 1].name@, defs[k].name@));
            }
            assert forall|i: int, j: int| 0 <= i < j < names.len() implies !chars_lt(#[trigger] names[j], #[trigger] names[i]) by {
                if j < rest.len() {
                    assert(names[i] == rest[i] && names[j] == rest[j]);
                } else {
                    assert(names[i] == rest[i]);
                }
            }
        }
    }
}

/// The names that [`conformable`] lists for a registry are in name order,
/// and are exactly the names of its unit definitions that evaluate to
/// `target`.
pub proof fn lemma_conformable_in_name_order(reg: Registry, target: Map<Seq<char>, int>)
    requires
        reg.wf(),
    ensures
        forall|i: int, j: int|
            0 <= i < j < conformable_names(reg.database(), reg.definitions(), target).len() ==> !chars_lt(
                #[trigger] conformable_names(reg.database(), reg.definitions(), target)[j],
                #[trigger] conformable_names(reg.database(), reg.definitions(), target)[i],
            ),
        forall|i: int|
            0 <= i < conformable_names(reg.database(), reg.definitions(), target).len() ==> names_conforming(
                reg.database(),
                reg.definitions(),
                target,
                #[trigger] conformable_names(reg.database(), reg.definitions(), target)[i],
            ),
        forall|k: int|
            0 <= k < reg.definitions().len() && conforms(reg.database(), #[trigger] reg.definitions()[k], target)
                ==> conformable_names(reg.database(), reg.definitions(), target).contains(reg.definitions()[k].name@),
{
    crate::registry::lemma_registry_listing(reg);
    lemma_conformable_names_sorted(reg.database(), reg.definitions(), target);
    lemma_conformable_names_exact(reg.database(), reg.definitions(), target);
}

/// Returns all unit definitions conformable with `expr`, in list order,
/// which is name order.
pub fn conformable(reg: &Registry, expr: &str) -> (r: Result<Vec<String>, UnitsError>)
    requires
        reg.wf(),
    ensures
        match r {
            Ok(names) => (match parse_spec(reg.database(), expr@) {
                Ok(t) => names@.map_values(|s: String| s@) == conformable_names(reg.database(), reg.definitions(), t.0),
                Err(_) => false,
            }) && (forall|i: int, j: int| 0 <= i < j < names@.len() ==> !chars_lt(#[trigger] names@[j]@, #[trigger] names@[i]@)),
            Err(e) => parse_spec(reg.database(), expr@) == Err::<Val, ErrorCode>(e.0),
        },
{
    let target = match Unit::parse(reg, expr) {
        Ok(t) => t,
        Err(e) => {
            return Err(e);
        },
    };
    let defs = reg.list_definitions();
    let ghost tv = unit_val(target);
    let mut names: Vec<String> = Vec::new();
    let mut i: usize = 0;
    proof {
        reveal(conformable_names);
    }
    while i < defs.len()
        invariant
            i <= defs@.len(),
            reg.wf(),
            target.wf(),
            unit_val(target) == tv,
            defs@ == reg.definitions(),
            names@.map_values(|s: String| s@) == conformable_names(reg.database(), defs@.take(i as int), tv.0),
        decreases defs@.len() - i,
    {
        let d = &defs[i];
        let ghost before = names@;
        proof {
            reveal(conformable_names);
            assert(defs@.take(i + 1).drop_last() =~= defs@.take(i as int));
            assert(defs@.take(i + 1).last() == defs@[i as int]);
        }
        if d.kind == DefinitionKind::Unit {
            match Unit::parse(reg, d.name.as_str()) {
                Ok(u) => {
                    if u.is_conformable(&target) {
                        names.push(d.name.clone());
                        proof {
                            assert(names@.map_values(|s: String| s@) =~= before.map_values(|s: String| s@).push(d.name@));
                        }
                    }
                },
                Err(_) => {},
            }
        }
        i = i + 1;
    }
    proof {
        assert(defs@.take(defs@.len() as int) =~= defs@);
        lemma_conformable_in_name_order(*reg, tv.0);
        let nv = names@.map_values(|s: String| s@);
        assert forall|i: int, j: int| 0 <= i < j < names@.len() implies !chars_lt(#[trigger] names@[j]@, #[trigger] names@[i]@) by {
            assert(nv[i] == names@[i]@ && nv[j] == names@[j]@);
        }
    }
    Ok(names)
}

/// Returns all definitions of the registry, in list order (by name).
pub fn list_definitions(reg: &Registry) -> (v: Vec<Definition>)
    ensures
        v@ == reg.definitions(),
{
    reg.list_definitions()
}

/// Reloads currency definitions from a definitions file (see
/// [`Registry::reload_currency`]).
pub fn reload_currency(reg: &mut Registry, content: &str, outside: &Vec<(String, String)>, includes: &Vec<(String, String)>)
    requires
        old(reg).wf(),
    ensures
        final(reg).wf(),
        exists|news: Seq<Definition>|
            {
                &&& crate::definitions::defs_valid(news)
                &&& crate::definitions::defs_view(news) == crate::registry::file_definitions(
                    content@,
                    crate::definitions::vars_view(outside@),
                    crate::definitions::vars_view(includes@),
                )
                &&& final(reg).definitions() == crate::registry::insert_all_by_name(
                    crate::registry::kept_defs(old(reg).definitions(), news),
                    news,
                )
                &&& crate::definitions::registered(
                    old(reg).database().content(),
                    crate::definitions::registrations(crate::definitions::defs_view(news)),
                    final(reg).database().content(),
                )
            },
{
    reg.reload_currency(content, outside, includes)
}

/// Converting `from` through the inverse of function or table `to`: the
/// inverse formula evaluated with `to` bound to the value of `from`, or the
/// reverse table lookup of `from` divided by the table's unit.  `NotAFunc`
/// when `to` is neither a function with an inverse nor a table, or when
/// `from` does not parse.
pub open spec fn convert_func_spec(db: Database, from: Seq<char>, to: Seq<char>) -> Result<Val, ErrorCode> {
    let fm = db.function_map();
    let tm = db.table_map();
    if fm.contains_key(to) {
        match fm[to].reverse {
            None => Err(ErrorCode::NotAFunc),
            Some(rev) => match parse_spec(db, from) {
                Err(_) => Err(ErrorCode::NotAFunc),
                Ok(fv) => eval_text(db, seq![(to, fv)], Seq::empty(), MAX_DEPTH as nat, rev@),
            },
        }
    } else if tm.contains_key(to) {
        match parse_spec(db, from) {
            Err(_) => Err(ErrorCode::NotAFunc),
            Ok(fv) => match parse_spec(db, tm[to].unit@) {
                Err(c) => Err(c),
                Ok(uv) => if fv.0 != uv.0 {
                    Err(ErrorCode::BadFuncArg)
                } else {
                    Ok((
                        Map::empty(),
                        MagView::TableInverse(to, Box::new(MagView::Quotient(Box::new(fv.1), Box::new(uv.1)))),
                    ))
                },
            },
        }
    } else {
        Err(ErrorCode::NotAFunc)
    }
}

/// A conversion through an inverse fails with `NotAFunc` exactly when `to`
/// is a function without an inverse, when `to` is neither a function nor a
/// table, or when `to` is one of them and `from` does not parse: evaluating
/// the inverse formula or the table's unit never reports `NotAFunc`.
pub proof fn lemma_convert_func_not_a_func(db: Database, from: Seq<char>, to: Seq<char>)
    ensures
        (convert_func_spec(db, from, to) == Err::<Val, ErrorCode>(ErrorCode::NotAFunc)) <==> ({
            ||| db.function_map().contains_key(to) && db.function_map()[to].reverse is None
            ||| !db.function_map().contains_key(to) && !db.table_map().contains_key(to)
            ||| (db.function_map().contains_key(to) || db.table_map().contains_key(to)) && parse_spec(db, from) is Err
        }),
{
    if db.function_map().contains_key(to) {
        if let Some(rev) = db.function_map()[to].reverse {
            if let Ok(fv) = parse_spec(db, from) {
                lemma_eval_text_not_a_func(db, seq![(to, fv)], Seq::empty(), MAX_DEPTH as nat, rev@);
            }
        }
    } else if db.table_map().contains_key(to) {
        lemma_eval_text_not_a_func(db, Seq::empty(), Seq::empty(), MAX_DEPTH as nat, db.table_map()[to].unit@);
    }
}

/// Converting into a table `to` (no function of that name) whose unit `u`
/// has the dimensions of `from` looks up, in reverse, the dimensionless
/// quotient `from / u`: the result is the table inverse of the value of
/// that division.
pub proof fn lemma_convert_into_table_divides(db: Database, from: Seq<char>, to: Seq<char>)
    requires
        !db.function_map().contains_key(to),
        db.table_map().contains_key(to),
        parse_spec(db, from) is Ok,
        parse_spec(db, db.table_map()[to].unit@) is Ok,
        parse_spec(db, from)->Ok_0.0 == parse_spec(db, db.table_map()[to].unit@)->Ok_0.0,
    ensures
        ({
            let q = div_vals(parse_spec(db, from)->Ok_0, parse_spec(db, db.table_map()[to].unit@)->Ok_0);
            &&& q is Ok
            &&& q->Ok_0.0 == Map::<Seq<char>, int>::empty()
            &&& convert_func_spec(db, from, to) == Ok::<Val, ErrorCode>(
                (Map::empty(), MagView::TableInverse(to, Box::new(q->Ok_0.1))),
            )
        }),
{
    let f = parse_spec(db, from)->Ok_0;
    let u = parse_spec(db, db.table_map()[to].unit@)->Ok_0;
    assert forall|k: Seq<char>| fits_i32(#[trigger] exponent_of(f.0, k) - exponent_of(u.0, k)) by {}
    assert(quotient_dims(f.0, u.0) =~= Map::<Seq<char>, int>::empty());
}

/// Converts `from` through the inverse of the function or table `to` (see
/// [`convert_func_spec`]); the factor of the result is the converted value.
pub fn convert_func(reg: &Registry, from: &str, to: &str) -> (r: Result<Unit, UnitsError>)
    requires
        reg.wf(),
    ensures
        unit_outcome(r, convert_func_spec(reg.database(), from@, to@)),
{
    let db = reg.db();
    let to_s = String::from_str(to);
    let is_fn = match db.function(&to_s) {
        Some(f) => match &f.reverse {
            None => {
                return Err(UnitsError(ErrorCode::NotAFunc));
            },
            Some(_) => true,
        },
        None => false,
    };
    if !is_fn && db.table(&to_s).is_none() {
        return Err(UnitsError(ErrorCode::NotAFunc));
    }
    let from_val = match Unit::parse(reg, from) {
        Ok(v) => v,
        Err(_) => {
            return Err(UnitsError(ErrorCode::NotAFunc));
        },
    };
    if is_fn {
        match db.function(&to_s) {
            Some(f) => match &f.reverse {
                Some(rev) => {
                    let rc = to_chars(rev.as_str());
                    wrap(evaluate_with(db, &rc, &to_s, from_val))
                },
                None => Err(UnitsError(ErrorCode::NotAFunc)),
            },
            None => Err(UnitsError(ErrorCode::NotAFunc)),
        }
    } else {
        match db.table(&to_s) {
            Some(tb) => {
                let unit_val_r = Unit::parse(reg, tb.unit.as_str());
                match unit_val_r {
                    Err(e) => Err(e),
                    Ok(uv) => {
                        if !from_val.is_conformable(&uv) {
                            return Err(UnitsError(ErrorCode::BadFuncArg));
                        }
                        let (_, fm) = from_val.into_parts();
                        let (_, um) = uv.into_parts();
                        let q = Magnitude::Quotient(Box::new(fm), Box::new(um));
                        assert(mag_view(q) == MagView::Quotient(Box::new(mag_view(fm)), Box::new(mag_view(um))));
                        let ti = Magnitude::TableInverse(to_s, Box::new(q));
                        Ok(Unit::from_parts(Dimensions::empty(), ti))
                    },
                }
            },
            None => Err(UnitsError(ErrorCode::NotAFunc)),
        }
    }
}

/// The factor converting `from` into `to`: through the inverse of a
/// function or table `to` (see [`convert_func_spec`]), else `from / to`,
/// which must be dimensionless.
pub open spec fn convert_spec(db: Database, from: Seq<char>, to: Seq<char>) -> Result<MagView, ErrorCode> {
    match convert_func_spec(db, from, to) {
        Err(ErrorCode::NotAFunc) => match parse_spec(db, from) {
            Err(c) => Err(c),
            Ok(f) => match parse_spec(db, to) {
                Err(c) => Err(c),
                Ok(t) => if !(forall|k: Seq<char>| fits_i32(#[trigger] exponent_of(f.0, k) - exponent_of(t.0, k))) {
                    Err(ErrorCode::BadNum)
                } else if quotient_dims(f.0, t.0) != Map::<Seq<char>, int>::empty() {
                    Err(ErrorCode::NotANumber)
                } else {
                    Ok(MagView::Quotient(Box::new(f.1), Box::new(t.1)))
                },
            },
        },
        Err(c) => Err(c),
        Ok(v) => Ok(v.1),
    }
}

/// Parses `from` and `to` and returns the factor that converts one into
/// the other (see [`convert_spec`]).
pub fn convert(reg: &Registry, from: &str, to: &str) -> (r: Result<Magnitude, UnitsError>)
    requires
        reg.wf(),
    ensures
        match r {
            Ok(m) => convert_spec(reg.database(), from@, to@) == Ok::<MagView, ErrorCode>(mag_view(m)),
            Err(e) => convert_spec(reg.database(), from@, to@) == Err::<MagView, ErrorCode>(e.0),
        },
{
    match convert_func(reg, from, to) {
        Ok(u) => {
            let (_, m) = u.into_parts();
            return Ok(m);
        },
        Err(e) => {
            if e.0 != ErrorCode::NotAFunc {
                return Err(e);
            }
        },
    }
    let f = match Unit::parse(reg, from) {
        Ok(f) => f,
        Err(e) => {
            return Err(e);
        },
    };
    let t = match Unit::parse(reg, to) {
        Ok(t) => t,
        Err(e) => {
            return Err(e);
        },
    };
    if !f.can_divide(&t) {
        return Err(UnitsError(ErrorCode::BadNum));
    }
    f.convert_to(t)
}

} // verus!
