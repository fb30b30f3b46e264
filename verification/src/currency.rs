//! Currency definitions: reading the currency file template and rendering
//! it with new exchange rates.
use vstd::prelude::*;

use crate::database::{split_words, words};
use crate::definitions::{split_lines, text_lines};
use crate::namemap::NameMap;
use crate::text::{from_chars, slice_vec, to_chars, trim, trim_end, trim_range, utf8_len, utf8_length};

verus! {

/// The services that provide exchange rates.
#[derive(Debug, Clone, Copy, PartialEq, Eq, Structural)]
pub enum CurrencySource {
    /// exchangerate-api.com (an API key selects the authenticated endpoint).
    ExchangerateApi,
    /// floatrates.com (no API key).
    Floatrates,
    /// The European Central Bank (EUR base only, no API key).
    Ecb,
}

/// The label of a source, as written into the rendered file.
pub open spec fn source_label(s: CurrencySource) -> Seq<char> {
    match s {
        CurrencySource::ExchangerateApi => "exchangerate-api.com"@,
        CurrencySource::Floatrates => "floatrates.com"@,
        CurrencySource::Ecb => "ecb.europa.eu"@,
    }
}

impl CurrencySource {
    /// The label of the source (see [`source_label`]).
    pub fn label(self) -> (r: &'static str)
        ensures
            r@ == source_label(self),
    {
        match self {
            CurrencySource::ExchangerateApi => "exchangerate-api.com",
            CurrencySource::Floatrates => "floatrates.com",
            CurrencySource::Ecb => "ecb.europa.eu",
        }
    }
}

/// The configuration of one currency update.
#[derive(Debug, Clone)]
pub struct CurrencyUpdateOptions<'a> {
    /// Where the rates come from.
    pub source: CurrencySource,
    /// The base currency code (e.g. `USD`); upper-cased before use.
    pub base: &'a str,
    /// The API key for exchangerate-api.com, if any.
    pub api_key: Option<&'a str>,
}

impl<'a> Default for CurrencyUpdateOptions<'a> {
    /// exchangerate-api.com, USD base, no API key.
    fn default() -> (o: Self)
        ensures
            o.source == CurrencySource::ExchangerateApi,
            o.base@ == "USD"@,
            o.api_key is None,
    {
        CurrencyUpdateOptions { source: CurrencySource::ExchangerateApi, base: "USD", api_key: None }
    }
}

/// The errors that reading the template and checking rates can give.
#[derive(Debug, Clone)]
pub enum UpdateError {
    /// The currency template lacks an element (named by the message).
    InvalidTemplate(&'static str),
    /// The rate provider's answer or the base currency is unusable.
    Provider(String),
}

/// The message of an error: its category, then its text.
pub open spec fn update_error_message(e: UpdateError) -> Seq<char> {
    match e {
        UpdateError::InvalidTemplate(m) => "invalid currency template: "@ + m@,
        UpdateError::Provider(m) => "currency provider error: "@ + m@,
    }
}

impl UpdateError {
    /// The human-readable message (see [`update_error_message`]).
    pub fn message(&self) -> (s: String)
        ensures
            s@ == update_error_message(*self),
    {
        match self {
            UpdateError::InvalidTemplate(m) => {
                let mut s = String::from_str("invalid currency template: ");
                s.append(m);
                s
            },
            UpdateError::Provider(m) => {
                let mut s = String::from_str("currency provider error: ");
                s.append(m.as_str());
                s
            },
        }
    }
}

/// The marker that starts the rates section of the currency template.
pub open spec fn marker() -> Seq<char> {
    "# Currency exchange rates"@
}

/// Whether `pat` occurs in `s` at index `i`.
pub open spec fn occurs_at(s: Seq<char>, pat: Seq<char>, i: int) -> bool {
    0 <= i && i + pat.len() <= s.len() && s.subrange(i, i + pat.len()) == pat
}

/// The index of the first occurrence of `pat` in `s`.
pub open spec fn find_sub(s: Seq<char>, pat: Seq<char>) -> Option<int> {
    if exists|i: int| occurs_at(s, pat, i) {
        Some(choose|i: int| occurs_at(s, pat, i) && forall|j: int| 0 <= j < i ==> !#[trigger] occurs_at(s, pat, j))
    } else {
        None
    }
}

fn find_substring(s: &Vec<char>, pat: &Vec<char>) -> (r: Option<usize>)
    ensures
        match r {
            Some(i) => find_sub(s@, pat@) == Some(i as int) && i + pat@.len() <= s@.len(),
            None => find_sub(s@, pat@) is None,
        },
{
    let n = s.len();
    let m = pat.len();
    if m > n {
        proof {
            if exists|i: int| occurs_at(s@, pat@, i) {
                let i = choose|i: int| occurs_at(s@, pat@, i);
            }
        }
        return None;
    }
    let mut i: usize = 0;
    while i <= n - m
        invariant
            m <= n,
            n == s@.len(),
            m == pat@.len(),
            i <= n - m + 1,
            forall|j: int| 0 <= j < i ==> !#[trigger] occurs_at(s@, pat@, j),
        decreases n - m + 1 - i,
    {
        let mut k: usize = 0;
        while k < m && s[i + k] == pat[k]
            invariant
                k <= m,
                i + m <= n,
                m == pat@.len(),
                n == s@.len(),
                forall|q: int| 0 <= q < k ==> s@[i + q] == pat@[q],
            decreases m - k,
        {
            k = k + 1;
        }
        if k == m {
            proof {
                assert(s@.subrange(i as int, i + m) =~= pat@);
                assert(occurs_at(s@, pat@, i as int) && forall|j: int| 0 <= j < i ==> !#[trigger] occurs_at(s@, pat@, j));
                let c = choose|c: int| occurs_at(s@, pat@, c) && forall|j: int| 0 <= j < c ==> !#[trigger] occurs_at(s@, pat@, j);
                if c < i {
                    assert(!occurs_at(s@, pat@, c));
                }
                if c > i {
                    assert(!occurs_at(s@, pat@, i as int));
                }
            }
            return Some(i);
        }
        proof {
            assert(!occurs_at(s@, pat@, i as int)) by {
                if occurs_at(s@, pat@, i as int) {
                    assert(s@.subrange(i as int, i + m)[k as int] == s@[i + k]);
                }
            }
        }
        i = i + 1;
    }
    proof {
        if exists|c: int| occurs_at(s@, pat@, c) {
            let c = choose|c: int| occurs_at(s@, pat@, c);
            assert(!occurs_at(s@, pat@, c));
        }
    }
    None
}

/// The currency codes and unit names listed before the rates section:
/// lines (trimmed, not empty, not comments) whose first word has three
/// bytes and which have a second word.
pub open spec fn template_codes(lines: Seq<Seq<char>>) -> Seq<(Seq<char>, Seq<char>)>
    decreases lines.len(),
{
    if lines.len() == 0 {
        Seq::empty()
    } else {
        let rest = template_codes(lines.drop_last());
        let t = trim(lines.last());
        let ws = words(t);
        if t.len() == 0 || t[0] == '#' || ws.len() < 2 || utf8_len(ws[0]) != 3 {
            rest
        } else {
            rest.push((ws[0], ws[1]))
        }
    }
}

/// The definitions already in the rates section: each line (trimmed, not
/// empty, not a comment or directive) maps its first word to the trimmed
/// rest, when that is not empty; later lines win.
pub open spec fn template_existing(lines: Seq<Seq<char>>) -> Map<Seq<char>, Seq<char>>
    decreases lines.len(),
{
    if lines.len() == 0 {
        Map::empty()
    } else {
        let m = template_existing(lines.drop_last());
        let t = trim(lines.last());
        if t.len() == 0 || t[0] == '#' || t[0] == '!' || words(t).len() == 0 {
            m
        } else {
            let name = words(t)[0];
            let def = trim(t.skip(name.len() as int));
            if def.len() > 0 {
                m.insert(name, def)
            } else {
                m
            }
        }
    }
}

/// The parts of the currency template.
pub struct TemplateData {
    /// The text before the rates section, without trailing whitespace.
    pub prelude: String,
    /// The currency codes and their unit names, in template order.
    pub code_to_unit: Vec<(String, String)>,
    /// The definitions already present in the rates section, by unit name.
    pub existing: NameMap<String>,
}

impl TemplateData {
    /// The definitions already in the rates section, by unit name.
    pub closed spec fn existing_map(&self) -> Map<Seq<char>, Seq<char>> {
        self.existing.map().map_values(|s: String| s@)
    }

    /// The names are distinct.
    pub closed spec fn wf(&self) -> bool {
        self.existing.wf()
    }

    /// The definition already given for unit `name`, if any.
    pub fn existing_definition(&self, name: &str) -> (r: Option<String>)
        requires
            self.wf(),
        ensures
            match r {
                Some(d) => self.existing_map().contains_key(name@) && d@ == self.existing_map()[name@],
                None => !self.existing_map().contains_key(name@),
            },
    {
        let key = String::from_str(name);
        match self.existing.get(&key) {
            Some(d) => Some(d.clone()),
            None => None,
        }
    }

    /// Whether a definition is already given for unit `name`.
    pub fn has_existing_definition(&self, name: &str) -> (b: bool)
        requires
            self.wf(),
        ensures
            b == self.existing_map().contains_key(name@),
    {
        self.existing_definition(name).is_some()
    }
}

proof fn lemma_trim_end_step(s: Seq<char>)
    requires
        s.len() > 0,
        crate::text::is_ws(s.last()),
    ensures
        trim_end(s) == trim_end(s.drop_last()),
{
    crate::text::lemma_trailing_ws_bound(s.drop_last());
    assert(trim_end(s) =~= trim_end(s.drop_last()));
}

proof fn lemma_trim_end_done(s: Seq<char>)
    requires
        s.len() == 0 || !crate::text::is_ws(s.last()),
    ensures
        trim_end(s) == s,
{
    assert(trim_end(s) =~= s);
}

fn chars_to_string(v: &Vec<char>) -> (s: String)
    ensures
        s@ == v@,
{
    from_chars(v.as_slice())
}

/// Splits the currency template into its prelude, its currency codes and
/// the definitions already present; `InvalidTemplate` when the rates
/// section marker is missing.
pub fn parse_template(input: &str) -> (r: Result<TemplateData, UpdateError>)
    ensures
        match r {
            Ok(td) => match find_sub(input@, marker()) {
                Some(p) => {
                    &&& td.wf()
                    &&& td.prelude@ == trim_end(input@.take(p))
                    &&& td.code_to_unit@.len() == template_codes(text_lines(td.prelude@)).len()
                    &&& forall|k: int|
                        0 <= k < td.code_to_unit@.len() ==> #[trigger] td.code_to_unit@[k].0@ == template_codes(
                            text_lines(td.prelude@),
                        )[k].0 && td.code_to_unit@[k].1@ == template_codes(text_lines(td.prelude@))[k].1
                    &&& td.existing_map() == template_existing(text_lines(input@.skip(p)))
                },
                None => false,
            },
            Err(e) => find_sub(input@, marker()) is None && (e matches UpdateError::InvalidTemplate(m)
                && m@ == "missing rates section marker"@),
        },
{
    let s = to_chars(input);
    let pat = to_chars("# Currency exchange rates");
    let pos = match find_substring(&s, &pat) {
        Some(p) => p,
        None => {
            return Err(UpdateError::InvalidTemplate("missing rates section marker"));
        },
    };
    // the prelude, without trailing whitespace
    let head = slice_vec(&s, 0, pos);
    let mut e = head.len();
    proof {
        assert(head@.take(head@.len() as int) =~= head@);
    }
    while e > 0 && crate::text::is_whitespace(head[e - 1])
        invariant
            e <= head@.len(),
            trim_end(head@) == trim_end(head@.take(e as int)),
        decreases e,
    {
        proof {
            assert(head@.take(e as int).drop_last() =~= head@.take(e - 1));
            lemma_trim_end_step(head@.take(e as int));
        }
        e = e - 1;
    }
    let pre = slice_vec(&head, 0, e);
    proof {
        lemma_trim_end_done(head@.take(e as int));
        assert(head@ =~= s@.take(pos as int));
        assert(pre@ =~= head@.take(e as int));
    }
    // currency codes of the prelude
    let plines = split_lines(&pre);
    let ghost pl = text_lines(pre@);
    let mut codes: Vec<(String, String)> = Vec::new();
    let mut i: usize = 0;
    while i < plines.len()
        invariant
            i <= plines@.len(),
            pl == text_lines(pre@),
            plines@.len() == pl.len(),
            forall|k: int| 0 <= k < plines@.len() ==> #[trigger] plines@[k]@ == pl[k],
            codes@.len() == template_codes(pl.take(i as int)).len(),
            forall|k: int|
                0 <= k < codes@.len() ==> #[trigger] codes@[k].0@ == template_codes(pl.take(i as int))[k].0
                    && codes@[k].1@ == template_codes(pl.take(i as int))[k].1,
        decreases plines@.len() - i,
    {
        let t = trim_range(&plines[i], 0, plines[i].len());
        proof {
            assert(plines@[i as int]@.subrange(0, plines@[i as int]@.len() as int) =~= pl[i as int]);
            assert(pl.take(i + 1).drop_last() =~= pl.take(i as int));
            assert(pl.take(i + 1).last() == pl[i as int]);
        }
        let ws = split_words(&t);
        let ghost before = codes@;
        if !(t.len() == 0 || t[0] == '#' || ws.len() < 2) && utf8_length(&ws[0]) == 3 {
            codes.push((chars_to_string(&ws[0]), chars_to_string(&ws[1])));
            proof {
                assert forall|k: int| 0 <= k < codes@.len() implies #[trigger] codes@[k].0@ == template_codes(pl.take(i + 1))[k].0
                    && codes@[k].1@ == template_codes(pl.take(i + 1))[k].1 by {
                    if k < before.len() {
                        assert(codes@[k] == before[k]);
                    }
                }
            }
        }
        i = i + 1;
    }
    proof {
        assert(pl.take(pl.len() as int) =~= pl);
    }
    // definitions already in the rates section
    let rest = slice_vec(&s, pos, s.len());
    let rlines = split_lines(&rest);
    let ghost rl = text_lines(rest@);
    let mut existing: NameMap<String> = NameMap::new();
    let mut j: usize = 0;
    proof {
        assert(rest@ =~= input@.skip(pos as int));
        assert(existing.map().map_values(|x: String| x@) =~= template_existing(rl.take(0)));
    }
    while j < rlines.len()
        invariant
            j <= rlines@.len(),
            rl == text_lines(rest@),
            rlines@.len() == rl.len(),
            forall|k: int| 0 <= k < rlines@.len() ==> #[trigger] rlines@[k]@ == rl[k],
            existing.wf(),
            existing.map().map_values(|x: String| x@) == template_existing(rl.take(j as int)),
        decreases rlines@.len() - j,
    {
        let t = trim_range(&rlines[j], 0, rlines[j].len());
        proof {
            assert(rlines@[j as int]@.subrange(0, rlines@[j as int]@.len() as int) =~= rl[j as int]);
            assert(rl.take(j + 1).drop_last() =~= rl.take(j as int));
            assert(rl.take(j + 1).last() == rl[j as int]);
        }
        if !(t.len() == 0 || t[0] == '#' || t[0] == '!') {
            let ws = split_words(&t);
            if ws.len() > 0 {
                let name = &ws[0];
                proof {
                    crate::database::lemma_words_bounded(t@);
                }
                if name.len() <= t.len() {
                    let def = trim_range(&t, name.len(), t.len());
                    proof {
                        assert(t@.subrange(name@.len() as int, t@.len() as int) =~= t@.skip(name@.len() as int));
                    }
                    if def.len() > 0 {
                        let ghost m0 = existing.map();
                        existing.insert(chars_to_string(name), chars_to_string(&def));
                        proof {
                            assert(existing.map().map_values(|x: String| x@) =~= m0.map_values(|x: String| x@).insert(name@, def@));
                        }
                    }
                }
            }
        }
        j = j + 1;
    }
    proof {
        assert(rl.take(rl.len() as int) =~= rl);
    }
    Ok(TemplateData { prelude: chars_to_string(&pre), code_to_unit: codes, existing })
}

} // verus!

verus! {

/// The unit name of the first currency listed with `code`.
pub open spec fn unit_for_code(codes: Seq<(Seq<char>, Seq<char>)>, code: Seq<char>) -> Option<Seq<char>>
    decreases codes.len(),
{
    if codes.len() == 0 {
        None
    } else if codes[0].0 == code {
        Some(codes[0].1)
    } else {
        unit_for_code(codes.drop_first(), code)
    }
}

/// The rate text given last for `code`.
pub open spec fn rate_for(rates: Seq<(Seq<char>, Seq<char>)>, code: Seq<char>) -> Option<Seq<char>>
    decreases rates.len(),
{
    if rates.len() == 0 {
        None
    } else if rates.last().0 == code {
        Some(rates.last().1)
    } else {
        rate_for(rates.drop_last(), code)
    }
}

/// `n` spaces.
pub open spec fn spaces(n: nat) -> Seq<char>
    decreases n,
{
    if n == 0 {
        Seq::empty()
    } else {
        spaces((n - 1) as nat).push(' ')
    }
}

/// `s` padded with spaces to 26 characters (as `{:<26}`).
pub open spec fn pad26(s: Seq<char>) -> Seq<char> {
    if s.len() < 26 {
        s + spaces((26 - s.len()) as nat)
    } else {
        s
    }
}

/// The definition of a currency by its rate against the base unit:
/// `1|rate base_unit`.
pub open spec fn rate_def(rate: Seq<char>, base_unit: Seq<char>) -> Seq<char> {
    "1|"@ + rate + " "@ + base_unit
}

/// The line for one currency of the template: the base currency is
/// primitive, a currency with a rate is defined by it, one without keeps
/// the definition already present, if any.
pub open spec fn currency_line(
    code: Seq<char>,
    unit: Seq<char>,
    base: Seq<char>,
    base_unit: Seq<char>,
    rates: Seq<(Seq<char>, Seq<char>)>,
    existing: Map<Seq<char>, Seq<char>>,
) -> Seq<char> {
    if code == base {
        pad26(unit) + " !\n"@
    } else {
        match rate_for(rates, code) {
            Some(r) => pad26(unit) + " "@ + rate_def(r, base_unit) + "\n"@,
            None => if existing.contains_key(unit) {
                pad26(unit) + " "@ + existing[unit] + "\n"@
            } else {
                Seq::empty()
            },
        }
    }
}

/// The lines for the first `n` currencies of the template.
pub open spec fn currency_lines(
    codes: Seq<(Seq<char>, Seq<char>)>,
    n: int,
    base: Seq<char>,
    base_unit: Seq<char>,
    rates: Seq<(Seq<char>, Seq<char>)>,
    existing: Map<Seq<char>, Seq<char>>,
) -> Seq<char>
    decreases n,
{
    if n <= 0 || n > codes.len() {
        Seq::empty()
    } else {
        currency_lines(codes, n - 1, base, base_unit, rates, existing) + currency_line(
            codes[n - 1].0,
            codes[n - 1].1,
            base,
            base_unit,
            rates,
            existing,
        )
    }
}

/// The header of a rendered currency file.
pub open spec fn currency_header(prelude: Seq<char>, base: Seq<char>, label: Seq<char>, date: Seq<char>) -> Seq<
    char,
> {
    let p = if prelude.len() > 0 && prelude.last() == '\n' {
        prelude
    } else {
        prelude.push('\n')
    };
    p + "\n"@ + "# Currency exchange rates \n\n"@ + "!message Currency exchange rates from "@ + label + " ("@
        + base + " base) on "@ + date + "\n\n"@
}

/// The view of a list of string pairs.
pub open spec fn pairs_view(v: Seq<(String, String)>) -> Seq<(Seq<char>, Seq<char>)> {
    v.map_values(|p: (String, String)| (p.0@, p.1@))
}

/// The definition `1|rate base_unit` of a currency (see [`rate_def`]).
pub fn format_rate_definition(rate: &str, base_unit: &str) -> (s: String)
    ensures
        s@ == rate_def(rate@, base_unit@),
{
    let mut s = String::from_str("1|");
    s.append(rate);
    s.append(" ");
    s.append(base_unit);
    s
}

fn push_padded(out: &mut String, name: &String)
    ensures
        final(out)@ == old(out)@ + pad26(name@),
{
    out.append(name.as_str());
    let n = to_chars(name.as_str());
    let mut k = n.len();
    proof {
        assert(old(out)@ + name@ + spaces(0) =~= old(out)@ + name@);
    }
    while k < 26
        invariant
            n@ == name@,
            n@.len() <= k <= 26 || (k == n@.len() && k >= 26),
            out@ == old(out)@ + name@ + spaces((k - n@.len()) as nat),
        decreases 26 - k,
    {
        out.push(' ');
        proof {
            assert(spaces((k + 1 - n@.len()) as nat) == spaces((k - n@.len()) as nat).push(' '));
            assert(old(out)@ + name@ + spaces((k + 1 - n@.len()) as nat) =~= old(out)@ + name@ + spaces((k - n@.len()) as nat) + seq![' ']);
        }
        k = k + 1;
    }
    proof {
        if name@.len() >= 26 {
            assert(old(out)@ + name@ + spaces(0) =~= old(out)@ + pad26(name@));
        } else {
            assert(old(out)@ + name@ + spaces((26 - name@.len()) as nat) =~= old(out)@ + pad26(name@));
        }
    }
}

fn find_rate(rates: &Vec<(String, String)>, code: &String) -> (r: Option<String>)
    ensures
        opt_view(r) == rate_for(pairs_view(rates@), code@),
{
    let ghost pv = pairs_view(rates@);
    let mut i = rates.len();
    proof {
        assert(pv.take(i as int) =~= pv);
    }
    while i > 0
        invariant
            i <= rates@.len(),
            pv == pairs_view(rates@),
            rate_for(pv, code@) == rate_for(pv.take(i as int), code@),
        decreases i,
    {
        i = i - 1;
        proof {
            assert(pv.take(i + 1).drop_last() =~= pv.take(i as int));
            assert(pv.take(i + 1).last() == pv[i as int]);
            assert(pv[i as int] == (rates@[i as int].0@, rates@[i as int].1@));
        }
        if rates[i].0 == *code {
            return Some(rates[i].1.clone());
        }
    }
    None
}

/// The view of an optional string.
pub open spec fn opt_view(o: Option<String>) -> Option<Seq<char>> {
    match o {
        Some(s) => Some(s@),
        None => None,
    }
}

/// Renders the currency file: the header, then one line per currency of
/// the template (see [`currency_line`]); `rates` gives each code's rate
/// as text.  `Provider` when the base currency is not in the template.
pub fn build_currency_template(
    template: &TemplateData,
    rates: &Vec<(String, String)>,
    base: &str,
    source_label: &str,
    date: &str,
) -> (r: Result<String, UpdateError>)
    requires
        template.wf(),
    ensures
        match unit_for_code(pairs_view(template.code_to_unit@), base@) {
            Some(bu) => r matches Ok(s) && s@ == currency_header(template.prelude@, base@, source_label@, date@)
                + currency_lines(
                pairs_view(template.code_to_unit@),
                template.code_to_unit@.len() as int,
                base@,
                bu,
                pairs_view(rates@),
                template.existing_map(),
            ),
            None => r matches Err(UpdateError::Provider(m)) && m@ == "base currency "@ + base@ + " not found in template"@,
        },
{
    let codes = &template.code_to_unit;
    let ghost cv = pairs_view(codes@);
    let base_s = String::from_str(base);
    // the unit of the base currency
    let mut i: usize = 0;
    proof {
        assert(cv.skip(0) =~= cv);
    }
    while i < codes.len() && !(codes[i].0 == base_s)
        invariant
            i <= codes@.len(),
            cv == pairs_view(codes@),
            base_s@ == base@,
            unit_for_code(cv, base@) == unit_for_code(cv.skip(i as int), base@),
        decreases codes@.len() - i,
    {
        proof {
            assert(cv.skip(i as int)[0] == cv[i as int]);
            assert(cv[i as int] == (codes@[i as int].0@, codes@[i as int].1@));
            assert(cv.skip(i as int).drop_first() =~= cv.skip(i + 1));
        }
        i = i + 1;
    }
    if i == codes.len() {
        proof {
            assert(cv.skip(i as int) =~= Seq::<(Seq<char>, Seq<char>)>::empty());
        }
        let mut m = String::from_str("base currency ");
        m.append(base);
        m.append(" not found in template");
        return Err(UpdateError::Provider(m));
    }
    proof {
        assert(cv.skip(i as int)[0] == cv[i as int]);
        assert(cv[i as int] == (codes@[i as int].0@, codes@[i as int].1@));
    }
    let base_unit = &codes[i].1;
    let mut out = String::new();
    out.append(template.prelude.as_str());
    let pc = to_chars(template.prelude.as_str());
    if !(pc.len() > 0 && pc[pc.len() - 1] == '\n') {
        out.push('\n');
    }
    out.append("\n");
    out.append("# Currency exchange rates \n\n");
    out.append("!message Currency exchange rates from ");
    out.append(source_label);
    out.append(" (");
    out.append(base);
    out.append(" base) on ");
    out.append(date);
    out.append("\n\n");
    let ghost header = out@;
    proof {
        let p = if template.prelude@.len() > 0 && template.prelude@.last() == '\n' {
            template.prelude@
        } else {
            template.prelude@.push('\n')
        };
        assert(header =~= currency_header(template.prelude@, base@, source_label@, date@));
    }
    let ghost ex = template.existing_map();
    let mut k: usize = 0;
    while k < codes.len()
        invariant
            k <= codes@.len(),
            cv == pairs_view(codes@),
            base_s@ == base@,
            template.wf(),
            ex == template.existing_map(),
            out@ == header + currency_lines(cv, k as int, base@, base_unit@, pairs_view(rates@), ex),
        decreases codes@.len() - k,
    {
        let code = &codes[k].0;
        let unit = &codes[k].1;
        proof {
            assert(cv[k as int] == (code@, unit@));
        }
        let ghost before = out@;
        if *code == base_s {
            push_padded(&mut out, unit);
            out.append(" !\n");
        } else {
            match find_rate(rates, code) {
                Some(rt) => {
                    push_padded(&mut out, unit);
                    out.append(" ");
                    let d = format_rate_definition(rt.as_str(), base_unit.as_str());
                    out.append(d.as_str());
                    out.append("\n");
                },
                None => match template.existing_definition(unit.as_str()) {
                    Some(e) => {
                        push_padded(&mut out, unit);
                        out.append(" ");
                        out.append(e.as_str());
                        out.append("\n");
                    },
                    None => {},
                },
            }
        }
        proof {
            let line = currency_line(code@, unit@, base@, base_unit@, pairs_view(rates@), ex);
            assert(out@ =~= before + line);
            assert(currency_lines(cv, k + 1, base@, base_unit@, pairs_view(rates@), ex) == currency_lines(cv, k as int, base@, base_unit@, pairs_view(rates@), ex) + line);
        }
        k = k + 1;
    }
    Ok(out)
}

} // verus!

verus! {

/// A character in ASCII upper case.
pub open spec fn upper_char(c: char) -> char {
    if 'a' <= c <= 'z' {
        ((c as u32) - 32) as char
    } else {
        c
    }
}

fn upper_of(c: char) -> (u: char)
    ensures
        u == upper_char(c),
{
    match c {
        'a' => 'A',
        'b' => 'B',
        'c' => 'C',
        'd' => 'D',
        'e' => 'E',
        'f' => 'F',
        'g' => 'G',
        'h' => 'H',
        'i' => 'I',
        'j' => 'J',
        'k' => 'K',
        'l' => 'L',
        'm' => 'M',
        'n' => 'N',
        'o' => 'O',
        'p' => 'P',
        'q' => 'Q',
        'r' => 'R',
        's' => 'S',
        't' => 'T',
        'u' => 'U',
        'v' => 'V',
        'w' => 'W',
        'x' => 'X',
        'y' => 'Y',
        'z' => 'Z',
        _ => c,
    }
}

/// `s` in ASCII upper case (as `str::to_ascii_uppercase`).
pub fn ascii_upper(s: &str) -> (r: String)
    ensures
        r@ == s@.map_values(|c: char| upper_char(c)),
{
    let v = to_chars(s);
    let mut out: Vec<char> = Vec::new();
    let mut i: usize = 0;
    while i < v.len()
        invariant
            i <= v@.len(),
            v@ == s@,
            out@ == v@.take(i as int).map_values(|c: char| upper_char(c)),
        decreases v@.len() - i,
    {
        let c = v[i];
        let u = upper_of(c);
        out.push(u);
        proof {
            assert(out@ =~= v@.take(i + 1).map_values(|c: char| upper_char(c)));
        }
        i = i + 1;
    }
    proof {
        assert(v@.take(v@.len() as int) =~= v@);
    }
    from_chars(out.as_slice())
}

/// The base currency the rates are fetched and rendered against: the
/// requested code in upper case, except for the ECB, which always quotes
/// against the euro and ignores the requested base.
pub fn checked_base(source: CurrencySource, base: &str) -> (r: String)
    ensures
        source == CurrencySource::Ecb ==> r@ == "EUR"@,
        source != CurrencySource::Ecb ==> r@ == base@.map_values(|c: char| upper_char(c)),
{
    if source == CurrencySource::Ecb {
        return String::from_str("EUR");
    }
    ascii_upper(base)
}

/// Checks an exchangerate-api.com answer: `result` must be `success`
/// (else `Provider` with the reported error type, or a generic message),
/// and the rates must be present (else `Provider` with `missing`).
pub fn check_rates_response(result: &Option<String>, error_type: &Option<String>, has_rates: bool, missing: &str) -> (r:
    Result<(), UpdateError>)
    ensures
        match r {
            Ok(()) => opt_view(*result) == Some("success"@) && has_rates,
            Err(e) => e matches UpdateError::Provider(m) && (if opt_view(*result) != Some("success"@) {
                m@ == (match opt_view(*error_type) {
                    Some(t) => t,
                    None => "unknown exchangerate-api error"@,
                })
            } else {
                !has_rates && m@ == missing@
            }),
        },
{
    let ok = match result {
        Some(r) => *r == String::from_str("success"),
        None => false,
    };
    if !ok {
        let m = match error_type {
            Some(t) => t.clone(),
            None => String::from_str("unknown exchangerate-api error"),
        };
        return Err(UpdateError::Provider(m));
    }
    if !has_rates {
        return Err(UpdateError::Provider(String::from_str(missing)));
    }
    Ok(())
}

/// The value of attribute `attr` quoted with `q` in `text`: the text after
/// the first `attr=q` up to the next `q`.
pub open spec fn xml_attr_quoted(text: Seq<char>, attr: Seq<char>, q: char) -> Option<Seq<char>> {
    let needle = attr + seq!['=', q];
    match find_sub(text, needle) {
        Some(st) => upto_char(text.skip(st + needle.len()), q),
        None => None,
    }
}

/// The value of attribute `attr` in `text`, double quotes tried first.
pub open spec fn xml_attr(text: Seq<char>, attr: Seq<char>) -> Option<Seq<char>> {
    match xml_attr_quoted(text, attr, '"') {
        Some(v) => Some(v),
        None => xml_attr_quoted(text, attr, '\''),
    }
}

/// The text before the first `q` of `after`, if `q` occurs in it.
pub open spec fn upto_char(after: Seq<char>, q: char) -> Option<Seq<char>> {
    match crate::text::find_char(after, q) {
        Some(e) => Some(after.take(e)),
        None => None,
    }
}

fn value_upto(after: &Vec<char>, q: char) -> (r: Option<String>)
    ensures
        opt_view(r) == upto_char(after@, q),
{
    proof {
        assert(after@.skip(0) =~= after@);
    }
    match crate::text::find_char_from(after, q, 0) {
        Some(e) => {
            let v = slice_vec(after, 0, e);
            proof {
                assert(v@ =~= after@.take(e as int));
            }
            Some(chars_to_string(&v))
        },
        None => None,
    }
}

fn attr_quoted(t: &Vec<char>, attr: &Vec<char>, q: char) -> (r: Option<String>)
    ensures
        opt_view(r) == xml_attr_quoted(t@, attr@, q),
{
    let mut needle = slice_vec(attr, 0, attr.len());
    needle.push('=');
    needle.push(q);
    proof {
        assert(needle@ =~= attr@ + seq!['=', q]);
    }
    match find_substring(t, &needle) {
        Some(st) => {
            let nl = needle.len();
            let tl = t.len();
            assert(st + nl <= tl);
            let after = slice_vec(t, st + nl, tl);
            proof {
                assert(after@ =~= t@.skip(st + needle@.len()));
            }
            value_upto(&after, q)
        },
        None => None,
    }
}

/// Reads the value of attribute `attr` from one line of XML (see
/// [`xml_attr`]).
pub fn parse_xml_attr(text: &str, attr: &str) -> (r: Option<String>)
    ensures
        opt_view(r) == xml_attr(text@, attr@),
{
    let t = to_chars(text);
    let a = to_chars(attr);
    match attr_quoted(&t, &a, '"') {
        Some(v) => Some(v),
        None => attr_quoted(&t, &a, '\''),
    }
}


/// The currency code and rate text of one line of the ECB daily feed: a
/// line (trimmed) that mentions `currency=` and carries both a `currency`
/// and a `rate` attribute.
pub open spec fn ecb_line_rate(line: Seq<char>) -> Option<(Seq<char>, Seq<char>)> {
    let l = trim(line);
    if find_sub(l, "currency="@) is None {
        None
    } else {
        match (xml_attr(l, "currency"@), xml_attr(l, "rate"@)) {
            (Some(c), Some(r)) => Some((c, r)),
            _ => None,
        }
    }
}

/// The code and rate text of each line of the feed that gives one, in
/// feed order.
pub open spec fn ecb_rates(lines: Seq<Seq<char>>) -> Seq<(Seq<char>, Seq<char>)>
    decreases lines.len(),
{
    if lines.len() == 0 {
        Seq::empty()
    } else {
        let rest = ecb_rates(lines.drop_last());
        match ecb_line_rate(lines.last()) {
            Some(p) => rest.push(p),
            None => rest,
        }
    }
}

fn line_rate(line: &Vec<char>) -> (r: Option<(String, String)>)
    ensures
        match r {
            Some(p) => ecb_line_rate(line@) == Some((p.0@, p.1@)),
            None => ecb_line_rate(line@) is None,
        },
{
    let l = trim_range(line, 0, line.len());
    proof {
        assert(line@.subrange(0, line@.len() as int) =~= line@);
        reveal_strlit("currency=");
        reveal_strlit("currency");
        reveal_strlit("rate");
    }
    let needle = to_chars("currency=");
    if find_substring(&l, &needle).is_none() {
        return None;
    }
    let ls = chars_to_string(&l);
    let c = parse_xml_attr(ls.as_str(), "currency");
    let r = parse_xml_attr(ls.as_str(), "rate");
    match (c, r) {
        (Some(c), Some(r)) => Some((c, r)),
        _ => None,
    }
}

/// The code and rate text of every rate line of an ECB daily feed (see
/// [`ecb_rates`]); the rates are turned into numbers by the caller.
pub fn ecb_rate_texts(text: &str) -> (r: Vec<(String, String)>)
    ensures
        pairs_view(r@) == ecb_rates(text_lines(text@)),
{
    let chars = to_chars(text);
    let lines = split_lines(&chars);
    let ghost ls = text_lines(text@);
    let mut out: Vec<(String, String)> = Vec::new();
    let mut i: usize = 0;
    while i < lines.len()
        invariant
            i <= lines@.len(),
            lines@.len() == ls.len(),
            forall|k: int| 0 <= k < lines@.len() ==> #[trigger] lines@[k]@ == ls[k],
            pairs_view(out@) == ecb_rates(ls.take(i as int)),
        decreases lines@.len() - i,
    {
        let ghost before = out@;
        proof {
            assert(ls.take(i + 1).drop_last() =~= ls.take(i as int));
            assert(ls.take(i + 1).last() == ls[i as int]);
        }
        match line_rate(&lines[i]) {
            Some(p) => {
                out.push(p);
                proof {
                    assert(pairs_view(out@) =~= pairs_view(before).push((p.0@, p.1@)));
                }
            },
            None => {},
        }
        i = i + 1;
    }
    proof {
        assert(ls.take(lines@.len() as int) =~= ls);
    }
    out
}

/// The ECB rates to render: `Provider` when the feed gave none, else the
/// feed's rates followed by the euro itself at rate `1`.
pub fn finish_ecb_rates(rates: Vec<(String, String)>) -> (r: Result<Vec<(String, String)>, UpdateError>)
    ensures
        match r {
            Ok(v) => rates@.len() > 0 && pairs_view(v@) == pairs_view(rates@).push(("EUR"@, "1"@)),
            Err(e) => rates@.len() == 0 && (e matches UpdateError::Provider(m) && m@ == "ECB feed returned no rates"@),
        },
{
    if rates.len() == 0 {
        return Err(UpdateError::Provider(String::from_str("ECB feed returned no rates")));
    }
    let mut v = rates;
    let ghost before = v@;
    v.push((String::from_str("EUR"), String::from_str("1")));
    proof {
        assert(pairs_view(v@) =~= pairs_view(before).push(("EUR"@, "1"@)));
    }
    Ok(v)
}

} // verus!
