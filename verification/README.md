# gnu_units

Dimensional analysis and unit conversion over a GNU units definitions
database, written in Verus: the loader of definition files, the expression
parser and evaluator, the unit arithmetic and the currency file rendering
are verified against their specifications.

Layout:

- `src/` — the verified library.
  - `text.rs`, `dims.rs`, `magnitude.rs`, `unit.rs`, `listing.rs`:
    characters, dimension maps, exact factor terms and their signs, units,
    and why the base-units text determines the dimensions.
  - `database.rs`, `definitions.rs`, `registry.rs`: the database of units,
    prefixes, functions and tables, the reading of definition files, and the
    sorted list of definitions.
  - `syntax.rs`, `eval.rs`, `api.rs`: the lexer and parser of unit
    expressions, their evaluation, and the public parse/convert operations.
  - `currency.rs`: reading the currency template and rendering rates.
- `app/` — the process-wide database loaded from the data files, the
  floating-point value of factors, and fetching rates over the network.
- `tests/` — tests of the library.

A factor is kept as an exact term over the literals it came from; its
floating-point value is computed outside the verified library.  Checks that
depend on the value (the sign under a root, a function's domain) are made in
the library wherever exact arithmetic decides them, and otherwise when the
term is evaluated.
