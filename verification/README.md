# ember_query

A small SQL engine over CSV tables, verified with Verus.

It runs `SELECT ... FROM ... [WHERE ...] [GROUP BY ...] [LIMIT n]` queries
(with COUNT, SUM, AVG, MIN and MAX), and offers inner equi-joins and stable
sorting as operators. A query goes through:

- `lexer`, `parser`: the text to tokens to a `SelectStmt` (`ast`);
- `catalog`: the column types of a table, inferred from its first rows;
- `plan`: the statement to a `LogicalPlan`, its text form, and the operator
  tree (`exec::ExecNode`) that runs it;
- `exec`: the operators (scan, filter, projection, limit, aggregation, sort,
  join), each specified by the stream of batches it produces;
  `batch` and `eval` hold the columnar batches and expression evaluation;
  `agg`, `sort` and `join` the per-operator logic;
- `display`: the text table of a result;
- `laws`: properties relating operators' results to their inputs.

The library does no floating-point arithmetic: a double is carried as its
IEEE-754 bits, SUM and AVG of integers are exact ratios, and arithmetic on
doubles, and SUM / AVG over them, give a double computation (`Scalar::Calc`,
a postfix list of steps) that the command line (`app/`) runs, as it parses
and prints doubles.  Doubles compare by their bits (IEEE `totalOrder`),
group by their bits, and join on the text `to_string` gives them where the
library can state it (NaN, the infinities, zeros, integers below 2^53) and
otherwise on their bits.  What needs the value of a computed double is
refused with `Unsupported`: comparing it, sorting or joining on it; so is a
double key whose text the library cannot give, met with a string key (or, for
an integer of 2^53 or more, with an integer key).  A join matches no NULL key,
and a right field whose name the left side has is renamed `right.<name>`.

`app/main.rs` is the command line: `--input file.csv --sql "SELECT ..."`,
and `--explain` to print the plan.
