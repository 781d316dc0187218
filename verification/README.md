# cohdl_check

Static checking of parameterized circuit designs, verified with Verus.

- `eval` — the exact Int/Length expression evaluator, the type checker, and
  dependency-ordered resolution of a body's consts and array lengths.
- `meter` — the deterministic expansion budget (iterations, work items,
  loop frames) and the test for whether a design needs metering at all.
- `definition`, `refs`, `bodies` — declaration-time validation of every fn,
  subdesign and design body, whether or not a design ever expands it.
- `strmap`, `text`, `diag`, `ast`, `world` — the ordered string map, decimal
  and millimetre spelling, diagnostics, the syntax tree, and the declarations
  visible to the checker.

Contracts are stated over spec functions in each module; the public proof
functions named `lemma_*` and `law_*` state the properties that hold across
calls. `tests/` exercises the library on concrete designs.
