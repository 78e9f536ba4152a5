# incremental_skolem

Incremental, scope-aware Skolemization of first-order formulas, verified with Verus, in front of
Z3.

A solver session enters and leaves scopes, and often asserts the same formula again after
backtracking. The library remembers which Skolem symbol stands for which existential, so that a
formula that comes back gets the symbols it had before. A symbol is found by its full key: the body
of the existential and the ordered list of the universal variables around it. Entries that have
been idle for long are dropped and their slots used again; names are never used again.

## Layout

- `term`, `model`: terms and formulas, the interner that shares them, substitution.
- `nnf`: formulas as written, and their conversion to negation normal form.
- `skolem_table`, `skolemize`: the table of symbols, and the pass that removes existentials.
- `z3_bridge`: translation to Z3, and the solver that Skolemizes what it is told.
- `z3_api`: the calls into the `z3` crate, with what is taken for granted of each.
- `sexpr`, `reading`, `smt2`: S-expressions, their meaning as formulas, and the interpreter for
  scripts.
- `text`, `fingerprint`: characters and numerals, and hashes of formulas.

What is proved of the library as a whole:

- `semantics`, `equivalence`: formulas and their normal forms hold in the same structures.
- `soundness`: over a whole session, every structure extends to one in which each Skolemized
  formula holds exactly where the formula does.
- `reuse`: what is Skolemized again, after any scope changes, comes out the same and mints nothing;
  different keys never share a name.
- `histories`: what holds of every table that can be reached, of two lookups with anything between
  them, and of the counts.
- `translation`, `verdicts`: the translation to Z3 keeps the meaning, so that Z3's definite answers
  are right for the formulas that were asserted.
- `naming`, `renaming`, `scripts`: scoping of names, indifference to the names of variables, and the
  meaning of the answers to a script.

`app/` is a small program that runs a script from a file.

## Limits

Everything lives in one sort. Arithmetic, arrays and other theories are not interpreted. There is no
`let`. Two formulas that bind their variables in a different order are different formulas.
