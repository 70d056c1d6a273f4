# korrekt_ucp

Uniqueness constraint propagation (UCP) for Plonkish circuits, verified with Verus.
A set `K` of cells known to be uniquely determined grows by rules on the circuit's zero
equations, together with value facts `Delta` (exact values and finite domains of cells).
Where `K` stops growing, a chooser picks the next cell to ask an outside solver about.

## Layout

- `src/` is the verified library.
  - `integer`, `cell`, `cell_map`, `linear`, `field`: arbitrary-precision integers (behind
    `num-bigint`), cell identifiers and names, sorted cell maps, linear forms, arithmetic
    modulo the field.
  - `expr`, `facts`, `domain`: UCP expressions with abstract scalars, the set `K`, and `Delta`.
  - `rules`: the uniqueness rules and the Assign rule, with their soundness.
  - `value`, `value_sound`: evaluation, zero/non-zero kinds, expression domains and the value
    rules (Root, Assign on values, linear domains), and what they claim of every assignment
    within `Delta` and every choice of the values of unknown scalars.
  - `all_but_one`, `base_conv`, `base_digits`, `bigint_mul`: the larger rules; `bigint_mul`
    states which equations fix each cell it reports.
  - `engine`: the fixpoint run over all rules; its result is closed under every rule and is
    reached from the start by rule steps alone, so every cell it makes unique was proved
    unique by a rule.
  - `plonkish`, `extractor`: translation of gates, copy constraints and lookups of a circuit
    description into zero equations and initial facts.
  - `choose_var`, `pipeline`: the choice of the next cell to query and the decision step of
    the query loop.
- `tests/`: tests of the library on concrete inputs.
- `app/`: the parts that need an outside service or a circuit framework: the query loop
  driver, the sample decoder circuits, and field-element conversion.
