# lambda_kn

Normal-order evaluation of pure (untyped) lambda calculus terms with the
full-reducing Krivine abstract machine KN, as described by García-Pérez and
Nogueira ("The full-reducing Krivine abstract machine KN simulates pure
normal-order reduction in lockstep", J. Funct. Prog. 29, e7, 2019, Fig. 3),
with its behaviour stated in contracts and proved.

Terms use De Bruijn indices. The machine evaluates closures (terms with the
environments in which they are evaluated), which gives normal-order beta
reduction without capture-avoiding substitution.

## Layout

- `src/term.rs`: the `Term` type, scoping, normal forms, pre-order traversal.
- `src/beta.rs`: beta reduction and normal-order reduction on terms with
  unbounded indices, the mathematical reference for evaluation.
- `src/machine/rules.rs`: the machine's states and transitions as
  mathematics, and the invariant of reachable states.
- `src/machine/readback.rs`: what a state stands for; every transition
  either keeps it or makes one normal-order step in it.
- `src/machine/halting.rs`: the machine stops on every term that
  normal-order reduction brings to a normal form.
- `src/machine/mod.rs`: the executable machine, `eval` and `eval_within`.
- `src/numerals.rs`: Church numerals; addition and multiplication of
  numerals by normal-order reduction and by the machine.
- `src/format/blc.rs`: Binary Lambda Calculus notation (lexing, parsing,
  encoding) with its round-trip properties.
- `src/format/named.rs`: the notation with named variables, `(λa. a)`, and
  the one with De Bruijn indices, `(λ 0)`.

## What is proved

For a closed term on which the machine stops (every closed term whose
normal-order reduction reaches a normal form, within the machine's integer
range), `eval` returns the closed term in beta-normal form that normal-order
reduction reaches. The machine gives back a term in normal form unchanged,
and adds and multiplies Church numerals. Decoding the BLC or named notation
of a closed term gives the term back, and every function is free of panics
and overflow.
