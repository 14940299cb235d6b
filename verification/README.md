# armfortas

The verified core of a Fortran compiler: the lexer for free and fixed source
form, the intermediate representation with its verifier and its control-flow
analyses, and the optimisation passes that rewrite it.

* `src/lexer` – tokens of free-form and fixed-form source.
* `src/ir` – values, blocks and functions; reachability, dominance, natural
  loops; the verifier, and what it means that it finds nothing.
* `src/opt` – alias, dependence, purity and floating-point-environment analyses,
  and the passes: folding, propagation, sharing, dead code, dead stores, dead
  arguments, dead functions, bounds checks, call resolution, specialisation,
  loop fission and reassociation.
* `src/cli.rs` – exit codes and messages of the command line.
* `app` – the program around the library: arguments, files, floating point.
* `tests` – what the library does on concrete inputs.

Every function of `src` carries a contract over the models in the same file.
Files whose names end in `_laws`, with `ir/sound.rs`, hold statements about
several functions at once, for instance that the passes keep a sound module or
function sound, each under the conditions that its law names, and that folding
wraps and settles.

Floating-point arithmetic is not part of the library: passes that fold numbers
take an evaluator, and `app/floats.rs` gives them the host's.
