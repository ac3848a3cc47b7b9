# ccc

Optimization passes of a C compiler, with proofs in Verus that they do what their
contracts say.

- `ir` - the intermediate representation: values, constants, instructions, blocks.
- `float` - floating-point numbers held as bits, with exact rounding.
- `passes` - passes over the intermediate representation: use-def information with
  the sites of every use (`use_def`), folding of constants (`constant_fold`), and
  sparse conditional constant propagation (`lattice`, `sccp`). `fixpoint` proves that
  the propagation ends where nothing is left to find out, `greatest` that nothing more
  could be concluded and that a second run changes nothing, and `execution` that what it
  concludes holds of every run and that rewriting keeps the runs.
- `peephole` - passes over lines of x86-64 assembly: local patterns (`combined`,
  `local_patterns`, `narrow`, `address_folds`, `routing`), compares and branches
  (`compare_branch`), loops (`loop_trampoline`) and join blocks (`join_blocks`). They
  share the model of lines in `types`, text primitives in `text`, liveness scans in
  `liveness` and the sweep over lines in `sweep`. What holds of the passes as a whole is
  proved in `laws` (they shorten the code), in `local_laws` (which lines the local
  patterns leave alone) and in `paths` (a register or flags found dead are written before
  any line that may read them, where reading and writing are told from a line's operands
  and from what its instruction uses without naming it). `equivalence` and
  `register_moves` run folded lines and join blocks on registers alone. `machine` runs
  lines on registers, memory and flags, under what every processor keeps to; `redirects`,
  `values`, `operands` and `flags` prove over it that redirected loads, bypassed blocks,
  narrowed operations, fused and direct moves, and masks that serve as tests leave the
  state the lines they stand for leave, but for registers and flags that are not read.

Each pass is specified by a function from lines to lines (or from a function to a
function), and the executable code is proved equal to it.
