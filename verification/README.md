# hlp_brute_force

A search for the shortest chain of Minecraft redstone "layers" that computes a
given function on the sixteen signal strengths (the Hex Layer Problem), with
its logic proved in Verus.

- `src/` is the verified library: comparators and layers (`layer`), legality of
  intermediate outputs (`legality`), the unique layers (`unique_vec`), the pair
  table (`pair_vec`), the union-intersection check (`union_intersect`, over
  `bit_vec::BitVec` declared in `bits`), the odometer search (`search`, with the
  order it follows in `order`), the decisions of the search loop (`driver`)
  and the text it prints (`text`).
- `app/main.rs` runs the search loop, printing the timings, each new depth and
  the solution.
- `tests/` exercises the library on concrete values.
