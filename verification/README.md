# evolutionary_strategy

Evolution strategies: populations of candidate solutions, discrete
recombination, and (mu, lambda) / (mu + lambda) truncation selection,
verified with Verus.

- `src/` is the verified library. Genes, step sizes and fitness values are
  carried as IEEE-754 bit patterns; a fitness also carries an integer rank
  that orders it, and all comparisons go by that rank. Sorting is stable,
  selection keeps the best, and the laws that tie these together are proof
  functions next to the code they speak of (`ranking`, `population`,
  `selection`, `adaptation`).
- `app/` holds the floating-point side: Box-Muller mutation, averaging
  recombination, the 1/5 success rule and step-size statistics, the
  conversion of numbers to ranks, and a generation step with a counter
  shared by all calls.
- `tests/` exercises the library on concrete values.
