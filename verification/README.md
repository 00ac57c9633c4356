# lau-measure-agents

Measure theory on finite spaces, with the set-level part verified by Verus.

- `src/` is the verified library: subsets kept as sorted lists of names,
  sigma-algebras (trivial, power set, generated) with their closure
  operations, measurable functions with preimages, images and composition,
  product sigma-algebras, the set part of the Hahn decomposition, and
  agents' discrete state spaces and observation models. Each operation's
  contract speaks of a model over `Set<Seq<char>>`, and `src/laws.rs` proves
  the laws that tie the operations together.
- `app/` holds the real-valued layer on top of the library: measures,
  integrals and convergence theorems, Lebesgue measure on intervals and
  boxes, Radon-Nikodym derivatives, decompositions, Riesz representation,
  pushforwards, beliefs and utilities, and serde forms of the library's types.
- `tests/` exercises the library.
