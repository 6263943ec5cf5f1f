# lau_functor_network

A category-theoretic toolkit for reasoning about a crate ecosystem: crates are
objects, dependencies are morphisms, and functors, natural transformations,
adjunctions, monads, limits and colimits, Kan extensions, the Yoneda embedding
and sheaves are built on top. The library is written in Verus: every function
carries a contract, and the laws of the library are proof functions.

Layout:

- `src/` — the verified library.
  - `keyed_map.rs`: an insertion-ordered map with distinct keys (the model is
    a `Map` from key text to value).
  - `category.rs`: objects, morphisms, composition, categories; laws for
    associativity of composition and neutrality of identities.
  - `functor.rs`, `natural_transform.rs`, `adjunction.rs`, `kan_extension.rs`,
    `yoneda.rs`, `limit_colimit.rs`, `sheaf_on_category.rs`, `monad.rs`.
  - `composition_engine.rs`: path search, dependency closures and plans over a
    category of crates.
  - `text.rs`: lexicographic order on texts and sorted insertion.
- `tests/` — the test suite, run against the compiled library.
- `app/` — serializable copies of the data types (serde) and the weighted
  views of a category (adjacency matrix and transitive closure with
  `nalgebra`), which use floating point.
