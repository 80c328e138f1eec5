# MIRAGE index

Verified core of the MIRAGE vector index. MIRAGE is a proximity graph of the
shape of an HNSW graph whose layer 0 is refined out of a random graph instead of
being inserted point by point.

## The library (`src/`)

- `score`: similarity scores as bit patterns, with both orders in use.
- `candidate`: candidate neighbors, and how a pool of them is sorted and cut.
- `faiss_random`: the Mersenne Twister, level draws and shuffles.
- `layer0_model`: the refinement as relations between graphs.
- `refinement_builder`: the refinement itself.
- `layer0_laws`, `layer0_structure`: what the refinement keeps, and what its
  results look like.
- `layer0_determinism`: that the refinement has one result.
- `main_graph`, `main_graph_laws`: the steps that make the whole graph.
- `config`, `mirage`: configurations, validation, opening and building.
- `config_mismatch_optimizer`: which segments have to be rebuilt.
- `named_map`, `operation_error`, `arithmetic`: what the others share.

Single-precision numbers do not occur in the library. A score is its bit
pattern, and level probabilities are whole multiples of `2^-54`, which is exact
for every number that a level draw compares or subtracts.

## Around it (`app/`)

Threads, files, logging and floating point: the refinement on a thread pool, the
config files, and the index over an HNSW runtime.
