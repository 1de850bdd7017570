# osmnexus

Classifies OpenStreetMap elements by rules that are data, and builds the rows of a routable
network from what they keep. What counts as an edge, how tags are cleaned and which attributes are
derived is configuration; the library holds the engine that runs it, written and proved in Verus.

## Layout

- `src/lang/` — conditions, tag reads, sanitizer chains and value producers.
- `src/categorize/` — categories and their priority order, transforms that rewrite or split an
  object, conditions as boolean expressions, and the lint for overlapping categories.
- `src/decision_tree/` — the net that a list of conditions is compiled into, its run, its cost, and
  the proof that it finds what a walk over the list finds.
- `src/classify/`, `src/engine/` — conditions that name macros and sanitizers, topics as they are
  loaded, and the rows that a topic gives for an element.
- `src/geom/` — EWKB, rings of relations, the rows of ways, nodes and relations, and their staging
  format. Coordinates and lengths are the bit patterns of doubles, measured by the caller.
- `src/db/` — the SQL of tables, indexes, tiles and routing edges.
- `src/dag/`, `src/json.rs` — conditions, nets and producers drawn as graphs; JSON text.
- `app/` — the command line: settings, files, the database, projection and lengths.
- `tests/` — examples.

## What is trusted

A few functions hand their work to `std`, `rustc_hash`, `hex` and `serde_json`; each says in its
comment what it claims of the function that it calls.
