# bevycss

Style sheets for Bevy UI entities. A selector such as `window .border` picks UI entities
by component, name, class and pseudo class; every rule of every style sheet attached to an
entity or one of its ancestors is matched when the entity changes, and each entity's
properties take their values from the rule of highest precedence (more elements first, then
the rule loaded later).

Layout:

- `src/` is the verified library (Verus):
  - `selector.rs`: selector elements, selectors, their text, the split at child relations,
    building selectors from tokens, and the order of precedence with a stable sort.
  - `system/world.rs`: a snapshot of the UI entity tree and the walks up and down it.
  - `system/mod.rs`: matching selectors against the snapshot, and preparing the state.
  - `system/style_tree.rs`: which style sheets apply to an entity.
  - `property/stylesheet_state.rs`: recording selections and computing each entity's style.
  - `property/`: property names, parsing of property values, and the parse cache.
  - `stylesheet.rs`: style rules, the property names of each rule, and decoding sheet files.
  - `hashing.rs`: hashing selectors with `AHasher`, with a record of what each hash was
    computed from.
  - `small_vec.rs`, `keyed.rs`: inline lists of entities and elements, and the key-value lists
    used in place of hash maps (each key once).
- `tests/` runs the library on concrete trees and sheets.
- `app/` is the Bevy plugin: it takes snapshots of the world, calls the library, loads files
  and reacts to asset events.
