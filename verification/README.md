# polyfill-library

Decides which polyfills a request needs and lays out the bundle that serves
them. The logic lives in `src/` and is verified with Verus; `app/` is the
thin service around it that reads the polyfill store (a Fastly KV store),
parses its JSON files with serde and writes the response body.

## Layout

- `src/selection.rs`: the selection of polyfills as a state machine. It
  starts from the requested features sorted by name and walks them in passes
  until a pass changes nothing; each name is excluded, replaced by its
  aliases, dropped, or chosen with its dependencies. Reading aliases and
  configurations is I/O, so the machine asks for a lookup and the caller
  hands back the reply (`Selection::start`, `Selection::resume`).
- `src/features.rs`, `src/names.rs`, `src/strmap.rs`, `src/flags.rs`: the
  state selection works on: `add_feature` and `remove_feature`, the ordered
  set of names (an `indexmap::IndexSet`), string-keyed maps and string sets.
- `src/range.rs`, `src/ua.rs`: the user agent (its family, version and
  whether it is known, as a user-agent parser reports them) and the browser
  version ranges of the configurations, in npm `semver` notation.
- `src/aliases.rs`: reading the alias table from its JSON bytes.
- `src/toposort.rs`: ordering polyfills after their dependencies.
- `src/bundle.rs`: the bundle: header comment, sources in order, gating of
  polyfills for unknown browsers, the callback.
- `src/store.rs`: store keys, and the retry rules for reading a source.
- `src/text.rs`: string order, sorting and joining.

Every public function states its result over spec functions; the laws (for
instance that selection never looks up an excluded feature, that an order
from `toposort` puts each dependency first, and that it reports a cycle only
where no such order exists) are proof functions next to the code.

The user agent is handed to the library already parsed; parsing user-agent
strings is not part of this crate.
