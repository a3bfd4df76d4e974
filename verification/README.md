# taplo_core

The schema-loading security policy, the schema associations and the DOM tree of the
Taplo TOML toolkit, with their behaviour stated in contracts and proved by Verus.

- `src/` is the verified library.
  - `security`, `paths` — the security guard: which URLs, file paths (read in lexical
    normal form) and schema contents are accepted, and the audit log of each decision.
  - `rules`, `index`, `associations`, `catalog`, `config` — rules that select documents,
    the indexes that answer lookups, the associations of a workspace, schema catalogs and
    the schema settings of the configuration file.
  - `node`, `keys`, `errors`, `traversal`, `query`, `inspect`, `stats` — the DOM tree,
    its traversals, queries, validation and statistics.
  - `bindings`, `platform`, `location`, `text` — the calls into outside crates and std,
    each behind one trusted item, and string and number helpers.
- `app/` holds what surrounds the library: the serialized forms of its configuration and
  catalogs, error messages, logging, and catalog loading over the network or from disk.
- `tests/` exercises the library through its public interface.
