# coldpath

Attributes every generated byte of a JavaScript bundle to an original source
through its source map, and splits those bytes into observed, unobserved and
unmeasured ones using V8, DevTools or Playwright coverage. The library is
written in Verus: its contracts state what each function returns, and Verus
proves the code meets them.

## Layout

- `src/` — the verified library.
  - `text` — UTF-8 / UTF-16 offsets and JavaScript line tables.
  - `coverage` — V8 block coverage to used ranges; interval union.
  - `json`, `source_map`, `decoding`, `attribution` — source-map checks, the
    decoded map as plain values, and the last-mapping-wins attribution of bytes.
  - `source_path` — lexical source identities.
  - `maps` — `sourceMappingURL` annotations and data URLs.
  - `input` — coverage files, URL mapping and capture binding.
  - `accounting`, `bundle`, `analyze`, `summary` — counts per bundle, source
    and package, detail spans, and the whole report.
  - `scenario`, `recommendations`, `baseline`, `graph`, `metadata`,
    `annotations`, `evidence`, `report` — per-scenario reports, review
    suggestions, baseline comparison, import graphs, labels and load causes,
    replay evidence, and text renderings.
  - `laws` — properties that span functions, stated and proved.
- `tests/` — tests that run the library with the real outside crates.
- `app/` — reading directories and files, parsing JSON into the library's
  types, and rendering messages and JSON.

## Outside crates

`serde_json`, `sourcemap`, `sha2`, `base64`, `percent-encoding` and `glob` are
called from the library through small wrappers whose contracts say what the
call returns; `serde`, `anyhow` and file access live in `app/`.
