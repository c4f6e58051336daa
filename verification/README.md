# throw-trace

A static checker for `@throws` declarations in TypeScript documentation
comments. It follows what each function throws, directly or through the
functions it calls, subtracts what its `try`/`catch` blocks handle, and
reports the types its documentation does not declare. `fix` writes the
missing tags into the comments and removes generated tags that are no
longer needed.

## Layout

- `src/` is the library, verified with Verus. Each module states its
  behaviour in `requires`/`ensures` contracts over spec functions:
  - `types`, `signature_map`, `call_graph`: the analysed functions and the
    call graph (`petgraph` underneath);
  - `catch_clause`, `propagation`, `diagnostic`, `lsp`: what a `catch`
    handles, what escapes a function, what its documentation misses, and
    what an implementation throws beyond the method it implements;
  - `jsdoc`, `extract`, `parser`: reading `@throws` tags and recording
    what a source contributes;
  - `fixer`, `sync_stability`, `line_breaks`: writing tags back, why
    syncing a comment a second time leaves it as it is, and the line breaks
    and byte-order marks of a rewritten file;
  - `json`: JSON and JSONC texts read as trees (parsed by `jsonc-parser`
    and `serde_json`), from which `cache` reads configuration references;
  - `reporter`, `tsserver`, `cache`, `analyzer`, `fingerprint`, `ordering`,
    `text`: rendering reports, the text side of the `tsserver` protocol,
    cache keys and hashes and what a cache keeps or reuses, the steps of
    an analysis, and the fixed orders its fingerprints are taken in.
  Public proof functions named `law_*` state properties that relate
  several functions, such as that syncing a comment twice gives what
  syncing it once gave.
- `app/` is the command-line program around the library: argument
  handling, file walking, the `oxc` syntax tree walk, the `tsserver`
  process, the cache file and printing.
- `tests/` exercises the library on concrete values.

## Usage

```bash
throw-trace check src/ --exclude "**/*.test.ts" --format json
throw-trace fix src/
```

`check` exits with 0 when nothing is found, 1 when it reports findings and
2 when the run itself fails.
