# vue-script

A build tool for global-runtime Vue single file components: it assembles
templates, dependency-ordered scripts, module imports and styles into one
HTML page, checks the assembled script with TypeScript, and serves the page
while rebuilding on changes.

The library under `src/` is written in Verus, and Verus proves its
functions against their contracts.  What the outside crates compute (the
tagsoup parser, the INI reader, glob patterns, and `std::path`) is reached
through small trusted wrappers whose contracts restate those crates'
documented behaviour; those wrappers are the only unproved code.

- `text` – character-level helpers (search, trimming, decimal numbers).
- `log` – diagnostics, the logger, and their human-readable rendering.
- `config` – `vue-script.toml`: sections, keys, watch rules and the
  decision which changed files trigger a rebuild.
- `paths` – file system paths, reached through `std::path`.
- `html` – the tagsoup HTML parser, reached through a few wrappers.
- `js` – `import` statements lifted out of component scripts.
- `vue`, `component` – parsing `.vue`, `.vue.js` and `.vue.css` files.
- `assemble` – component validation, the depth-first ordering of the
  components by their imports, the module script with its line map, the
  page placeholders, and the queue of component files to read.
- `check` – the TypeScript compiler's diagnostics traced back to the
  component sources.
- `serve` – the served URL, which file events trigger a rebuild, the
  steps of the watcher, and what a reload of the configuration changes.

The command line program under `app/` does the file, process and network
work around the library: reading the project, writing the page, running
`tsc`, the Python HTTP server, the browser and the file watcher.
