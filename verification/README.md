# dandrum_engine

The graph kernel of a drum-synthesis engine, verified with Verus.

- `src/` is the verified library:
  - `kernel` — graph definitions, nodes, ports (with their input
    multiplicity), static parameters and the definition registry.
  - `kernel::yaml`, `kernel::document` — the patch document front end: a
    parsed YAML value tree, the check that turns away legacy document shapes,
    and the conversion of root patches and inline composites into graph
    definitions.
  - `validation` — static-argument resolution, port resolution, connection
    checks (including several sources on a single-source input),
    control→audio promotions and illegal feedback-cycle detection.
  - `flatten` — recursive, cached expansion of composites into atomic nodes,
    with visible control→audio promotion nodes.
  - `latency` — latency balancing over a flattened graph: forward ordering,
    compensation delays and latency-bearing feedback cycles.
  - `chunking` — how a render longer than the prepared block size is cut
    into block-sized chunks.
  - `module_reference`, `library_version` — `$LIB`/`$USER_LIB` reference
    resolution, including the `latest` alias.
  - `module_library`, `module_package` — standard-library seeding decisions
    (validation, CRC, manifest), package entry rules, the package references
    a definition makes, and the steps of loading nested packages (which
    reference comes next, how a loaded package joins the registry).
  - `event_queue`, `instrument_state`, `oscillator`, `name_map`, `text`,
    `diagnostics` — supporting data structures.
- `app/` holds the edges: YAML parsing with `serde_yaml` into the library's
  value tree and document types, loading packages and the packages they
  refer to from disk, seeding a library on disk, listing a macro root for
  `latest`, and the floating-point waveform evaluation.
- `tests/` exercises the library on concrete values.

Not here: the audio render path (graph processing, per-module DSP state and
the built-in primitive definitions). It computes on floating-point samples
and rests on modules that are not part of this crate; documents are
therefore converted over a registry of built-ins that the caller supplies.
