# tracescope

A tracing and performance-analysis toolkit. Code is instrumented with nested
spans; the collected trace is analyzed into a flamegraph of per-stack self
time, a critical path, ranked bottlenecks and latency percentiles.

## Layout

- `src/` — the library. Each public function states its behaviour in its
  `requires`/`ensures`, and Verus proves the bodies against them; the few
  outside calls that Verus has no specification for (the system clock, the
  text of a JSON error)
  stand behind small trusted wrappers whose contracts say what they assume.
  - `span`, `trace` — the span and trace model: lookups, roots, child lists,
    total duration, the id-uniqueness check, and structural validation with
    its error messages;
  - `flamegraph`, `critical_path`, `report`, `percentile` — the analyses:
    folded self time per call stack, the chain of last-finishing spans, self
    time ranked by name, and the sorted sample behind percentiles. The walks
    they make are required to end, and their sums to fit in a `u64`; checks
    that decide exactly when a walk ends, and checked variants that report an
    overflow, let a caller meet those requirements at run time;
  - `clock`, `collector` — a manual and a system clock, and the span
    collector that numbers spans and links them to the innermost open span;
    each recorded time is a reading of the collector's clock;
  - `order`, `text` — the string and stack orders, and decimal rendering;
  - `laws` — properties that span several operations, such as: with unique
    ids every walk from a root ends, folding conserves the roots' time, and a
    collector whose clock readings never decrease records traces that pass
    validation.
- `tests/` — tests of the library on concrete traces.
- `app/` — the command-line program: argument parsing, reading trace files
  (JSON), scoped span guards, floating-point percentiles and the text report.
