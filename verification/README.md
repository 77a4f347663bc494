# diskern-core

The Diskern engine — understand your disk before you clean it — as a Verus
library, with a command-line front end.

- `src/` is the verified library. Each public function states in its
  contract what it returns or changes — except the `ScanProgress`
  constructor and counters, whose atomics vstd gives no value to state:
  - `rules`: the glob rules database and first-match classification;
  - `risk`: the removability score and the verdict downgrade;
  - `graph`: project roots, dependency stores and who references what;
  - `entry_order`: the references found do not depend on entry order;
  - `dedup`: size-first, hash-second duplicate detection;
  - `report`: the pipeline from scanned entries to findings, duplicate
    sets and the reclaimable headline;
  - `scanner`: exclude matching, root planning and walk-result handling;
  - `actions`: the quarantine decisions and the order of filesystem calls,
    each recorded, with its answer, by `FsLog`;
  - `authority`: which scan may publish and which report may be acted on;
  - `present`, `ai`: byte counts, labels, listings and narration.
- `app/` is the `diskern` command: argument parsing, the directory walk,
  JSON output and file writes.
- `tests/` runs the library on concrete inputs.
