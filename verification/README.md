# rift

Verified pieces of the `rift` terminal-session manager.

- `src/env.rs` — the tracked-environment payload: which keys are tracked
  (`tracked_keys_from`), encoding a snapshot (`snapshot_payload`), decoding it
  (`entries`, `value_of`) and rendering it as POSIX shell (`to_shell`). Proved:
  a payload built from a snapshot decodes to that snapshot, and each rendered
  `export` reads back in the shell as the value.
- `src/label.rs` — session labels: validation (`parse_pair`, `validate_key`),
  the sorted label set `Labels`, and its text form (`encode`, `decode`).
  Proved: decoding an encoded label set gives it back, and a set key reads
  back what was written.
- `src/text.rs` — character-level helpers shared by both.
- `app/lib.rs` — reads the process environment and hands the values to the
  library.
