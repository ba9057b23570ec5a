# timeline_editing

The editing logic of a video timeline, written in Verus. The functions in
`src/` carry contracts that Verus proves, except for a few trusted wrappers:
the calls into `hashbrown`'s sets and maps in `src/collections.rs` and the
call to `uuid` for fresh ids in `src/folding.rs`, whose contracts are taken
on trust from those crates. The properties that span several operations are
stated and proved as proof functions whose names begin with `law_`.

Layout:

- `src/model.rs`: projects, tracks and items, with times in nanoseconds.
- `src/ripple.rs`, `src/ripple_limit.rs`, `src/ripple_edit.rs`: closing
  deleted or trimmed time on every track without pushing an item that stays
  in place.
- `src/grouping.rs`, `src/selection.rs`, `src/deletion.rs`, `src/gaps.rs`:
  groups, rectangle and cut selections, deletions and empty stretches.
- `src/folding.rs`, `src/folded_sequence.rs`, `src/drag_group.rs`,
  `src/clipboard.rs`: folding items into a nested sequence, drag bookkeeping
  and clipboard layout.
- `src/transcription.rs`, `src/natural_end.rs`, `src/presentation.rs`,
  `src/media_import.rs`, `src/tracks.rs`, `src/sorting.rs`: smaller pieces of
  logic that the timeline view relies on.
- `src/collections.rs`: the hash sets and maps of `hashbrown` that the logic
  uses, behind contracts.
- `app/`: the parts that stay outside the verified library (pixel geometry in
  floating point, a process-wide counter) and the run-time checks that guard
  calls into it.
- `tests/`: tests on concrete values.
