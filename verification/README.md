# zstdx

The match finder and the job planner of a Zstandard encoder, written in Verus.

A matcher takes an input block by block, or as one window that is handed over
whole, and turns each block into literals and packed sequences. A planner cuts
long inputs into jobs that separate matchers parse at the same time. Entropy
coding and the frame format are not part of the library.

## Layout of `src/`

| Modules | What they hold |
| --- | --- |
| `bits`, `hash`, `price` | powers of two, window reads and hashes, match lengths, prices |
| `seq_codes`, `sequence` | sequence codes, packed words, repeated offsets, and the decoder that contracts speak of |
| `gates`, `probe` | ramps, job-start seeds, alphabet and repeat samples |
| `tables`, `chains`, `rows`, `opt_tree` | the search structures |
| `scan`, `parse_fast`, `parse_dfast`, `lazy`, `parse_chain`, `parse_row` | the table-driven parses |
| `opt_stats`, `opt_series`, `opt_near`, `parse_opt` | the optimal parse |
| `level`, `params`, `store` | levels, their rows, and their tables |
| `driver`, `driver_fill`, `driver_scan`, `driver_blocks`, `driver_plan`, `strip` | the matcher |
| `pre_split`, `reach_probe`, `mt`, `capture` | block splitting, the reach probe, job planning, shared prefixes |
| `frame`, `job`, `tree_frame` | what a decoder makes of a frame, parsed in one go or in jobs, by its row or by a tree parse |
| `block_laws` | what the sequences of one block keep to |
| `twins`, `opt_twins`, `reuse`, `reuse_chain`, `reuse_opt`, `plain_tables`, `pool` | jobs do not depend on what their matcher did before |
| `shift`, `shift_double`, `shift_lazy`, `shift_chain`, `shift_rows`, `slice` | streamed and whole inputs give the same frame |

A matcher is specified by its view `Drv`, a plain value. Every operation on a
matcher is a function from `Drv` to `Drv`, and its contract says that the
executable code computes that function.

## What is proved of it as a whole

- A frame decodes to its input, whatever the windows, and the blocks that were passed
  over, left out or dropped (`frame::lemma_frame_decodes`). The deferred tree rows, and
  the blocks of a frame's head, go to a tree parse that is not part of the library. If
  what it makes of its blocks decodes, so do the frames and jobs that hold them
  (`tree_frame::lemma_any_frame_decodes`, `tree_frame::lemma_any_job_decodes`).
- So does a frame of a matcher that was used before and reset
  (`frame::lemma_reset_frame_decodes`, `tree_frame::lemma_any_reset_frame_decodes`), and
  one behind a dictionary, over what the window keeps of it
  (`frame::lemma_dict_frame_decodes`, `tree_frame::lemma_any_dict_frame_decodes`).
- A decoder that starts with exactly the matcher's repeated offsets ends with exactly
  those, while some are still owed too (the same laws, and block by block
  `block_laws::lemma_chain_history`, `lemma_row_history` and `lemma_opt_history`).
- No literal offset is longer than its row's reach and what the scan was told to try,
  whatever offsets the scan starts with (`block_laws::lemma_chain_matches`,
  `lemma_chain_reach`, `lemma_row_matches`, `lemma_opt_reach`).
- The matches and the literals of a block cover it (`frame::lemma_block_covered`), and
  no match is shorter than its row stores (`block_laws`).
- A job that takes no repeated offset for granted names none before three literal ones
  (`job::lemma_gated_job`).
- A frame whose jobs were parsed apart decodes to its input
  (`job::lemma_jobs_decode`).
- Neither reads farther back than the window, where the row searches no farther.
- A job emits the same whatever its matcher did before (`pool::lemma_pooled_job`, one
  law for all rows), and what that rests on is kept by every call (the other laws of
  `pool`).
- Streamed or handed over whole, an input gives the same frame; on the optimal rows,
  an input that the window holds (`slice::lemma_slice_matches_stream`).
- A captured strip is the strip that its job would have filled
  (`strip::lemma_snapshot_is_exact`), also if it was built in segments
  (`strip::lemma_segments_are_exact`).

`app/` holds what needs threads, the environment or floating point: the costs that
decide between reaches, and the loop that runs jobs on threads. The tree parse, the
index of far repeats and the block encoder are traits there.
