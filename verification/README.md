# foyer-extent

A persistent extent cache, with its rules stated as contracts and proved by Verus.

`src/` is the library. It decides and computes; it holds no file, thread or lock.

- `model`, `entry`, `format`, `layout`, `wire`, `text`, `counter`: keys, values, stored entries, sizes.
- `segment`: fixed slots. On-disk layout and allocator state, allocation, batches, reads, recovery, the
  course of a batch of inserts, and the admission of payload I/O.
- `store`: byte-packed extents. The pool, batches, reads, reclaim, the index overlay, checkpoint epochs and
  the course of a batch of inserts. `history` and `course` state what a lookup gives back after any sequence of
  inserts, removals, checkpoints, releases, crashes and reopenings. `segment` has modules
  of the same names for its own steps.
- `foyer_engine`: the engine boundary. Admission, the submission queue, the write loop, recovery policy.
- `checksum`, `sort`, `shared`: calls into crc-fast, blake3, std's sort and bytes, with what is believed of
  them.

Work that alternates with I/O is a machine: the library says what to do next, and whoever runs it reports what
came of it. `app/` runs these machines over files and threads. The memory tier of the hybrid cache, the durable
key indexes, the segment engine's checkpoints and reclaimer, and the layout of the extent pool's state file are
left to traits there.

Public proof functions named `law_...` state what holds of several functions together.
