# chronicle_storage

The storage engine underneath Chronicle, a key-value database: verified rules in
`src/`, files and locks in `app/`.

- `wal`: the write-ahead log. What a record looks like on disk, what appending,
  flushing and truncating do to the log file, and which records a log replays to.
- `record`: the records of the log and their byte layout.
- `replay`: recovery of a log, one read at a time.
- `read`: filling a buffer from a reader that delivers short reads.
- `memtable`: the sorted in-memory table.
- `bloom`: the Bloom filter for negative lookups.
- `checksum`, `codec`, `error`: what the others share.

The public proof functions whose names begin with `law_` state what holds of the
library as a whole: that replay gives back what was appended, that a torn append
loses nothing but itself, that the filter has no false negatives, that a listing
of the table is fixed by its contents.

`app/` holds what touches the operating system: the log file, the lock around the
table, error messages, and the floating-point formulas that size a filter.
