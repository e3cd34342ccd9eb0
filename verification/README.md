# oxenDB storage engine

A page store with a write-ahead log, transactions and crash recovery, written
in Rust and verified with Verus.

- `src/` is the engine. It performs no I/O: an operation says what is to be
  done to a file, and takes the outcome. Contracts say what each operation
  returns and changes; only the text of an operating-system error is left
  open.
  - `storage/` holds the checksum, the page and file header formats, the disk
    manager, the buffer pool, the log and recovery.
  - `db/` holds the database handle and its transactions.
  - `db/consistency/` proves what these add up to: a committed transaction
    survives a crash, and one that was not committed leaves no trace.
- `app/` does the I/O and the locking around the engine.
- `tests/` runs the engine on files in memory, whole ones and torn ones.

## Files

A database is a data file of 4096-byte pages and a log next to it, named like
the data file with `-wal` behind. Page 0 is the file header. Every later page
carries a checksum and its own id, and both are verified on every read.

A write transaction works on private copies. To commit, it logs an image of
every page it changed and then a commit record, and makes them durable. Only
then are its pages put into the buffer pool. Recovery replays the images of
committed transactions and ignores all others.

A checkpoint writes the dirty pages and the header to the data file and then
empties the log.
