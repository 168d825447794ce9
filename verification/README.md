# inoxset

A set engine for IDs that are bucketed by time. Sets are Roaring bitmaps; they
are kept per event and period (hour, day, month, year, or static), written to
immutable part files, and merged with their deletions.

The rules of the engine are verified with [Verus](https://github.com/verus-lang/verus).

## Layout

- `src/` is the verified library.
  - `period`, `types`, `error`, `text`: periods and the calendar, keys, names,
    errors and their messages.
  - `bitmap`: what is taken from the `roaring` crate, and what is trusted of it.
  - `portable`: membership tests on serialized bitmaps.
  - `mempart`, `rollup`: the write buffer and its propagation to coarser periods.
  - `part_store`, `merge`, `read_index`: part files, compaction, and the index of
    what is on disk.
  - `codec`, `catalog`, `order`, `table`: catalog rows, their encodings, and the
    operations on them.
  - `dict`, `dictionary`: external identifiers and their numbers.
  - `bloom`, `inverted`, `reverse`: reverse lookups, and what the index for them
    holds.
  - `builder`, `metrics`: settings and observers.
- `app/` is the store around the library: files and memory maps, the LMDB
  environment, the clock, and the sizing of Bloom filters.
- `tests/` runs the library.

## What is proved

Contracts state what a function returns or changes, and on which inputs each
error comes. Where a bitmap was decoded from a file whose containers are out of
order, little is stated of its members: what is stated for a bitmap rests on the
order or the shape of its containers, as named in `bitmap`.

Beyond that, the functions whose names start with `law_` state what holds across
operations. Among them:

- different periods have different keys; a valid period with a year of at most
  four digits is read back from its key, and no other text is read as a period;
- keys of valid periods of one granularity, with such years, are in the order of
  time;
- catalog keys of event names without a slash tell the event, the granularity
  and the period;
- a file name gives a part identifier exactly if it is the name of a part file;
- a period closes no later than the one that encloses it;
- a day holds exactly the members of its hours when rollup is automatic;
- a deletion reaches only parts that are older than itself, and compaction does
  not change what a set holds;
- an index build fails exactly if a part file is missing or is no bitmap, with the
  fault of the oldest such part of some period;
- a membership test on serialized bytes answers as the bitmap does;
- event, part, list and state rows are read back as they were written, and
  deleting an event leaves nothing of it and keeps the rows and parts of others;
- identifiers and numbers stay in one-to-one correspondence, and a deleted
  number is never given out again;
- the Bloom filter has no false negatives, and a lookup in the inverted index
  finds each membership as often as it was added under the same hash; every
  member of a set is found under the identifier that the dictionary has for it.

The contracts of outside functions are assumed. They stand in `bitmap`, and next
to their callers in `codec`, `dict`, `inverted` and `mempart`.
