# ypbank_parser

Readers and writers of bank transaction records, verified with Verus.

A record (id, kind, sender, receiver, amount, timestamp, status, description) is read from
and written in three formats:

- **CSV**: a header line naming the columns (in any order and case), then one record per line;
- **text**: blocks of `KEY: value` lines, separated by empty lines, with `#` comment lines;
- **binary**: each record framed by the magic `YPBN` and the length of its body, big-endian.

`ParserByType` picks a reader by format name, converts its records to another format, and
compares its records with those of another reader.

## Layout

- `src/record.rs`: the record, its kinds and statuses, their names and byte codes.
- `src/errors.rs`: the error types.
- `src/text.rs`: characters, lines, trimming, splitting and decimal numbers, with their
  specifications; the calls into `std` that Verus takes on trust.
- `src/types.rs`: the `Parser` interface and the generic writing and conversion loops.
- `src/csv_format.rs`, `src/txt_format.rs`, `src/bin_format.rs`: the three formats, each with
  the proof that what it writes reads back as the records written. The text reader skips the
  first line of its input (a title), so text output reads back once a title line is put
  before it.
- `src/parser.rs`: choosing a format by name, converting, comparing, and the laws across
  formats.
- `tests/`: tests of the library on concrete inputs.
- `app/main.rs`: the command-line tool (`convert` and `compare` subcommands), which reads the
  files and prints the results.
