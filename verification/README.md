# jsonl_peek

Look inside large JSONL files without loading them whole: print the first
lines, draw a uniform random sample, or get a health report (line counts,
top-level kinds and keys, line-length percentiles, per-field value
distributions and the first rejected lines).

The library under `src/` is written in Verus and verified:

- `json`: a strict JSON reader, proved to compute exactly the grammar stated
  by its spec functions, with the line and column of every rejection.
- `json_laws`: a text set inside a longer one is read the same way; hence
  whitespace around a document changes nothing, and anything else after a
  value that is not a number is rejected.
- `lines`: turning the chunks read up to each `\n` into lines (CRLF, a leading
  byte order mark, a last line with no terminator).
- `path`: the `--field` path syntax; a parsed path's segments are always what
  its text parses to.
- `rng`: SplitMix64 and an Algorithm R reservoir whose sample is a subsequence
  of the stream, handed back in stream order, and fixed by the capacity, the
  seed and the stream; bounded draws answer from the first draw Lemire's
  method keeps, which always comes within the retry cap.
- `hist`: the line-length histogram (exact count, sum, min and max; the rank
  search behind percentiles).
- `stats`, `schema`: the single-pass folds of one line into the running
  counts, with the caps on keys, values and paths; every schema path has no
  more records than values and is no deeper than the walk.
- `index`: a hash index from texts to table positions, for the value and
  path tables.
- `report`, `summary`, `listing`: JSON text, thousands separators, and the
  `--json` and text reports.
- `report_laws`: the indented object and array layout reads back, at any
  depth, as the object or array of what its members read as; so the
  `--json` report parses to an object with its members in order, the label
  and counts among them, whenever the rates and the mean are JSON numbers.
- `text`: decimal digits, UTF-8 decoding and lengths, and appending to
  strings.

Floating-point figures (log-bucket indices, percentiles, means, rates and
percentages, the `f64` display of a float literal) are computed by the caller
and handed to the library. `app/` is the command-line program: argument
handling, file and standard-stream I/O, those floating-point figures, and the
loops that read a file line by line.
