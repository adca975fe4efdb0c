# sift

Market data of mainland China and Hong Kong on the command line: search
listings, read financial reports, browse and download announcements, extract
PDFs as Markdown, and look at prices and whole-market figures.

The rules of the program are a Verus library. Its functions state what they
return in `requires` and `ensures`, and Verus proves it.

- `src/` is the library.
  - `domain/`: symbols, markets, report periods, rows, the item dictionary,
    announcement types, single quarters.
  - `cache/`: keys, freshness, and the form in which rows are stored.
  - `fetch/`: what to take from a cache, what to ask for, and what to make of
    the answers.
  - `commands/`: options, their rules, and what is printed.
  - `date.rs`, `text.rs`, `text_map.rs`, `order.rs`: dates, texts, maps from
    texts and stable sorting.
  - `http.rs`, `db.rs`, `cli.rs`, `error.rs`: retries, opening a database, the
    command line and errors.
- `app/` is the program around it: argument parsing, files, HTTP and DuckDB.
  Data sources, the PDF reader, text recognition and the fact store are traits
  in `app/ports.rs`.
- `tests/` run the library on values.

Figures are floating-point numbers. The library carries them as bits and
compares them by their order; arithmetic on them is in `app/`.

What is taken on trust from other crates (`time`, `blake3`, `serde_json`) and from the
standard library is marked `external_body` or `assume_specification`, with a
comment that says what is claimed.
