# logscan

A streaming analyser for web-server access logs in the Apache/nginx Combined
Log Format (IPv4 clients). It reports traffic summaries, the busiest clients,
status-code breakdowns and filtered views, as tables or JSON.

The library under `src/` is written in Verus and verified:

- `commands.rs` — the line format as a specification over characters, the
  parser proved against it, and the splitting of a text into lines as a
  buffered reader yields them;
- `commands/{summary,top,status,filter}.rs` — each report as a state that
  takes one parsed line at a time (so a log can be streamed), a `compute`
  over a whole text, and the rendering of its table rows;
- `ipkey.rs` — an injective, order-preserving `u64` key for client
  addresses written in ASCII digits, used to count them in hash tables
  (addresses in other decimal digits are kept in a list), and the string
  order by which the busiest clients are ranked;
- `text.rs` — character classes, decimal rendering and padding;
- `laws.rs` — properties that relate the reports to one another.

`app/` is the command-line program (argument parsing, file reading, JSON
output and the floating-point percentages). `tests/` holds the tests.

Trusted: `regex_syntax::is_word_character` (the Unicode `\w` class),
`regex_syntax::parse` (read once for the ranges of the Unicode `\d` class)
and `String::push`, each behind a wrapper in `text.rs`, plus vstd's
specifications of `HashMap`, `HashSet`, `String` and `Vec`.
