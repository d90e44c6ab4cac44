# linky

Checks the links in Markdown documents.

- `src/` is the library, verified with Verus: finding links and anchors, parsing
  links, looking up fragments, and deciding what to report.
- `app/` reads files, asks servers and writes the log.
- `tests/` are ordinary Rust tests of the library.

The calls into `url`, `mime`, `regex`, `pulldown-cmark`, `htmlstream` and `bytecount`
are trusted; each stands in a small function whose doc comment says what is taken for
granted. URLs with a host that `url` might fail to encode are left out by the functions
that parse them; those whose names begin with `try_` test for it. Paths are texts with `/` as the separator.
