# routefmt, verified

A formatter for HTTP route tables. Each line of a table (`GET /users/:id`),
or a line of framework source that names a route (`app.get('/users/:id')`,
`delete '/users/<id>'`), is rewritten as `METHOD /path` in one canonical
spelling: known methods uppercased, repeated and trailing slashes dropped,
static segments lowercased, and the parameter spellings `:id`, `{id}` and
`<id>` all written `:id`. Routes that a router could not tell apart get the
same collision key, and a second such route is reported.

Layout:

- `src/route.rs`: normalizing one line, the collision key, and the errors.
- `src/tool.rs`: the command line, the diagnostics, collision tracking,
  formatting or checking a whole input, and the decisions about files
  (whether to rewrite one in place, how files read one after another join).
- `src/chars.rs`: the text operations (trim, find, split, join) with the
  spec functions they compute.
- `src/unicode.rs`: the Unicode White_Space list (computed by a verified
  function in `src/chars.rs`), and the standard library's case mappings
  (named, with what its code and documentation show stated) and
  `String::push`, as trusted specifications.
- `src/laws.rs`: proofs of what holds across calls: canonical routes are
  fixed points, normalizing and formatting ASCII text is idempotent,
  checking accepts formatted text, exactly when formatting and checking
  report an error, a path fails with its first bad segment, and the
  collision key folds exactly the parameter names.
- `app/main.rs`: the `routefmt` command itself (files, stdin, stdout).
