# xonlist

A Xonotic server list: it asks the dpmaster servers for game servers,
queries each of them over UDP, keeps a snapshot of who plays where, serves
the list as HTML and JSON, counts hourly activity and draws it as a heatmap.

## Layout

- `src/` is the library, verified with Verus. Every public function has a
  contract over mathematical models (`Seq`, `Map`, `Set`, views of the
  types), and the properties that span several calls are stated and proved
  as `law_*` proof functions.
  - `protocol`, `query`: the master's `getserversResponse`, a game server's
    `statusResponse`, the address sets and the order masters are tried in.
  - `qcstatus`, `server`, `model`: the `qcstatus` rule, a reply turned into
    a server entry, the snapshot keyed by address, the list order.
  - `view`, `web`, `state`: what the pages show, and the request-side
    decisions (content types, asset paths, the age token, page lookups).
  - `config`: defaults, `--name value` / `--name=value` arguments and
    `XONLIST_*` variables, data file paths, the endpoint to serve on.
  - `refresh`: a refresh round's snapshot and the schedule's arithmetic.
  - `activity`, `heatmap`: samples, the upsert statement, the ranking,
    layout and rectangles of the heatmap, and its PNG encoding.
  - `geo`: country codes from a GeoIP2 City database.
  - `bindings`: the trusted contracts of the standard-library calls the
    parsers make.
- `app/` is the program around it: sockets, HTTP (axum, askama templates),
  SQLite, the scheduler, and the floating-point parts of the heatmap
  (glyph coverage and cell colours).
- `tests/` runs the library on concrete values.

Static files (CSS, JavaScript, fonts, images, error pages) are read from an
`assets` directory, or from the directory named by `XONLIST_ASSETS`.
