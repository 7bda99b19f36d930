# replite

A primary-node SQLite server with row-level replication to read replicas,
built on vanilla SQLite. Clients write through the Hrana HTTP API; every
committed transaction is captured into an append-only binlog (after-images for
INSERT and UPDATE, key values for DELETE, verbatim DDL), and replicas stream it
as ready-to-apply SQL statements.

The logic is a verified library: each function states what it returns in
`requires` and `ensures` clauses, and Verus proves it.

| Module | What it holds |
| --- | --- |
| `wire`, `text`, `sql` | varints and protobuf fields, decimal numbers, SQL words and literals |
| `binlog` | events and transactions, their stored form, segments, recovery, rotation, collection, reading, the schema cache |
| `binlog::history` | what holds of a log over its life: LSNs run on, nothing retained is lost |
| `capture`, `change` | transactions as SQLite's hooks report them, under the schema of their time, resolved into events |
| `statement`, `replica` | the served statements read as SQL reads them; they do what their events do, and replaying a suffix is harmless |
| `convergence` | a replica that runs what it is served has what the primary has, in whatever order transactions change rows and the schema |
| `sync` | transactions as SQL statements, the change stream's answers |
| `executor`, `pipeline`, `stream`, `hrana` | argument binding, statement splitting, Hrana pipelines as a state machine, batons |
| `http`, `namespace`, `config`, `error` | request rules, names, settings, error codes |
| `calendar`, `inspect` | dates and the human-readable dump of a segment |

`app/` is the program around it: HTTP, files, SQLite connections and hooks.
`replite` serves; `replite binlog-inspect <dir | file.seg>` dumps a binlog.

Doubles are held by their IEEE 754 bits. Where a text needs their decimal form,
the caller hands in a map from bits to text.

SQLite must be compiled with `SQLITE_ENABLE_PREUPDATE_HOOK` (for the bundled
one, `LIBSQLITE3_FLAGS="-DSQLITE_ENABLE_PREUPDATE_HOOK"`).
