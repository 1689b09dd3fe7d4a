# yaak

Verified pieces of request handling and database migrations.

- `src/placeholders.rs`: substituting `{name}` path placeholders of a URL with
  the percent-encoded values of its URL parameters.
- `src/rename.rs`: rewriting the legacy `:name` placeholder convention to
  `{name}`, in URLs and in the JSON list of a request's parameters.
- `src/migration.rs`: which embedded files are SQL migrations and the order
  they run in, how a migration file name splits into version and
  description, the checksum recorded for a migration, and the failure
  message.
- `src/json.rs`, `src/text.rs`: the JSON operations (done by `serde_json`)
  and string helpers the above use.
- `app/`: running the migrations against a SQLite pool.
