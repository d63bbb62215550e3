# caddy-dashboard

An analytics dashboard for Caddy access logs: it tails the access log, stores
each request in redb, keeps minute, hour and day rollups, and serves an HTTP
API for the overview, the log browser, the timeline, the map, the reports and
an AI summary, behind local or OIDC sign-in.

- `src/` is the verified library (`caddy_dashboard`): the log filters, the
  paging of the log browser, rollups and their laws, compaction and retention
  decisions, the timeline, the reports, the AI summary, the account and
  sign-in rules, the OIDC decisions and the tail-following plan. Every
  function carries a contract that Verus proves.
- `app/` is the server around it: environment, storage, HTTP handlers,
  password hashing, GeoIP lookups, the Ollama client, and the floating-point
  parts (durations, averages, percentiles).
- `tests/` runs the library on concrete inputs.
