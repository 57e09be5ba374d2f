# smb-heat-spike

Which files on a server's SMB shares are hot? An agent on each Windows file server
watches the SMBServer trace events and counts the reads and writes of every file by
day. A collector receives the agents' cumulative dumps, archives each one as it came,
ingests the accepted ones into a DuckDB file and answers queries: a leaderboard of
subtrees by density, the children of a subtree, and the freshness of each server, shown
by a small dashboard.

The logic is a library verified with Verus; the programs around it are thin.

```
src/      the verified library
tests/    its tests
app/      the agent and the collector: tracing, HTTP, disk, database, dashboard
```

## The library

| modules | what they decide |
|---|---|
| `events`, `lifecycle`, `discover`, `identity` | what a trace record says |
| `correlation` | opens and share names to per-day counts, summary, table, emitted rows |
| `inventory`, `paths` | file sizes on disk, keyed as the counts are |
| `flush`, `emit` | when to dump, and the newline-delimited JSON of a dump |
| `ingest`, `complaints`, `fields`, `json` | what a received document comes to, and its place in the archive |
| `rows` | the rows of a document, read back |
| `server` | one request: route, archive, ingest, answer, log line |
| `db`, `store` | the statements of one ingestion, and what they make of the database |
| `query`, `placeholders` | query knobs, SQL with bound parameters, health |
| `cli`, `clock` | arguments, dates and timestamps |
| `text`, `split`, `pairs`, `table`, `tally`, `rank` | what the others are built on |

Contracts are stated over mathematical values: `Seq<char>` for texts, maps for tables,
`int` for numbers. Properties that span functions are public proof functions whose
names begin with `law_`; among them:

* a document that the agent writes is accepted by the collector, with the same header
  and row count (`ingest::classify`), and what it writes in a row is what is stored
  (`rows`);
* ingesting a dump twice changes nothing, and a dump that never arrives is no loss once
  a later one does (`store`);
* a share named late names the opens that came before, and what an engine holds has one
  summary and one emission (`correlation`);
* a query's text has as many placeholders as parameters (`placeholders`);
* no document's path leaves its place in the archive (`ingest`).

Calls into `chrono`, `chrono-tz`, `serde_json` and a few functions of the standard
library are trusted; each has a small wrapper whose doc comment says what is taken on
trust.
