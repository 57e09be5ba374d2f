//! Heat of files on SMB shares.
//!
//! An agent on a file server watches the server's trace events and counts the reads
//! and writes of each file by day; a collector receives the agents' cumulative dumps,
//! archives them and ingests them into a database, and answers queries about what is
//! hot. This library is the logic of both, without their input and output:
//!
//! * on the agent's side the events (`events`, `lifecycle`, `discover`, `identity`),
//!   the correlation engine with its per-day counts and its join with an inventory of
//!   file sizes (`correlation`, `inventory`, `paths`), the flusher's decisions (`flush`)
//!   and the documents it sends (`emit`);
//! * on the collector's side what one received document comes to (`ingest`,
//!   `complaints`, `fields`, `json`) and its rows (`rows`), one request from its route
//!   to its answer (`server`), the ingestion of an accepted document (`db`) and what it
//!   makes of the database (`store`), and the queries (`query`, `placeholders`);
//! * for both the arguments (`cli`) and time (`clock`);
//! * below these texts (`text`, `split`, `pairs`), ordered tables (`table`), sums over
//!   maps (`tally`) and ranking (`rank`).
//!
//! What a function does is in its contract; what holds across functions is stated by
//! the proof functions whose names begin with `law_`, those that need nothing of a
//! module's inside in `laws`.

pub mod cli;
pub mod clock;
pub mod complaints;
pub mod correlation;
pub mod db;
pub mod discover;
pub mod emit;
pub mod events;
pub mod fields;
pub mod flush;
pub mod identity;
pub mod ingest;
pub mod inventory;
pub mod json;
pub mod laws;
pub mod lifecycle;
pub mod pairs;
pub mod paths;
pub mod placeholders;
pub mod query;
pub mod rank;
pub mod rows;
pub mod server;
pub mod split;
pub mod store;
pub mod table;
pub mod tally;
pub mod text;
