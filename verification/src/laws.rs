//! Laws of the library, by subject. Each is stated over inputs and results: numbers,
//! texts, sequences and maps, and the names of what outside crates compute.
//!
//! * on the agent's side arguments, principals and records (`agent`), the counts
//!   (`heat`), what is kept of them (`emission`) and walks (`walks`);
//! * on the collector's side documents (`documents`), how their lines are read
//!   (`reading`), requests (`requests`), what the database holds (`storage`), query
//!   strings (`knobs`) and statements (`queries`);
//! * for both texts and dates (`texts`) and what the values stand for (`values`).

pub mod agent;
pub mod documents;
pub mod emission;
pub mod heat;
pub mod knobs;
pub mod queries;
pub mod reading;
pub mod requests;
pub mod storage;
pub mod texts;
pub mod values;
pub mod walks;
