//! What holds of the store as a whole.
//!
//! Over sequences of operations: what they keep in order (`coherence`), what they do to the rows
//! (`rows`), what a reopened store knows (`durability`), what a search finds (`search`) and what
//! holds along runs of calls (`history`). Of single operations, in terms of what goes in and what
//! comes out: what a search answers (`answers`), when and how the vector file is rewritten
//! (`upkeep`), what is accepted, refused and changed (`changes`), which directories can be opened
//! (`opening`), which bucket a row is in (`buckets`), and the same call by call for the store
//! (`calls`) and for its parts (`parts`).

pub mod coherence;
pub mod rows;
pub mod durability;
pub mod search;
pub mod history;
pub mod answers;
pub mod upkeep;
pub mod changes;
pub mod opening;
pub mod calls;
pub mod parts;
pub mod buckets;
