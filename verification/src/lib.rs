//! A per-conversation shopping list for a chat bot: conversations add items,
//! list them, and remove them by index or all at once; the whole collection
//! is written to and read from a single persisted document between restarts.
//!
//! `model` states what every operation means over a mathematical model of the
//! registry and proves the laws the operations obey; `registry` holds the
//! executable state and its commands; `handler` dispatches decoded commands;
//! `codec` writes and reads the persisted document; `text` carries the string
//! work (trimming, splitting, numbers) that the commands rest on.

pub mod codec;
pub mod handler;
pub mod model;
pub mod registry;
pub mod text;
