//! A small wardrobe log: a store of clothing items, each with a name, a
//! monetary cost, and the calendar dates on which it was worn.  The store
//! serializes to a pretty-printed JSON document and is reloaded from it;
//! parsing that document back is proved to recover the store exactly.

pub mod codec;
pub mod cost;
pub mod date;
pub mod item;
pub mod store;
pub mod text;
