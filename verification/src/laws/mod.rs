//! Properties that hold across operations.

pub mod adding;
pub mod addressing;
pub mod allocating;
pub mod appending;
pub mod booting;
pub mod choosing;
pub mod clearing;
pub mod components;
pub mod creating;
pub mod decoding;
pub mod directories;
pub mod editing;
pub mod entries;
pub mod expanding;
pub mod extents;
pub mod fields;
pub mod files;
pub mod folding;
pub mod formatting;
pub mod fresh;
pub mod growing;
pub mod handles;
pub mod hiding;
pub mod histories;
pub mod interrupting;
pub mod listings;
pub mod making;
pub mod names;
pub mod placing;
pub mod promises;
pub mod reading;
pub mod recording;
pub mod regions;
pub mod remounting;
pub mod removing;
pub mod renaming;
pub mod reopening;
pub mod resolving;
pub mod sets;
pub mod shortening;
pub mod spelling;
pub mod systems;
pub mod tables;
pub mod trails;
pub mod viewing;
pub mod walking;
pub mod words;
pub mod writing;
pub mod yielding;
