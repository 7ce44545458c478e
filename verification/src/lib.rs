//! Reasoning over the annotations of construction-site photos: the identity
//! of each photo is normalised, photos are grouped by identity and time,
//! activities are named from the text on the boards, and the kind of each
//! photo is told from the objects found in it. Every function is verified
//! against its contract; the few calls into other crates are named in the
//! modules that make them.

pub mod activity;
pub mod files;
pub mod grouping;
pub mod keywords;
pub mod lexicon;
pub mod order;
pub mod pipeline;
pub mod prompt;
pub mod propagate;
pub mod records;
pub mod scene;
pub mod station;
pub mod text;
pub mod timestamp;
