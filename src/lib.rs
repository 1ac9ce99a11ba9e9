//! Localization dictionaries built from tab-delimited record files.
//!
//! A text is decomposed into a [`translation::Translation`]: literal runs and
//! positional `{:N}` placeholders. A [`dict::Dict`] maps such translations to
//! optional translations and supports building, merging, swapping and
//! translating.
use vstd::prelude::*;

pub mod assoc;
pub mod text;
pub mod translation;
pub mod records;
pub mod dict;
pub mod load;
pub mod options;

