//! Identification of software licenses by n-gram similarity.
//!
//! Texts are normalized, cut into word bigrams and compared with the
//! Sørensen–Dice coefficient against a store of known license texts.

pub mod cache;
pub mod error;
pub mod license;
pub mod ngram;
pub mod preproc;
pub mod score;
pub mod spdx;
pub mod store;
pub mod strategy;
pub mod text;

pub use crate::ngram::NgramSet;
pub use crate::score::Score;
pub use crate::error::Error;
pub use crate::license::{LicenseType, TextData};
pub use crate::store::{LicenseEntry, Match, Store};
pub use crate::strategy::{ContainedResult, IdentifiedLicense, ScanMode, ScanResult, ScanStrategy};
