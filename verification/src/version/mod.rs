//! Versions, version ranges and Unity editor versions.
pub mod error;
pub mod semver_text;
pub mod buf;
pub mod number;
pub mod step;
pub mod lexer;
pub mod version;
pub mod ordering;
pub mod partial;
pub mod comparator;
pub mod range;
pub mod unity_version;
pub mod identifier;
pub mod round_trip;
pub mod bar_free;

pub use error::ParseRangeError;
pub use identifier::Identifier;
pub use range::VersionRange;
pub use unity_version::{ReleaseType, UnityVersion};
pub use version::Version;
pub use ordering::version_identical;
