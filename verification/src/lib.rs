//! Convert between filesystem paths and `file://` URLs.
//!
//! The library works on the raw bytes of a path, so segments need not be
//! valid text. Each segment is percent-encoded against a fixed reserved
//! byte set when a path becomes a URL, and percent-decoded when a URL
//! becomes a path. Two policies hold throughout: raw bytes pass through
//! both directions without failure, and decoding is lenient — a `%` not
//! followed by two hex digits stays literal. The conversions are verified:
//! every public function carries a contract over a byte-level model, and
//! the round-trip laws are proved as public proof functions.

pub mod codec;
pub mod path;
pub mod reserved;
pub mod url;

pub use codec::decode_path_component;
pub use codec::encode_path_component;
pub use path::FilePath;
pub use url::file_url_to_pathbuf;
pub use url::PathFileUrlExt;
pub use url::PathFromFileUrlExt;
pub use url::Sealed;
