//! Core of a static-file-serving layer: it normalizes an incoming HTTP
//! request (method plus header set) into an immutable request intent, and
//! drives the selection of the encoded variant of a file that best matches
//! the client's negotiated encoding preference.
//!
//! The intent-construction path is pure and total; the filesystem probing
//! itself is performed by the caller, which feeds each probe's outcome back
//! into a verified resolution state machine.

pub mod byterange;
pub mod encoding;
pub mod input;
pub mod resolve;

pub use byterange::Range;
pub use byterange::RangeParser;
pub use encoding::AcceptEncoding;
pub use encoding::AcceptEncodingParser;
pub use encoding::Encoding;
pub use input::Etag;
pub use input::IfRange;
pub use input::Input;
pub use input::Mode;
pub use resolve::ProbeAction;
pub use resolve::ProbeOutcome;
pub use resolve::Resolution;
