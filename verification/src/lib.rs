//! Parsing, in-memory representation, and canonical serialization of the
//! `Accept-Encoding` content-negotiation header: an ordered list of encoding
//! proposals (an identifier with an optional quality weight) plus a wildcard
//! flag, parsed leniently from comma-separated header text and rendered back
//! to a byte-exact canonical form.

pub mod encoding;
pub mod error;
pub mod headers;
pub mod list;
pub mod proposal;
pub mod quality;
pub mod text;

pub use crate::encoding::Encoding;
pub use crate::error::ParseError;
pub use crate::headers::HeaderName;
pub use crate::headers::HeaderValue;
pub use crate::headers::Headers;
pub use crate::headers::Response;
pub use crate::list::AcceptEncoding;
pub use crate::list::IntoIter;
pub use crate::list::Iter;
pub use crate::proposal::EncodingProposal;
pub use crate::quality::Quality;
