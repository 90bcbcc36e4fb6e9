//! A verified parser and serializer for single lines of IRC wire-protocol
//! text: message tags, an optional prefix, a mandatory command, and middle
//! and trailing parameters, with the grammar's whitespace-collapsing rules.

pub mod grammar;
pub mod laws;
pub mod message;
pub mod parse;
pub mod render;
pub mod segment;

pub use grammar::ParseError;
pub use message::IrcMessage;
pub use message::IrcMessageRef;
pub use segment::next_segment;
pub use segment::next_token;
