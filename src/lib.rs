pub mod method;
pub mod text;
pub mod headers;
pub mod request;
pub mod response;
pub mod router;
pub mod connection;
pub mod queue;

pub use method::{Method, MethodParseError};
pub use headers::Headers;
pub use request::{read_line, ParseError, Request};
pub use response::Response;
pub use router::Router;
pub use connection::{dispatch, wanted_len, Action};
pub use queue::{Claim, JobQueue};
