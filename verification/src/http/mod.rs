//! The HTTP/1.1 exchange with the server: the request, the response head and
//! the framing of the response body.

pub mod body;
pub mod client;
pub mod reads;
