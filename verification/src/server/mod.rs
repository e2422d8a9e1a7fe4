//! What the front end needs from the library: the shape of a query request
//! and the cutting of a request body into lines.

pub mod serve;
