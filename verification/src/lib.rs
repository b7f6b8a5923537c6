//! A minimal typed HTTP client core for JSON REST APIs.
//!
//! The library owns the request-side logic (URL construction, header
//! bookkeeping), the response-side policy (only an exact status of 200 with a
//! decodable body yields a value), and the JSON wire format of the todo
//! domain types. Performing the actual network exchange is left to the
//! embedding program, which hands the raw outcome back to the library.

pub mod client;
pub mod json;
pub mod todo;
