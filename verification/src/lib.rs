//! Front end of a minimal HTTP server: an incremental request-line parser
//! that recognizes `METHOD SP PATH SP HTTP/1.<digits>\r\n` as bytes arrive in
//! arbitrarily sized fragments, decoding percent escapes and case-folding the
//! method in place in one fixed buffer, together with a fixed-capacity
//! connection pool that admits and evicts connections first-fit.

pub mod laws;
pub mod model;
pub mod parser;
pub mod pool;
