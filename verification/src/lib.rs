//! Recovery of RSA key material from raw memory dumps: a sliding-window
//! scanner extracts probable-prime candidates from a byte buffer, a
//! composite index pairs them into products, and three interchangeable
//! matchers search the buffer for the byte encodings of those products.
pub mod bignum;
pub mod index;
pub mod matcher;
pub mod pipeline;
pub mod scan;
