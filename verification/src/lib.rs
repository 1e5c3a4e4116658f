#![verifier::loop_isolation(false)]

pub mod adler32;
pub mod inflate;
pub mod zlib;
pub mod bitreader;
pub mod zlib_errors;
