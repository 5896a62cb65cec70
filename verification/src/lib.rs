//! Reader for fixed-layout CSC recording files (a fixed-size text header
//! followed by fixed-size binary sample records), a byte-exact codec for the
//! acquisition packets built from those records, and the deadline arithmetic
//! of a fixed-period replay.

pub mod as_result;
pub mod errors;
pub mod nlx_csc;
pub mod nlx_header;
pub mod nlx_udp;
pub mod pacing;
pub mod utilities;
