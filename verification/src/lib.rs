//! A GZIP (RFC 1952) decoder with a verified DEFLATE (RFC 1951) inflater.

pub mod bits;
pub mod bitstream;
pub mod canonical;
pub mod gzip;
pub mod inflate;
pub mod literals;
pub mod node_order;
pub mod prefix;
pub mod stored;
