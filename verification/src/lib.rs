//! DNS wire-format codec: bit-exact encoding and decoding of DNS packet
//! headers, flags, questions and domain-name labels, per RFC 1035.

pub mod packet;
