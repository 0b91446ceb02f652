//! What a client of the broker needs: the parser of the frames that the
//! broker sends, and the writers of the frames that a client sends.

pub mod client;
pub mod parser;
