//! A tabled asymmetric numeral systems (tANS) entropy codec.
//!
//! A symbol distribution whose occurrences sum to a power of two is turned
//! into a set of lookup tables; the encoder folds a byte sequence into a
//! bit sequence with those tables and the decoder unfolds it again.
pub mod bitio;
pub mod builder;
pub mod decoder;
pub mod distribution;
pub mod encoder;
pub mod error;
pub mod laws;
pub mod numeric;
pub mod spread;
pub mod table_proofs;
pub mod tables;

pub use bitio::{bits_to_state, output_nb_bits};
pub use builder::{build_tables, cumulative_table, SymbolTT, Tables};
pub use decoder::{decode_data, decode_symbol};
pub use encoder::{encode_data, encode_symbol, prime_state};
pub use error::CodecError;
pub use numeric::first1_index;
pub use spread::spread_symbols;
pub use tables::{SymbolDecoding, Transformation};
