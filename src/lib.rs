//! A compact, self-describing binary codec in the rencode wire format.
//!
//! Small values (booleans, small integers, short strings and short
//! collections) are embedded in a single leading type byte; larger values
//! fall back to explicit, width-tagged forms. `encode` and `decode` are
//! proved against the byte-level description in `encoder` and
//! `spec_decode`.

pub mod consts;
pub mod value;
pub mod bigendian;
pub mod float;
pub mod encoder;
pub mod spec_decode;
pub mod decoder;

pub use decoder::{decode, decode_bool, Decoder, FixedVisitor, Token};
pub use encoder::{encode, Encoder};
pub use spec_decode::Error as DecoderError;
pub use encoder::Error as EncoderError;
pub use value::Value;
pub mod laws;
