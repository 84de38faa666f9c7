//! A schema-less binary codec: structured values (integers, booleans,
//! characters, UTF-8 text, tuples, homogeneous lists, tagged unions) are
//! packed into a flat byte stream with no padding and no self-description,
//! and unpacked again against a caller-supplied shape.

mod bytes;
mod decode;
mod encode;
mod error;
mod laws;
mod order;
mod text;
mod value;
mod width;
mod wire;

pub use bytes::{le_bytes, le_val, ord_bytes, pow256, val_of_bytes};
pub use decode::{decode, decode_value, from_bytes, from_bytes_le, mirrors, mirrors_list};
pub use encode::{encode, encode_value, to_bytes, to_bytes_le, wire_size_checked, WireSize};
pub use error::{corresponds, Error, ErrorKind};
pub use laws::{
    lemma_decode_encoded, lemma_decode_sound, lemma_decode_truncated, lemma_wire_size_fidelity,
    sound_at, sound_list_at,
};
pub use order::{ByteOrder, LittleEndian};
pub use text::is_utf8_text;
pub use value::{matches_all, matches_shape, matches_tuple, val_of, vals_of, Shape, SpecValue, Value};
pub use width::PrefixWidth;
pub use wire::{
    dec, dec_count, dec_sized, dec_tuple, enc, enc_len, enc_len_list, enc_list, fits, fits_all,
    rd, wf, wf_all,
};
