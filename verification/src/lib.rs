//! Ut Video classic-family lossless codec: frame decoder, frame encoder
//! and decode-free frame inspector, with machine-checked contracts.

pub mod api_laws;
pub mod bit_laws;
pub mod bitstream;
pub mod bytes;
pub mod canonical;
pub mod cheapest;
pub mod code_laws;
pub mod config_laws;
pub mod decoder;
pub mod encoder;
pub mod error;
pub mod extradata;
pub mod fourcc;
pub mod huffman;
pub mod inspect;
pub mod laws;
pub mod layout_laws;
pub mod length_laws;
pub mod lengths;
pub mod message_laws;
pub mod mode_laws;
pub mod padding;
pub mod payload;
pub mod predict;
pub mod predictor;
pub mod registry;
pub mod sample_laws;
pub mod session_laws;
pub mod survey_laws;
pub mod text;
pub mod wire_laws;
pub mod workers;

pub use crate::decoder::{
    decode_frame, decode_frame_strict, DecodedFrame, DecodedPlane, PlaneLabel,
};
pub use crate::encoder::{encode_frame, EncodedFrame, PlaneInput};
pub use crate::error::{Error, ErrorCategory};
pub use crate::fourcc::{Extradata, Fourcc, Predictor, StreamConfig};
pub use crate::inspect::{peek_frame, peek_frame_info, FrameLayout, PlaneLayout, SliceLayout};
pub use crate::registry::CODEC_ID_STR;
