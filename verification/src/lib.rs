//! Integer and buffer logic of a small software-defined-radio toolkit:
//! FIR tap layout, sliding sample windows for filtering and decimation,
//! sample codecs for RTL-TCP style streams, and command handling.

pub mod fir_taps;
pub mod window_buffer;
pub mod streaming_laws;
pub mod sample_codec;
pub mod command;
pub mod history;
pub mod clients;
