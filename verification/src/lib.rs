//! Capture, decoding and bookkeeping logic of a recorder for the PCM trace
//! stream that the TL7218 firmware sends over a USB serial port.
pub mod decimal;
pub mod library;
pub mod proto;
pub mod recorder;
pub mod settings;
