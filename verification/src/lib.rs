//! The logic of an MSK144 station: the messages of a contact and the state machine
//! that conducts it, error correction, the decisions of the decoder, the log, spot
//! reports, and the dialogue with the radio.
//!
//! Signal processing itself, audio devices, files and sockets are left to the
//! program around this library.
pub mod adif;
pub mod adif_laws;
pub mod adif_read_laws;
pub mod audio;
pub mod audio_devices;
pub mod audio_out;
pub mod bytes;
pub mod clock;
pub mod digits;
pub mod double;
pub mod dsp;
pub mod engine;
pub mod fec;
pub mod hamlib;
pub mod logger;
pub mod mhz;
pub mod paths;
pub mod proto;
pub mod psk_session;
pub mod pskreporter;
pub mod pskreporter_laws;
pub mod qso;
pub mod qso_laws;
pub mod qso_tx_laws;
pub mod recorder;
pub mod rigctld;
pub mod settings;
pub mod text;
pub mod wsjtx_laws;
pub mod wsjtx_udp;
