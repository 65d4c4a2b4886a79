//! Extraction of a bass line from decoded MIDI tracks: pitch naming, duration
//! quantisation, note-span reconstruction and bass-track classification.

pub mod convert;
pub mod export;
pub mod midi;
