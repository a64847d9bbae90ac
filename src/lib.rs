//! Core of a waveform viewer: signal identities, value translation, draw-command
//! generation for a pixel canvas, and time formatting.
pub mod wave_container;
pub mod translation;
pub mod translators;
pub mod signal_canvas;
pub mod time;
pub mod displayed_item;
pub mod wave_data;
pub mod command_prompt;
