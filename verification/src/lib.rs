//! The logic of a sticky-notes desktop application: documents, styled text, the
//! windows on the desktop and what happens to them, and how glass is drawn.
//!
//! Nothing here opens a window or a file, reads a clock or computes with
//! floating-point numbers. A program around this library does that: it hands in
//! what it sees and does what the results say.

pub mod actions;
pub mod anim;
pub mod capture;
pub mod card;
pub mod desk;
pub mod dock;
pub mod double;
pub mod editing;
pub mod editor;
pub mod geometry;
pub mod gestures;
pub mod glass;
pub mod groups;
pub mod html;
pub mod json;
pub mod json_text;
pub mod keys;
pub mod material;
pub mod menu;
pub mod metrics;
pub mod number;
pub mod plain;
pub mod prox;
pub mod resolve;
pub mod scale;
pub mod settings;
pub mod shadow;
pub mod stack;
pub mod store;
pub mod strings;
pub mod text;
pub mod widgets;
pub mod zones;
