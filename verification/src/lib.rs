//! Verified core of an offline OCR front end: image buffers handed to the
//! recognition engine, the geometry that groups recognized text into rows and
//! columns, and the text renderings built from it.

pub mod error;
pub mod bitmap;
pub mod coords;
pub mod interval;
pub mod text;
pub mod layout;
pub mod table;
pub mod spaced;
pub mod engine;
