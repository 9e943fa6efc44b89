//! Steganographic text codec: hides short ASCII payloads as invisible
//! Unicode tag characters, and lays an encoded payload out between the
//! word-boundary segments of a visible cover message.

pub mod codec;
pub mod intersperse;
pub mod segment;
