//! A step-curve fan controller: a validated curve of (temperature, speed) anchors,
//! its lookup, the reader of curve files, and the decision of each control cycle.

pub mod control;
pub mod curve;
pub mod parse;
