//! Ambient LED sync for gamescope sessions: the verified core.
//!
//! The geometry of an LED strip around a screen, the mean colour of the
//! screen's edge zones, the order in which the strip shows them, the WLED
//! DRGB packet, the PNG frame dump, and the decisions of the capture loop.

pub mod text;
pub mod geometry;
pub mod output;
pub mod capture;
pub mod log;
pub mod cli;
