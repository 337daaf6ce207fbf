//! A live MJPEG relay core: a frame-reconstruction parser for the multipart
//! stream a transcoding subprocess emits, and a bounded broadcast hub that
//! fans completed frames out to any number of independently-paced viewers.

#![verifier::loop_isolation(false)]

pub mod frame;
pub mod hub;
pub mod reader;
pub mod server;
pub mod source;
