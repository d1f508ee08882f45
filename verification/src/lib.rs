//! A verified implementation of the ITU-T H.120 video codec (clause 1).

pub mod cli;
pub mod codec;
pub mod container;
pub mod ffmpeg;
pub mod picture;
pub mod player;
pub mod scale;
pub mod source;
pub mod text;
pub mod y4m;
