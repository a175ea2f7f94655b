//! Shape catalogs, canonical shape bitmaps and the fixed board layout used
//! to synthesize training instances.

pub mod canonical;
pub mod polyomino;
pub mod board;
pub mod target;
pub mod piece_pool;
pub mod instance;
pub mod quadrant_target;
pub mod tracer;
pub mod stream_tracer;
