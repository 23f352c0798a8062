//! Which files of a bundle the ignore rules leave, and which they leave out.

pub mod disk;
pub mod glob;
pub mod ignore;
pub mod layers;
pub mod order;
pub mod path;
pub mod pattern;
pub mod reach;
pub mod survey;
pub mod text;
pub mod walk;
pub mod watch;
