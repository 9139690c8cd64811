//! Tile-map ingestion and world instancing for a small first-person
//! exploration game.
//!
//! The overworld arrives as two parallel texts: a grid of hexadecimal tile
//! codes and a passability mask. The modules, leaf first:
//!
//! - [`tile`]: the tile record and the classifier of raw tile codes;
//! - [`text`]: the characters of the two sources, and what a token denotes;
//! - [`parser`]: from the two texts to one flat sequence of tile records;
//! - [`layout`]: how a flat index relates to a room, a tile within the room
//!   and a point in world space;
//! - [`instancer`]: the sweep over every room and tile that lists the
//!   ground segments and obstacles to place;
//! - [`grid`]: the law that the parser's fill order and the mapper's
//!   formula are one flattening;
//! - [`census`]: the laws on what every sweep lists, counted;
//! - [`session`]: the view mode, and what it asks of cameras and cursor.
//!
//! Every function is verified against a contract stated over the
//! mathematical model of its arguments. Lengths along the world axes are
//! whole numbers of half world units and a yaw is a whole number of steps
//! of a full turn, so no floating point is needed to state where an object
//! goes or how it is turned.

pub mod census;
pub mod grid;
pub mod instancer;
pub mod layout;
pub mod parser;
pub mod session;
pub mod text;
pub mod tile;
