//! Rules engine for a tile-sliding maze board game.
//!
//! A board holds a grid of rotatable passage-bearing tiles plus one loose
//! tile.  Each turn the loose tile is inserted from an edge, shifting a lane
//! of tiles by one cell, and a token may then move along the connected
//! passages.  The two central algorithms are the lane-shift insertion and the
//! reachability query over the mutual-passage adjacency relation.

pub mod board;
pub mod tile;
