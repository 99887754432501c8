//! Ball-sort puzzle solver: tubes of coloured balls, legal moves between
//! them, and an exhaustive search for a sequence of moves that sorts every
//! tube.

pub mod explore;
pub mod frontier;
pub mod game_state;
pub mod loader;
pub mod move_type;
pub mod path;
pub mod search;
pub mod tube;
pub mod visited;
pub mod worker;
