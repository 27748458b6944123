//! Logic of a Pac-Man style game: the maze graph, the ghosts' route search,
//! the player's direction buffering and score, and the coins.

pub mod laberinto;
pub mod objects;
pub mod game_logic;
