//! The objects of the game: ghosts, coins and the player.

pub mod fantasmas;
pub mod monedas;
pub mod personaje;

use vstd::prelude::*;

verus! {

/// What an object is to the player when the two collide.
#[derive(PartialEq, Eq, Structural, Clone, Copy, Debug)]
pub enum TipoColider {
    Obstaculo,
    Enemigo,
    Jugador,
    Moneda,
}

} // verus!
