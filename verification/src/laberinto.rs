//! The maze: its cells, the four directions and the graph of corridor nodes.

pub mod casillas;
pub mod init;

use vstd::prelude::*;

use crate::laberinto::casillas::{Casilla, Nodo};
use crate::laberinto::init::{dimensiones_validas, laberinto_enlazado, maze_init, nodos_sin_enlaces};

verus! {

/// The cell a map symbol stands for: `#` a wall, `.` a corridor node (with no
/// links yet), `S` the ghosts' spawn, anything else an empty cell.
pub open spec fn spec_casilla_de(c: char) -> Casilla {
    if c == '#' {
        Casilla::Pared
    } else if c == '.' {
        Casilla::Nodo(Nodo { norte: None, sur: None, este: None, oeste: None })
    } else if c == 'S' {
        Casilla::Spawn
    } else {
        Casilla::Vacio
    }
}

/// `lab` is the maze that the map `mapa` draws, symbol by symbol.
pub open spec fn dibuja(mapa: Seq<Vec<char>>, lab: Seq<Vec<Casilla>>) -> bool {
    &&& lab.len() == mapa.len()
    &&& forall|i: int| 0 <= i < mapa.len() ==> #[trigger] lab[i]@.len() == mapa[i]@.len()
    &&& forall|i: int, j: int|
        0 <= i < mapa.len() && 0 <= j < mapa[i]@.len() ==> #[trigger] lab[i]@[j]
            == spec_casilla_de(mapa[i]@[j])
}

/// The cell a map symbol stands for (see `spec_casilla_de`).
pub fn casilla_de(c: char) -> (r: Casilla)
    ensures
        r == spec_casilla_de(c),
{
    if c == '#' {
        Casilla::Pared
    } else if c == '.' {
        Casilla::Nodo(Nodo { norte: None, sur: None, este: None, oeste: None })
    } else if c == 'S' {
        Casilla::Spawn
    } else {
        Casilla::Vacio
    }
}

/// The maze a map draws, row by row and symbol by symbol (see
/// `spec_casilla_de`), with its nodes linked by `maze_init`.
pub fn maze_maker(mapa: &Vec<Vec<char>>) -> (lab: Vec<Vec<Casilla>>)
    requires
        mapa@.len() <= 19,
        mapa@.len() > 0 ==> mapa@[0]@.len() <= 31,
        forall|i: int| 0 <= i < mapa@.len() ==> #[trigger] mapa@[i]@.len() >= mapa@[0]@.len(),
    ensures
        exists|dibujado: Seq<Vec<Casilla>>|
            {
                &&& dibuja(mapa@, dibujado)
                &&& dimensiones_validas(dibujado)
                &&& nodos_sin_enlaces(dibujado)
                &&& laberinto_enlazado(dibujado, lab@)
            },
{
    let mut lab: Vec<Vec<Casilla>> = Vec::new();
    let mut i: usize = 0;
    while i < mapa.len()
        invariant
            i <= mapa@.len(),
            lab@.len() == i,
            forall|a: int| 0 <= a < i ==> #[trigger] lab@[a]@.len() == mapa@[a]@.len(),
            forall|a: int, b: int|
                0 <= a < i && 0 <= b < mapa@[a]@.len() ==> #[trigger] lab@[a]@[b]
                    == spec_casilla_de(mapa@[a]@[b]),
        decreases mapa@.len() - i,
    {
        let mut fila: Vec<Casilla> = Vec::new();
        let mut j: usize = 0;
        while j < mapa[i].len()
            invariant
                i < mapa@.len(),
                j <= mapa@[i as int]@.len(),
                fila@.len() == j,
                forall|b: int| 0 <= b < j ==> #[trigger] fila@[b] == spec_casilla_de(mapa@[i as int]@[b]),
            decreases mapa@[i as int]@.len() - j,
        {
            fila.push(casilla_de(mapa[i][j]));
            j = j + 1;
        }
        lab.push(fila);
        i = i + 1;
    }
    let ghost dibujado = lab@;
    proof {
        assert(dibuja(mapa@, dibujado));
        assert(dimensiones_validas(dibujado));
        assert(nodos_sin_enlaces(dibujado));
    }
    maze_init(&mut lab);
    lab
}

} // verus!
