use vstd::prelude::*;

verus! {

/// The four directions in which a character can move through the maze.
#[derive(PartialEq, Eq, Structural, Clone, Copy, Debug, Hash)]
pub enum Direcciones {
    Norte,
    Sur,
    Este,
    Oeste,
}

impl Direcciones {
    /// The direction that undoes this one.
    pub open spec fn spec_opuesta(self) -> Direcciones {
        match self {
            Direcciones::Norte => Direcciones::Sur,
            Direcciones::Sur => Direcciones::Norte,
            Direcciones::Este => Direcciones::Oeste,
            Direcciones::Oeste => Direcciones::Este,
        }
    }

    /// Whether the direction moves along a row (east or west).
    pub open spec fn spec_es_horizontal(self) -> bool {
        self == Direcciones::Este || self == Direcciones::Oeste
    }

    /// The unit step of the direction on screen, as (x, y) with y growing downwards.
    pub open spec fn spec_vector(self) -> (i32, i32) {
        match self {
            Direcciones::Norte => (0i32, -1i32),
            Direcciones::Sur => (0i32, 1i32),
            Direcciones::Este => (1i32, 0i32),
            Direcciones::Oeste => (-1i32, 0i32),
        }
    }

    /// The unit step of the direction on screen, as (x, y) with y growing downwards.
    pub fn vector(&self) -> (v: (i32, i32))
        ensures
            v == self.spec_vector(),
    {
        match self {
            Direcciones::Norte => (0, -1),
            Direcciones::Sur => (0, 1),
            Direcciones::Este => (1, 0),
            Direcciones::Oeste => (-1, 0),
        }
    }

    /// The direction that undoes this one.
    pub fn opuesta(&self) -> (r: Direcciones)
        ensures
            r == self.spec_opuesta(),
    {
        match self {
            Direcciones::Norte => Direcciones::Sur,
            Direcciones::Sur => Direcciones::Norte,
            Direcciones::Este => Direcciones::Oeste,
            Direcciones::Oeste => Direcciones::Este,
        }
    }

    /// Whether the direction moves along a row (east or west).
    pub fn es_horizontal(&self) -> (r: bool)
        ensures
            r == self.spec_es_horizontal(),
    {
        match self {
            Direcciones::Este | Direcciones::Oeste => true,
            _ => false,
        }
    }
}

/// A corridor node of the maze and the neighbouring nodes it is linked to,
/// one optional link per direction, each given by the grid position
/// `(row, column)` of the linked node.
#[derive(Clone, Copy, Debug)]
pub struct Nodo {
    pub norte: Option<(usize, usize)>,
    pub sur: Option<(usize, usize)>,
    pub este: Option<(usize, usize)>,
    pub oeste: Option<(usize, usize)>,
}

impl Nodo {
    /// The link of the node in direction `d`.
    pub open spec fn conexion(self, d: Direcciones) -> Option<(usize, usize)> {
        match d {
            Direcciones::Norte => self.norte,
            Direcciones::Sur => self.sur,
            Direcciones::Este => self.este,
            Direcciones::Oeste => self.oeste,
        }
    }

    /// The node with its link in direction `d` set to `destino`.
    pub open spec fn con_conexion(self, d: Direcciones, destino: Option<(usize, usize)>) -> Nodo {
        match d {
            Direcciones::Norte => Nodo { norte: destino, ..self },
            Direcciones::Sur => Nodo { sur: destino, ..self },
            Direcciones::Este => Nodo { este: destino, ..self },
            Direcciones::Oeste => Nodo { oeste: destino, ..self },
        }
    }

    /// The links of the node as a map from direction to linked position.
    pub open spec fn mapa(self) -> Map<Direcciones, (usize, usize)> {
        Map::new(
            |d: Direcciones| self.conexion(d) is Some,
            |d: Direcciones| self.conexion(d)->0,
        )
    }

    /// The links of the node, in the order north, south, east, west.
    pub open spec fn lista(self) -> Seq<(Direcciones, (usize, usize))> {
        Self::entrada(Direcciones::Norte, self.norte) + Self::entrada(Direcciones::Sur, self.sur)
            + Self::entrada(Direcciones::Este, self.este) + Self::entrada(
            Direcciones::Oeste,
            self.oeste,
        )
    }

    pub open spec fn entrada(d: Direcciones, c: Option<(usize, usize)>) -> Seq<
        (Direcciones, (usize, usize)),
    > {
        match c {
            Some(p) => seq![(d, p)],
            None => Seq::empty(),
        }
    }

    /// A node with no links.
    pub fn new() -> (n: Nodo)
        ensures
            n == (Nodo { norte: None, sur: None, este: None, oeste: None }),
            forall|d: Direcciones| #[trigger] n.conexion(d) is None,
            n.mapa() == Map::<Direcciones, (usize, usize)>::empty(),
    {
        let n = Nodo { norte: None, sur: None, este: None, oeste: None };
        assert(n.mapa() =~= Map::<Direcciones, (usize, usize)>::empty());
        n
    }

    /// Links the node, in direction `direccion`, to the node at `conection`;
    /// a link already present in that direction is replaced.
    pub fn add_conection(&mut self, conection: (usize, usize), direccion: Direcciones)
        ensures
            *final(self) == old(self).con_conexion(direccion, Some(conection)),
            final(self).mapa() == old(self).mapa().insert(direccion, conection),
    {
        match direccion {
            Direcciones::Norte => self.norte = Some(conection),
            Direcciones::Sur => self.sur = Some(conection),
            Direcciones::Este => self.este = Some(conection),
            Direcciones::Oeste => self.oeste = Some(conection),
        }
        assert(final(self).mapa() =~= old(self).mapa().insert(direccion, conection));
    }

    /// The link of the node in direction `d`.
    pub fn conexion_en(&self, d: Direcciones) -> (r: Option<(usize, usize)>)
        ensures
            r == self.conexion(d),
    {
        match d {
            Direcciones::Norte => self.norte,
            Direcciones::Sur => self.sur,
            Direcciones::Este => self.este,
            Direcciones::Oeste => self.oeste,
        }
    }

    /// The links of the node, in the order north, south, east, west.
    pub fn conections(&self) -> (r: Vec<(Direcciones, (usize, usize))>)
        ensures
            r@ == self.lista(),
    {
        let mut r: Vec<(Direcciones, (usize, usize))> = Vec::new();
        if let Some(p) = self.norte {
            r.push((Direcciones::Norte, p));
        }
        if let Some(p) = self.sur {
            r.push((Direcciones::Sur, p));
        }
        if let Some(p) = self.este {
            r.push((Direcciones::Este, p));
        }
        if let Some(p) = self.oeste {
            r.push((Direcciones::Oeste, p));
        }
        assert(r@ =~= self.lista());
        r
    }
}

impl Default for Nodo {
    fn default() -> (n: Nodo)
        ensures
            forall|d: Direcciones| #[trigger] n.conexion(d) is None,
    {
        Nodo::new()
    }
}

/// A cell of the maze grid.
#[derive(Clone, Copy, Debug)]
pub enum Casilla {
    Pared,
    Vacio,
    Spawn,
    Nodo(Nodo),
}

impl Casilla {
    /// Whether the cell is a corridor node.
    pub open spec fn spec_es_nodo(self) -> bool {
        self is Nodo
    }

    /// Whether the cell is a corridor node.
    pub fn es_nodo(&self) -> (r: bool)
        ensures
            r == self.spec_es_nodo(),
    {
        match self {
            Casilla::Nodo(_) => true,
            _ => false,
        }
    }
}

/// The width of a maze: the length of its first row (0 for a maze without rows).
pub open spec fn columnas(lab: Seq<Vec<Casilla>>) -> int {
    if lab.len() > 0 {
        lab[0]@.len() as int
    } else {
        0
    }
}

/// Every row of the maze is at least as long as the first one.
pub open spec fn rejilla(lab: Seq<Vec<Casilla>>) -> bool {
    forall|i: int| 0 <= i < lab.len() ==> #[trigger] lab[i]@.len() >= columnas(lab)
}

/// `p` lies in the maze: in a row, and within the width of the first row.
pub open spec fn en_rango(lab: Seq<Vec<Casilla>>, p: (usize, usize)) -> bool {
    p.0 < lab.len() && p.1 < columnas(lab)
}

/// The cell of the maze at `p`.
pub open spec fn casilla(lab: Seq<Vec<Casilla>>, p: (usize, usize)) -> Casilla {
    lab[p.0 as int]@[p.1 as int]
}

/// The grid position one step from `p` in direction `d`, on a board of
/// `filas` rows and `cols` columns whose edges wrap around.
pub open spec fn paso(p: (usize, usize), d: Direcciones, filas: int, cols: int) -> (usize, usize) {
    let (i, j) = p;
    match d {
        Direcciones::Norte => if i == 0 {
            ((filas - 1) as usize, j)
        } else {
            ((i - 1) as usize, j)
        },
        Direcciones::Sur => if i == filas - 1 {
            (0, j)
        } else {
            ((i + 1) as usize, j)
        },
        Direcciones::Este => if j == cols - 1 {
            (i, 0)
        } else {
            (i, (j + 1) as usize)
        },
        Direcciones::Oeste => if j == 0 {
            (i, (cols - 1) as usize)
        } else {
            (i, (j - 1) as usize)
        },
    }
}

/// The neighbour of `p` in direction `d` in the maze, the edges wrapping around.
pub open spec fn vecino(lab: Seq<Vec<Casilla>>, p: (usize, usize), d: Direcciones) -> (usize, usize) {
    paso(p, d, lab.len() as int, columnas(lab))
}

/// One step on the wrapping board stays on the board.
pub proof fn lemma_paso_en_rango(p: (usize, usize), d: Direcciones, filas: int, cols: int)
    requires
        p.0 < filas,
        p.1 < cols,
    ensures
        paso(p, d, filas, cols).0 < filas,
        paso(p, d, filas, cols).1 < cols,
{
}

/// A step back in the opposite direction returns to the starting position.
pub proof fn lemma_paso_opuesto(p: (usize, usize), d: Direcciones, filas: int, cols: int)
    requires
        p.0 < filas <= usize::MAX,
        p.1 < cols <= usize::MAX,
    ensures
        paso(paso(p, d, filas, cols), d.spec_opuesta(), filas, cols) == p,
{
    let q = paso(p, d, filas, cols);
    match d {
        Direcciones::Norte => assert(paso(q, Direcciones::Sur, filas, cols) == p),
        Direcciones::Sur => assert(paso(q, Direcciones::Norte, filas, cols) == p),
        Direcciones::Este => assert(paso(q, Direcciones::Oeste, filas, cols) == p),
        Direcciones::Oeste => assert(paso(q, Direcciones::Este, filas, cols) == p),
    }
}

/// The position one step from `(i, j)` in direction `d` on a board of `filas`
/// rows and `cols` columns whose edges wrap around.
pub fn paso_en(i: usize, j: usize, d: Direcciones, filas: usize, cols: usize) -> (r: (usize, usize))
    requires
        i < filas,
        j < cols,
    ensures
        r == paso((i, j), d, filas as int, cols as int),
        r.0 < filas,
        r.1 < cols,
{
    let i_limit = filas - 1;
    let j_limit = cols - 1;
    match d {
        Direcciones::Norte => if i == 0 {
            (i_limit, j)
        } else {
            (i - 1, j)
        },
        Direcciones::Sur => if i == i_limit {
            (0, j)
        } else {
            (i + 1, j)
        },
        Direcciones::Este => if j == j_limit {
            (i, 0)
        } else {
            (i, j + 1)
        },
        Direcciones::Oeste => if j == 0 {
            (i, j_limit)
        } else {
            (i, j - 1)
        },
    }
}

} // verus!
