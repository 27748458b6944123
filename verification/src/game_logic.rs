use vstd::prelude::*;

use crate::laberinto::casillas::{Casilla, Direcciones};
use crate::objects::fantasmas::utils::{State, TipoFantasma};
use crate::objects::fantasmas::planning::a_usize;
use crate::objects::fantasmas::{
    paso_logico, planificado, recepcion, AccionFantasma, Fantasma, Plan,
};
use crate::objects::monedas::Moneda;
use crate::objects::personaje::{EventoTecla, Player};

verus! {

/// Whether a cell is a wall (`pared`) or a node (otherwise).
pub open spec fn es_de_tipo(c: Casilla, pared: bool) -> bool {
    if pared {
        c is Pared
    } else {
        c is Nodo
    }
}

/// The positions, in order, of the first `n` cells of row `i` that are walls
/// (`pared`) or nodes.
pub open spec fn posiciones_fila(fila: Seq<Casilla>, i: usize, n: int, pared: bool) -> Seq<
    (usize, usize),
>
    decreases n,
{
    if n <= 0 {
        Seq::empty()
    } else {
        posiciones_fila(fila, i, n - 1, pared) + if es_de_tipo(fila[n - 1], pared) {
            seq![(i, (n - 1) as usize)]
        } else {
            Seq::empty()
        }
    }
}

/// The positions, row by row, of the cells of the first `k` rows that are
/// walls (`pared`) or nodes.
pub open spec fn posiciones(lab: Seq<Vec<Casilla>>, k: int, pared: bool) -> Seq<(usize, usize)>
    decreases k,
{
    if k <= 0 {
        Seq::empty()
    } else {
        posiciones(lab, k - 1, pared) + posiciones_fila(
            lab[k - 1]@,
            (k - 1) as usize,
            lab[k - 1]@.len() as int,
            pared,
        )
    }
}

/// `a` comes before `b` row by row: in an earlier row, or earlier in the same row.
pub open spec fn antes_que(a: (usize, usize), b: (usize, usize)) -> bool {
    a.0 < b.0 || (a.0 == b.0 && a.1 < b.1)
}

/// The positions of the first `n` cells of row `i` that are walls (`pared`)
/// or nodes lie in that row, on cells of that kind, in order; and every such
/// cell is among them.
pub proof fn lemma_posiciones_fila(fila: Seq<Casilla>, i: usize, n: int, pared: bool)
    requires
        0 <= n <= fila.len(),
        fila.len() <= usize::MAX,
    ensures
        ({
            let s = posiciones_fila(fila, i, n, pared);
            &&& forall|q: int|
                0 <= q < s.len() ==> (#[trigger] s[q]).0 == i && s[q].1 < n && (if pared {
                    fila[s[q].1 as int] is Pared
                } else {
                    fila[s[q].1 as int] is Nodo
                })
            &&& forall|q1: int, q2: int| 0 <= q1 < q2 < s.len() ==> #[trigger] s[q1].1 < #[trigger] s[q2].1
            &&& forall|j: int|
                0 <= j < n && (if pared {
                    fila[j] is Pared
                } else {
                    fila[j] is Nodo
                }) ==> exists|q: int| 0 <= q < s.len() && #[trigger] s[q] == (i, j as usize)
        }),
    decreases n,
{
    if n > 0 {
        lemma_posiciones_fila(fila, i, n - 1, pared);
        let prev = posiciones_fila(fila, i, n - 1, pared);
        let s = posiciones_fila(fila, i, n, pared);
        let nuevo: Seq<(usize, usize)> = if es_de_tipo(fila[n - 1], pared) {
            seq![(i, (n - 1) as usize)]
        } else {
            Seq::empty()
        };
        assert(s == prev + nuevo);
        assert forall|q: int| 0 <= q < s.len() implies (#[trigger] s[q]).0 == i && s[q].1 < n && (if pared {
            fila[s[q].1 as int] is Pared
        } else {
            fila[s[q].1 as int] is Nodo
        }) by {
            if q < prev.len() {
                assert(s[q] == prev[q]);
            } else {
                assert(s[q] == nuevo[q - prev.len()]);
            }
        }
        assert forall|q1: int, q2: int| 0 <= q1 < q2 < s.len() implies #[trigger] s[q1].1
            < #[trigger] s[q2].1 by {
            assert(s[q1] == prev[q1]);
            if q2 < prev.len() {
                assert(s[q2] == prev[q2]);
            } else {
                assert(s[q2] == nuevo[q2 - prev.len()]);
            }
        }
        assert forall|j: int|
            0 <= j < n && (if pared {
                fila[j] is Pared
            } else {
                fila[j] is Nodo
            }) implies exists|q: int| 0 <= q < s.len() && #[trigger] s[q] == (i, j as usize) by {
            if j < n - 1 {
                let q = choose|q: int| 0 <= q < prev.len() && #[trigger] prev[q] == (i, j as usize);
                assert(s[q] == prev[q]);
            } else {
                assert(s[prev.len() as int] == (i, j as usize));
            }
        }
    }
}

/// The positions of the walls (`pared`) or nodes of the first `k` rows lie
/// in those rows, on cells of that kind, in order row by row; and every such
/// cell is among them.
pub proof fn lemma_posiciones(lab: Seq<Vec<Casilla>>, k: int, pared: bool)
    requires
        0 <= k <= lab.len(),
        lab.len() <= usize::MAX,
    ensures
        ({
            let s = posiciones(lab, k, pared);
            &&& forall|q: int|
                0 <= q < s.len() ==> (#[trigger] s[q]).0 < k && s[q].1 < lab[s[q].0 as int]@.len() && (
                if pared {
                    lab[s[q].0 as int]@[s[q].1 as int] is Pared
                } else {
                    lab[s[q].0 as int]@[s[q].1 as int] is Nodo
                })
            &&& forall|q1: int, q2: int| 0 <= q1 < q2 < s.len() ==> antes_que(#[trigger] s[q1], #[trigger] s[q2])
            &&& forall|i: int, j: int|
                0 <= i < k && 0 <= j < lab[i]@.len() && (if pared {
                    lab[i]@[j] is Pared
                } else {
                    lab[i]@[j] is Nodo
                }) ==> exists|q: int| 0 <= q < s.len() && #[trigger] s[q] == (i as usize, j as usize)
        }),
    decreases k,
{
    if k > 0 {
        lemma_posiciones(lab, k - 1, pared);
        let fila = lab[k - 1]@;
        assert(lab[k - 1].len() == fila.len());
        lemma_posiciones_fila(fila, (k - 1) as usize, fila.len() as int, pared);
        let prev = posiciones(lab, k - 1, pared);
        let f = posiciones_fila(fila, (k - 1) as usize, fila.len() as int, pared);
        let s = posiciones(lab, k, pared);
        assert(s == prev + f);
        assert forall|q: int| 0 <= q < s.len() implies (#[trigger] s[q]).0 < k && s[q].1 < lab[s[q].0 as int]@.len()
            && (if pared {
            lab[s[q].0 as int]@[s[q].1 as int] is Pared
        } else {
            lab[s[q].0 as int]@[s[q].1 as int] is Nodo
        }) by {
            if q < prev.len() {
                assert(s[q] == prev[q]);
            } else {
                assert(s[q] == f[q - prev.len()]);
            }
        }
        assert forall|q1: int, q2: int| 0 <= q1 < q2 < s.len() implies antes_que(
            #[trigger] s[q1],
            #[trigger] s[q2],
        ) by {
            if q2 < prev.len() {
                assert(s[q1] == prev[q1]);
                assert(s[q2] == prev[q2]);
            } else if q1 < prev.len() {
                assert(s[q1] == prev[q1]);
                assert(s[q2] == f[q2 - prev.len()]);
            } else {
                assert(s[q1] == f[q1 - prev.len()]);
                assert(s[q2] == f[q2 - prev.len()]);
            }
        }
        assert forall|i: int, j: int|
            0 <= i < k && 0 <= j < lab[i]@.len() && (if pared {
                lab[i]@[j] is Pared
            } else {
                lab[i]@[j] is Nodo
            }) implies exists|q: int| 0 <= q < s.len() && #[trigger] s[q] == (i as usize, j as usize) by {
            if i < k - 1 {
                let q = choose|q: int| 0 <= q < prev.len() && #[trigger] prev[q] == (i as usize, j as usize);
                assert(s[q] == prev[q]);
            } else {
                let q = choose|q: int| 0 <= q < f.len() && #[trigger] f[q] == ((k - 1) as usize, j as usize);
                assert(s[prev.len() + q] == f[q]);
            }
        }
    }
}

/// The number of coins among the first `n` that have been taken.
pub open spec fn tomadas(monedas: Seq<Moneda>, n: int) -> nat
    decreases n,
{
    if n <= 0 {
        0
    } else {
        tomadas(monedas, n - 1) + if monedas[n - 1].spec_tomada() {
            1nat
        } else {
            0nat
        }
    }
}

/// The kinds of the four ghosts, in the order the game creates them.
pub open spec fn tipos_iniciales() -> Seq<TipoFantasma> {
    seq![TipoFantasma::Azul, TipoFantasma::Naranja, TipoFantasma::Rojo, TipoFantasma::Rosa]
}

/// The player and the coins, with which the score is kept.
struct Marcador {
    jugador: Player,
    monedas: Vec<Moneda>,
}

/// The state of a game: the linked maze, its walls, the player with the
/// coins, and the ghosts. The score is always the number of coins taken.
pub struct Game {
    maze: Vec<Vec<Casilla>>,
    paredes: Vec<(usize, usize)>,
    marcador: Marcador,
    fantasmas: Vec<Fantasma>,
}

impl Game {
    pub closed spec fn spec_maze(&self) -> Seq<Vec<Casilla>> {
        self.maze@
    }

    pub closed spec fn spec_paredes(&self) -> Seq<(usize, usize)> {
        self.paredes@
    }

    pub closed spec fn spec_jugador(&self) -> Player {
        self.marcador.jugador
    }

    pub closed spec fn spec_fantasmas(&self) -> Seq<Fantasma> {
        self.fantasmas@
    }

    pub closed spec fn spec_monedas(&self) -> Seq<Moneda> {
        self.marcador.monedas@
    }

    /// The score is the number of coins taken.
    #[verifier::type_invariant]
    spec fn puntaje_cuenta_monedas(self) -> bool {
        self.marcador.jugador.spec_puntaje() == tomadas(
            self.marcador.monedas@,
            self.marcador.monedas@.len() as int,
        )
    }

    /// A new game on the maze `maze` (already linked): a wall on each wall
    /// cell and a coin on each node, both row by row; a fresh player; and the
    /// four ghosts, standing by, in the order blue, orange, red, pink.
    pub fn new(maze: Vec<Vec<Casilla>>) -> (g: Game)
        ensures
            g.spec_maze() == maze@,
            g.spec_paredes() == posiciones(maze@, maze@.len() as int, true),
            g.spec_monedas().len() == posiciones(maze@, maze@.len() as int, false).len(),
            forall|k: int|
                0 <= k < g.spec_monedas().len() ==> (#[trigger] g.spec_monedas()[k]).spec_grid_pos()
                    == posiciones(maze@, maze@.len() as int, false)[k]
                    && !g.spec_monedas()[k].spec_tomada(),
            forall|k: int|
                0 <= k < g.spec_monedas().len() ==> {
                    let p = (#[trigger] g.spec_monedas()[k]).spec_grid_pos();
                    p.0 < maze@.len() && p.1 < maze@[p.0 as int]@.len() && maze@[p.0 as int]@[p.1 as int] is Nodo
                },
            forall|i: int, j: int|
                0 <= i < maze@.len() && 0 <= j < maze@[i]@.len() && #[trigger] maze@[i]@[j] is Nodo ==> exists|k: int|
                    0 <= k < g.spec_monedas().len() && (#[trigger] g.spec_monedas()[k]).spec_grid_pos() == (
                        i as usize,
                        j as usize,
                    ),
            forall|k1: int, k2: int|
                0 <= k1 < k2 < g.spec_monedas().len() ==> (#[trigger] g.spec_monedas()[k1]).spec_grid_pos()
                    != (#[trigger] g.spec_monedas()[k2]).spec_grid_pos(),
            forall|q: int|
                0 <= q < g.spec_paredes().len() ==> {
                    let p = #[trigger] g.spec_paredes()[q];
                    p.0 < maze@.len() && p.1 < maze@[p.0 as int]@.len() && maze@[p.0 as int]@[p.1 as int] is Pared
                },
            forall|i: int, j: int|
                0 <= i < maze@.len() && 0 <= j < maze@[i]@.len() && #[trigger] maze@[i]@[j] is Pared ==> exists|q: int|
                    0 <= q < g.spec_paredes().len() && #[trigger] g.spec_paredes()[q] == (i as usize, j as usize),
            g.spec_jugador().spec_puntaje() == 0,
            g.spec_jugador().spec_next_direction() is None,
            g.spec_jugador().spec_movimiento() is None,
            g.spec_fantasmas().len() == 4,
            forall|k: int|
                0 <= k < 4 ==> (#[trigger] g.spec_fantasmas()[k]).spec_tipo() == tipos_iniciales()[k]
                    && g.spec_fantasmas()[k].spec_estado() == State::Standby
                    && g.spec_fantasmas()[k].spec_movimiento() is None
                    && g.spec_fantasmas()[k].spec_ruta() == Seq::<Direcciones>::empty(),
    {
        let mut paredes: Vec<(usize, usize)> = Vec::new();
        let mut monedas: Vec<Moneda> = Vec::new();
        let filas = maze.len();
        let mut i: usize = 0;
        while i < filas
            invariant
                filas == maze@.len(),
                i <= filas,
                paredes@ == posiciones(maze@, i as int, true),
                monedas@.len() == posiciones(maze@, i as int, false).len(),
                forall|k: int|
                    0 <= k < monedas@.len() ==> (#[trigger] monedas@[k]).spec_grid_pos()
                        == posiciones(maze@, i as int, false)[k] && !monedas@[k].spec_tomada(),
            decreases filas - i,
        {
            let cols = maze[i].len();
            let ghost paredes0 = paredes@;
            let ghost monedas0 = monedas@;
            let ghost fila = maze@[i as int]@;
            let mut j: usize = 0;
            while j < cols
                invariant
                    filas == maze@.len(),
                    i < filas,
                    fila == maze@[i as int]@,
                    cols == fila.len(),
                    j <= cols,
                    paredes@ == paredes0 + posiciones_fila(fila, i, j as int, true),
                    monedas@.len() == monedas0.len() + posiciones_fila(fila, i, j as int, false).len(),
                    forall|k: int|
                        0 <= k < monedas0.len() ==> #[trigger] monedas@[k] == monedas0[k],
                    forall|k: int|
                        monedas0.len() <= k < monedas@.len() ==> (#[trigger] monedas@[k]).spec_grid_pos()
                            == posiciones_fila(fila, i, j as int, false)[k - monedas0.len()]
                            && !monedas@[k].spec_tomada(),
                decreases cols - j,
            {
                match maze[i][j] {
                    Casilla::Pared => {
                        paredes.push((i, j));
                    },
                    Casilla::Nodo(_) => {
                        monedas.push(Moneda::new(i, j));
                    },
                    _ => {},
                }
                proof {
                    assert(fila[j as int] == maze@[i as int]@[j as int]);
                }
                j = j + 1;
            }
            proof {
                let nuevas = posiciones_fila(fila, i, cols as int, false);
                assert(posiciones(maze@, i + 1, false) == posiciones(maze@, i as int, false) + nuevas);
                assert forall|k: int| 0 <= k < monedas@.len() implies (#[trigger] monedas@[k]).spec_grid_pos()
                    == posiciones(maze@, i + 1, false)[k] && !monedas@[k].spec_tomada() by {
                    if k < monedas0.len() {
                        assert(monedas@[k] == monedas0[k]);
                    }
                }
            }
            i = i + 1;
        }
        let mut fantasmas: Vec<Fantasma> = Vec::new();
        fantasmas.push(Fantasma::new(TipoFantasma::Azul));
        fantasmas.push(Fantasma::new(TipoFantasma::Naranja));
        fantasmas.push(Fantasma::new(TipoFantasma::Rojo));
        fantasmas.push(Fantasma::new(TipoFantasma::Rosa));
        proof {
            lemma_ninguna_tomada(monedas@, monedas@.len() as int);
            assert(maze.len() == maze@.len());
            lemma_posiciones(maze@, maze@.len() as int, false);
            lemma_posiciones(maze@, maze@.len() as int, true);
            let s = posiciones(maze@, maze@.len() as int, false);
            assert forall|i: int, j: int|
                0 <= i < maze@.len() && 0 <= j < maze@[i]@.len() && #[trigger] maze@[i]@[j] is Nodo implies exists|k: int|
                    0 <= k < monedas@.len() && (#[trigger] monedas@[k]).spec_grid_pos() == (i as usize, j as usize) by {
                let q = choose|q: int| 0 <= q < s.len() && #[trigger] s[q] == (i as usize, j as usize);
                assert(monedas@[q].spec_grid_pos() == s[q]);
            }
            assert forall|k1: int, k2: int| 0 <= k1 < k2 < monedas@.len() implies (#[trigger] monedas@[k1]).spec_grid_pos()
                != (#[trigger] monedas@[k2]).spec_grid_pos() by {
                assert(antes_que(s[k1], s[k2]));
            }
        }
        Game { maze, paredes, marcador: Marcador { jugador: Player::new(), monedas }, fantasmas }
    }
}

impl Game {
    /// The score: the number of coins taken.
    pub fn puntaje(&self) -> (r: u32)
        ensures
            r == self.spec_jugador().spec_puntaje(),
            r == tomadas(self.spec_monedas(), self.spec_monedas().len() as int),
    {
        proof {
            use_type_invariant(self);
        }
        self.marcador.jugador.puntaje()
    }

    /// The linked maze.
    pub fn maze(&self) -> (r: &Vec<Vec<Casilla>>)
        ensures
            r@ == self.spec_maze(),
    {
        &self.maze
    }

    /// The positions of the walls, row by row.
    pub fn paredes(&self) -> (r: &Vec<(usize, usize)>)
        ensures
            r@ == self.spec_paredes(),
    {
        &self.paredes
    }

    /// The coins.
    pub fn monedas(&self) -> (r: &Vec<Moneda>)
        ensures
            r@ == self.spec_monedas(),
    {
        &self.marcador.monedas
    }

    /// The player.
    pub fn jugador(&self) -> (r: &Player)
        ensures
            *r == self.spec_jugador(),
    {
        &self.marcador.jugador
    }

    /// The ghosts.
    pub fn fantasmas(&self) -> (r: &Vec<Fantasma>)
        ensures
            r@ == self.spec_fantasmas(),
    {
        &self.fantasmas
    }

    /// One step of the logic of ghost `k` (see `Fantasma::logic`); nothing
    /// else of the game changes.
    pub fn fantasma_logic(&mut self, k: usize, consumir: bool, planificar: bool, centrado: bool) -> (r:
        AccionFantasma)
        requires
            k < old(self).spec_fantasmas().len(),
        ensures
            final(self).spec_fantasmas() == old(self).spec_fantasmas().update(
                k as int,
                final(self).spec_fantasmas()[k as int],
            ),
            paso_logico(
                old(self).spec_fantasmas()[k as int],
                final(self).spec_fantasmas()[k as int],
                consumir,
                planificar,
                centrado,
                r,
            ),
            final(self).spec_maze() == old(self).spec_maze(),
            final(self).spec_paredes() == old(self).spec_paredes(),
            final(self).spec_jugador() == old(self).spec_jugador(),
            final(self).spec_monedas() == old(self).spec_monedas(),
    {
        proof {
            use_type_invariant(&*self);
        }
        let mut fantasmas: Vec<Fantasma> = Vec::new();
        std::mem::swap(&mut fantasmas, &mut self.fantasmas);
        let mut fantasma = fantasmas.remove(k);
        let r = fantasma.logic(consumir, planificar, centrado);
        fantasmas.insert(k, fantasma);
        std::mem::swap(&mut fantasmas, &mut self.fantasmas);
        proof {
            assert(self.fantasmas@ =~= old(self).fantasmas@.update(k as int, fantasma));
        }
        r
    }

    /// Ghost `k` checks for a planned route (see `Fantasma::try_get_plan`);
    /// nothing else of the game changes.
    pub fn fantasma_try_get_plan(&mut self, k: usize)
        requires
            k < old(self).spec_fantasmas().len(),
        ensures
            final(self).spec_fantasmas() == old(self).spec_fantasmas().update(
                k as int,
                final(self).spec_fantasmas()[k as int],
            ),
            recepcion(old(self).spec_fantasmas()[k as int], final(self).spec_fantasmas()[k as int]),
            final(self).spec_maze() == old(self).spec_maze(),
            final(self).spec_paredes() == old(self).spec_paredes(),
            final(self).spec_jugador() == old(self).spec_jugador(),
            final(self).spec_monedas() == old(self).spec_monedas(),
    {
        proof {
            use_type_invariant(&*self);
        }
        let mut fantasmas: Vec<Fantasma> = Vec::new();
        std::mem::swap(&mut fantasmas, &mut self.fantasmas);
        let mut fantasma = fantasmas.remove(k);
        fantasma.try_get_plan();
        fantasmas.insert(k, fantasma);
        std::mem::swap(&mut fantasmas, &mut self.fantasmas);
        proof {
            assert(self.fantasmas@ =~= old(self).fantasmas@.update(k as int, fantasma));
        }
    }

    /// Ghost `k` starts planning a route on the game's maze (see
    /// `Fantasma::planning`); nothing else of the game changes.
    pub fn fantasma_planning(
        &mut self,
        k: usize,
        pacman_pos: (i32, i32),
        pacman_dir: Option<Direcciones>,
        propia: (i32, i32),
    ) -> (r: Result<Plan, String>)
        requires
            k < old(self).spec_fantasmas().len(),
            a_usize(propia.1 as int) < old(self).spec_maze().len(),
            a_usize(propia.0 as int) < old(self).spec_maze()[a_usize(propia.1 as int) as int]@.len(),
        ensures
            final(self).spec_fantasmas() == old(self).spec_fantasmas().update(
                k as int,
                final(self).spec_fantasmas()[k as int],
            ),
            planificado(
                old(self).spec_fantasmas()[k as int],
                final(self).spec_fantasmas()[k as int],
                old(self).spec_maze(),
                pacman_pos,
                pacman_dir,
                propia,
                r,
            ),
            final(self).spec_maze() == old(self).spec_maze(),
            final(self).spec_paredes() == old(self).spec_paredes(),
            final(self).spec_jugador() == old(self).spec_jugador(),
            final(self).spec_monedas() == old(self).spec_monedas(),
    {
        proof {
            use_type_invariant(&*self);
        }
        let mut fantasmas: Vec<Fantasma> = Vec::new();
        std::mem::swap(&mut fantasmas, &mut self.fantasmas);
        let mut fantasma = fantasmas.remove(k);
        let r = fantasma.planning(&self.maze, pacman_pos, pacman_dir, propia);
        fantasmas.insert(k, fantasma);
        std::mem::swap(&mut fantasmas, &mut self.fantasmas);
        proof {
            assert(self.fantasmas@ =~= old(self).fantasmas@.update(k as int, fantasma));
        }
        r
    }

    /// One step of the player's logic (see `Player::logic`).
    pub fn jugador_logic(
        &mut self,
        eventos: &Vec<EventoTecla>,
        alineado_horizontal: bool,
        alineado_vertical: bool,
    ) -> (r: Option<Direcciones>)
        ensures
            final(self).spec_maze() == old(self).spec_maze(),
            final(self).spec_paredes() == old(self).spec_paredes(),
            final(self).spec_fantasmas() == old(self).spec_fantasmas(),
            final(self).spec_monedas() == old(self).spec_monedas(),
            final(self).spec_jugador().spec_puntaje() == old(self).spec_jugador().spec_puntaje(),
            final(self).spec_jugador().spec_movimiento() == match r {
                Some(d) => Some(d),
                None => old(self).spec_jugador().spec_movimiento(),
            },
            ({
                let pedida = crate::objects::personaje::ultima_direccion(
                    eventos@,
                    old(self).spec_jugador().spec_next_direction(),
                );
                match pedida {
                    Some(d) => if crate::objects::personaje::puede_girar(
                        d,
                        alineado_horizontal,
                        alineado_vertical,
                    ) {
                        r == Some(d) && final(self).spec_jugador().spec_next_direction() is None
                    } else {
                        r is None && final(self).spec_jugador().spec_next_direction() == pedida
                    },
                    None => r is None && final(self).spec_jugador().spec_next_direction() is None,
                }
            }),
    {
        proof {
            use_type_invariant(&*self);
        }
        let mut marcador = Marcador { jugador: Player::new(), monedas: Vec::new() };
        std::mem::swap(&mut marcador, &mut self.marcador);
        let r = marcador.jugador.logic(eventos, alineado_horizontal, alineado_vertical);
        std::mem::swap(&mut marcador, &mut self.marcador);
        r
    }

    /// The player runs into a wall and stops (see `Player::detener`).
    pub fn jugador_detener(&mut self)
        ensures
            final(self).spec_jugador().spec_movimiento() is None,
            final(self).spec_jugador().spec_next_direction() == old(self).spec_jugador().spec_next_direction(),
            final(self).spec_jugador().spec_puntaje() == old(self).spec_jugador().spec_puntaje(),
            final(self).spec_maze() == old(self).spec_maze(),
            final(self).spec_paredes() == old(self).spec_paredes(),
            final(self).spec_fantasmas() == old(self).spec_fantasmas(),
            final(self).spec_monedas() == old(self).spec_monedas(),
    {
        proof {
            use_type_invariant(&*self);
        }
        let mut marcador = Marcador { jugador: Player::new(), monedas: Vec::new() };
        std::mem::swap(&mut marcador, &mut self.marcador);
        marcador.jugador.detener();
        std::mem::swap(&mut marcador, &mut self.marcador);
    }

    /// The player runs into coin `k` (see `Player::colision_moneda`): the
    /// coin is taken and the score still counts the coins taken.
    pub fn colision_moneda(&mut self, k: usize)
        requires
            k < old(self).spec_monedas().len(),
            !old(self).spec_monedas()[k as int].spec_tomada() ==> old(self).spec_jugador().spec_puntaje() < u32::MAX,
        ensures
            final(self).spec_monedas().len() == old(self).spec_monedas().len(),
            final(self).spec_monedas()[k as int].spec_tomada(),
            final(self).spec_monedas()[k as int].spec_grid_pos() == old(self).spec_monedas()[k as int].spec_grid_pos(),
            forall|m: int|
                0 <= m < old(self).spec_monedas().len() && m != k ==> #[trigger] final(self).spec_monedas()[m] == old(self).spec_monedas()[m],
            final(self).spec_jugador().spec_puntaje() == old(self).spec_jugador().spec_puntaje()
                + if old(self).spec_monedas()[k as int].spec_tomada() {
                0int
            } else {
                1int
            },
            final(self).spec_jugador().spec_next_direction() == old(self).spec_jugador().spec_next_direction(),
            final(self).spec_jugador().spec_movimiento() == old(self).spec_jugador().spec_movimiento(),
            final(self).spec_maze() == old(self).spec_maze(),
            final(self).spec_paredes() == old(self).spec_paredes(),
            final(self).spec_fantasmas() == old(self).spec_fantasmas(),
    {
        proof {
            use_type_invariant(&*self);
        }
        let mut marcador = Marcador { jugador: Player::new(), monedas: Vec::new() };
        std::mem::swap(&mut marcador, &mut self.marcador);
        let ghost previas = marcador.monedas@;
        let mut moneda = marcador.monedas[k];
        marcador.jugador.colision_moneda(&mut moneda);
        marcador.monedas.set(k, moneda);
        proof {
            lemma_tomadas_update(previas, k as int, moneda, previas.len() as int);
        }
        std::mem::swap(&mut marcador, &mut self.marcador);
    }
}

proof fn lemma_tomadas_update(monedas: Seq<Moneda>, k: int, nueva: Moneda, n: int)
    requires
        0 <= k < n <= monedas.len(),
    ensures
        tomadas(monedas.update(k, nueva), n) + (if monedas[k].spec_tomada() {
            1int
        } else {
            0int
        }) == tomadas(monedas, n) + (if nueva.spec_tomada() {
            1int
        } else {
            0int
        }),
    decreases n,
{
    if n - 1 > k {
        lemma_tomadas_update(monedas, k, nueva, n - 1);
    } else {
        lemma_tomadas_igual(monedas.update(k, nueva), monedas, k);
    }
}

proof fn lemma_tomadas_igual(a: Seq<Moneda>, b: Seq<Moneda>, n: int)
    requires
        0 <= n <= a.len(),
        n <= b.len(),
        forall|m: int| 0 <= m < n ==> a[m] == b[m],
    ensures
        tomadas(a, n) == tomadas(b, n),
    decreases n,
{
    if n > 0 {
        lemma_tomadas_igual(a, b, n - 1);
    }
}

proof fn lemma_ninguna_tomada(monedas: Seq<Moneda>, n: int)
    requires
        0 <= n <= monedas.len(),
        forall|k: int| 0 <= k < monedas.len() ==> !(#[trigger] monedas[k]).spec_tomada(),
    ensures
        tomadas(monedas, n) == 0,
    decreases n,
{
    if n > 0 {
        lemma_ninguna_tomada(monedas, n - 1);
    }
}

} // verus!
