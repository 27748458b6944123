//! The ghosts: their kind, their route, what they are doing, and the channel
//! on which a planned route arrives.

pub mod planning;
pub mod utils;

use std::collections::VecDeque;
use std::sync::mpsc::SyncSender;
use vstd::prelude::*;

use crate::laberinto::casillas::{casilla, Casilla, Direcciones};
use crate::objects::fantasmas::planning::{a_usize, objetivo_fantasma, punto_objetivo, saturar_usize};
use crate::objects::fantasmas::utils::{intentar_recibir, Chanel, State, TipoFantasma};

verus! {

/// What a ghost's step of logic asks of its movement.
#[derive(PartialEq, Eq, Structural, Clone, Copy, Debug)]
pub enum AccionFantasma {
    /// Leave the movement as it is.
    Ninguna,
    /// Move in this direction (for the time it takes to cross one cell along its axis).
    Mover(Direcciones),
    /// Stop.
    Detener,
}

/// A route to plan: from the ghost's cell `inicio` to the cell `objetivo`
/// (both as (row, column)), for a ghost of kind `tipo`.
#[derive(Clone, Copy, Debug)]
pub struct Plan {
    pub inicio: (usize, usize),
    pub objetivo: (usize, usize),
    pub tipo: TipoFantasma,
}

/// A ghost: its kind, the route it follows (the next step first), what it is
/// doing, and the channel on which a planned route arrives.
#[derive(Debug)]
pub struct Fantasma {
    tipo: TipoFantasma,
    ruta: VecDeque<Direcciones>,
    chanel: Chanel<Option<VecDeque<Direcciones>>>,
    estado: State,
    movimiento: Option<Direcciones>,
}

impl Fantasma {
    /// The kind of the ghost.
    pub closed spec fn spec_tipo(&self) -> TipoFantasma {
        self.tipo
    }

    /// The route the ghost follows, the next step first.
    pub closed spec fn spec_ruta(&self) -> Seq<Direcciones> {
        self.ruta@
    }

    /// What the ghost is doing.
    pub closed spec fn spec_estado(&self) -> State {
        self.estado
    }

    /// The direction the ghost moves in, `None` when it stands still.
    pub closed spec fn spec_movimiento(&self) -> Option<Direcciones> {
        self.movimiento
    }

    /// The channel on which a planned route arrives.
    pub closed spec fn spec_chanel(&self) -> Chanel<Option<VecDeque<Direcciones>>> {
        self.chanel
    }

    /// A ghost of kind `tipo`, standing by, with no route.
    pub fn new(tipo: TipoFantasma) -> (f: Fantasma)
        ensures
            f.spec_tipo() == tipo,
            f.spec_ruta() == Seq::<Direcciones>::empty(),
            f.spec_estado() == State::Standby,
            f.spec_movimiento() is None,
    {
        Fantasma {
            tipo,
            ruta: VecDeque::new(),
            chanel: Chanel::new(),
            estado: State::Standby,
            movimiento: None,
        }
    }

    /// The kind of the ghost.
    pub fn tipo(&self) -> (t: TipoFantasma)
        ensures
            t == self.spec_tipo(),
    {
        self.tipo
    }

    /// What the ghost is doing.
    pub fn estado(&self) -> (e: State)
        ensures
            e == self.spec_estado(),
    {
        self.estado
    }

    /// The direction the ghost moves in, `None` when it stands still.
    pub fn movimiento(&self) -> (r: Option<Direcciones>)
        ensures
            r == self.spec_movimiento(),
    {
        self.movimiento
    }

    /// Whether the ghost should plan a new route: it stands still and is not
    /// already waiting for one.
    pub fn debe_planificar(&self) -> (r: bool)
        ensures
            r == (self.spec_movimiento() is None && self.spec_estado() != State::Planning),
    {
        self.movimiento.is_none() && !self.is_planning()
    }

    /// Whether the ghost is waiting for a planned route.
    pub fn is_planning(&self) -> (r: bool)
        ensures
            r == (self.spec_estado() == State::Planning),
    {
        self.estado == State::Planning
    }

    /// Appends a step to the end of the route.
    pub fn add_next_direction(&mut self, direction: Direcciones)
        ensures
            final(self).spec_ruta() == old(self).spec_ruta().push(direction),
            final(self).spec_tipo() == old(self).spec_tipo(),
            final(self).spec_estado() == old(self).spec_estado(),
            final(self).spec_chanel() == old(self).spec_chanel(),
            final(self).spec_movimiento() == old(self).spec_movimiento(),
    {
        self.ruta.push_back(direction);
    }

    /// Takes the next step off the front of the route.
    pub fn consume_direction(&mut self) -> (r: Option<Direcciones>)
        ensures
            old(self).spec_ruta().len() == 0 ==> r is None && final(self).spec_ruta() == old(self).spec_ruta(),
            old(self).spec_ruta().len() > 0 ==> r == Some(old(self).spec_ruta()[0])
                && final(self).spec_ruta() == old(self).spec_ruta().drop_first(),
            final(self).spec_tipo() == old(self).spec_tipo(),
            final(self).spec_estado() == old(self).spec_estado(),
            final(self).spec_chanel() == old(self).spec_chanel(),
            final(self).spec_movimiento() == old(self).spec_movimiento(),
    {
        let r = self.ruta.pop_front();
        proof {
            if old(self).spec_ruta().len() > 0 {
                assert(self.ruta@ =~= old(self).spec_ruta().drop_first());
            }
        }
        r
    }

    /// The next step of the route, if any.
    pub fn next_direction(&self) -> (r: Option<&Direcciones>)
        ensures
            r == if self.spec_ruta().len() > 0 {
                Some(&self.spec_ruta()[0])
            } else {
                None::<&Direcciones>
            },
    {
        if self.ruta.len() > 0 {
            Some(&self.ruta[0])
        } else {
            None
        }
    }

    /// Another sending end of the channel on which a planned route arrives.
    pub fn sender(&self) -> SyncSender<Option<VecDeque<Direcciones>>> {
        self.chanel.sender()
    }

    /// Starts planning a route: the ghost aims at the cell that its kind
    /// picks (see `objetivo_fantasma`) from Pac-Man's grid point `pacman_pos`,
    /// the direction `pacman_dir` Pac-Man moves in, and the ghost's own grid
    /// point `propia` (points are (x: column, y: row)); from then on the ghost
    /// waits for the route. Planning can only start from a node: on any other
    /// cell the error names the ghost; otherwise the plan gives the ghost's
    /// cell, the target cell and the ghost's kind.
    pub fn planning(
        &mut self,
        mapa: &Vec<Vec<Casilla>>,
        pacman_pos: (i32, i32),
        pacman_dir: Option<Direcciones>,
        propia: (i32, i32),
    ) -> (r: Result<Plan, String>)
        requires
            a_usize(propia.1 as int) < mapa@.len(),
            a_usize(propia.0 as int) < mapa@[a_usize(propia.1 as int) as int]@.len(),
        ensures
            planificado(*old(self), *final(self), mapa@, pacman_pos, pacman_dir, propia, r),
    {
        let objetivo = objetivo_fantasma(self.tipo, mapa, pacman_pos, pacman_dir, propia);
        self.estado = State::Planning;
        let tipo = self.tipo;
        let self_pos = (saturar_usize(propia.1 as i64), saturar_usize(propia.0 as i64));
        match &mapa[self_pos.0][self_pos.1] {
            Casilla::Nodo(_) => Ok(Plan { inicio: self_pos, objetivo, tipo }),
            _ => Err("por cula del fantasma".to_owned()),
        }
    }

    /// Takes in a planned route as it arrives: a route replaces the one the
    /// ghost follows, and the ghost follows its route from then on.
    pub fn recibir_plan(&mut self, plan: Option<VecDeque<Direcciones>>)
        ensures
            final(self).spec_estado() == State::Execute,
            final(self).spec_ruta() == match plan {
                Some(ruta) => ruta@,
                None => old(self).spec_ruta(),
            },
            final(self).spec_tipo() == old(self).spec_tipo(),
            final(self).spec_chanel() == old(self).spec_chanel(),
            final(self).spec_movimiento() == old(self).spec_movimiento(),
    {
        if let Some(ruta) = plan {
            self.ruta = ruta;
        }
        self.estado = State::Execute;
    }

    /// Takes in the planned route if one has arrived on the channel (see
    /// `recibir_plan`); otherwise the ghost is left as it is.
    pub fn try_get_plan(&mut self)
        ensures
            recepcion(*old(self), *final(self)),
    {
        if let Some(plan) = intentar_recibir(self.chanel.receiber()) {
            self.recibir_plan(plan);
        }
    }

    /// One step of the ghost's logic. `consumir` says whether the time to
    /// cross the last cell has run out, `planificar` whether the time to wait
    /// for a plan has, `centrado` whether the ghost stands at the centre of
    /// its cell. Once the wait for a plan is over the ghost stands by; a ghost
    /// following its route takes the next step when it is centred, and stands
    /// by when the route is done; a ghost standing by stops when centred.
    pub fn logic(&mut self, consumir: bool, planificar: bool, centrado: bool) -> (r: AccionFantasma)
        ensures
            paso_logico(*old(self), *final(self), consumir, planificar, centrado, r),
            consumir && planificar ==> final(self).spec_estado() == State::Standby && r == (if centrado {
                AccionFantasma::Detener
            } else {
                AccionFantasma::Ninguna
            }),
    {
        if !consumir {
            return AccionFantasma::Ninguna;
        }
        if planificar {
            self.estado = State::Standby;
        }
        match self.estado {
            State::Execute => {
                if let Some(direccion) = self.next_direction() {
                    let direccion = *direccion;
                    if centrado {
                        self.consume_direction();
                        self.movimiento = Some(direccion);
                        AccionFantasma::Mover(direccion)
                    } else {
                        AccionFantasma::Ninguna
                    }
                } else {
                    self.estado = State::Standby;
                    AccionFantasma::Ninguna
                }
            },
            State::Standby => {
                if centrado {
                    self.movimiento = None;
                    AccionFantasma::Detener
                } else {
                    AccionFantasma::Ninguna
                }
            },
            State::Planning => AccionFantasma::Ninguna,
        }
    }
}

/// One step of a ghost's logic, from `antes` to `despues` with result `r`
/// (see `Fantasma::logic`).
pub open spec fn paso_logico(
    antes: Fantasma,
    despues: Fantasma,
    consumir: bool,
    planificar: bool,
    centrado: bool,
    r: AccionFantasma,
) -> bool {
    &&& despues.spec_tipo() == antes.spec_tipo()
    &&& despues.spec_chanel() == antes.spec_chanel()
    &&& despues.spec_movimiento() == match r {
            AccionFantasma::Ninguna => antes.spec_movimiento(),
            AccionFantasma::Mover(d) => Some(d),
            AccionFantasma::Detener => None,
        }
    &&& !consumir ==> r == AccionFantasma::Ninguna && despues == antes
    &&& consumir ==> ({
            let e = if planificar {
                State::Standby
            } else {
                antes.spec_estado()
            };
            let ruta = antes.spec_ruta();
            match e {
                State::Execute => if ruta.len() > 0 && centrado {
                    &&& r == AccionFantasma::Mover(ruta[0])
                    &&& despues.spec_ruta() == ruta.drop_first()
                    &&& despues.spec_estado() == State::Execute
                } else {
                    &&& r == AccionFantasma::Ninguna
                    &&& despues.spec_ruta() == ruta
                    &&& despues.spec_estado() == if ruta.len() > 0 {
                        State::Execute
                    } else {
                        State::Standby
                    }
                },
                State::Standby => {
                    &&& r == if centrado {
                        AccionFantasma::Detener
                    } else {
                        AccionFantasma::Ninguna
                    }
                    &&& despues.spec_ruta() == ruta
                    &&& despues.spec_estado() == State::Standby
                },
                State::Planning => {
                    &&& r == AccionFantasma::Ninguna
                    &&& despues.spec_ruta() == ruta
                    &&& despues.spec_estado() == State::Planning
                },
            }
        })
}

/// A ghost starting to plan, from `antes` to `despues` with result `r`
/// (see `Fantasma::planning`).
pub open spec fn planificado(
    antes: Fantasma,
    despues: Fantasma,
    mapa: Seq<Vec<Casilla>>,
    pacman_pos: (i32, i32),
    pacman_dir: Option<Direcciones>,
    propia: (i32, i32),
    r: Result<Plan, String>,
) -> bool {
    &&& despues.spec_estado() == State::Planning
    &&& despues.spec_tipo() == antes.spec_tipo()
    &&& despues.spec_ruta() == antes.spec_ruta()
    &&& despues.spec_chanel() == antes.spec_chanel()
    &&& despues.spec_movimiento() == antes.spec_movimiento()
    &&& ({
            let inicio = (a_usize(propia.1 as int), a_usize(propia.0 as int));
            let p = punto_objetivo(antes.spec_tipo(), mapa, pacman_pos, pacman_dir, propia);
            &&& r is Ok <==> casilla(mapa, inicio) is Nodo
            &&& r matches Err(e) ==> e@ == "por cula del fantasma"@
            &&& r matches Ok(plan) ==> plan == Plan {
                inicio,
                objetivo: (a_usize(p.1), a_usize(p.0)),
                tipo: antes.spec_tipo(),
            }
        })
}

/// A ghost checking for a planned route, from `antes` to `despues`: either
/// nothing arrived and it is unchanged, or a plan arrived and it now follows
/// its route (see `Fantasma::recibir_plan`).
pub open spec fn recepcion(antes: Fantasma, despues: Fantasma) -> bool {
    despues == antes || (despues.spec_estado() == State::Execute
        && despues.spec_tipo() == antes.spec_tipo()
        && despues.spec_chanel() == antes.spec_chanel()
        && despues.spec_movimiento() == antes.spec_movimiento())
}

/// Once the time to wait for a plan is over, a step of the ghost's logic
/// leaves it standing by, whatever state it was in (waiting for a plan
/// included): at the centre of its cell it stops, so that it may plan again;
/// elsewhere it does nothing yet.
pub proof fn lemma_fin_de_espera(antes: Fantasma, despues: Fantasma, centrado: bool, r: AccionFantasma)
    requires
        paso_logico(antes, despues, true, true, centrado, r),
    ensures
        despues.spec_estado() == State::Standby,
        despues.spec_estado() != State::Planning,
        r == if centrado {
            AccionFantasma::Detener
        } else {
            AccionFantasma::Ninguna
        },
        centrado ==> despues.spec_movimiento() is None,
        despues.spec_ruta() == antes.spec_ruta(),
{
}

} // verus!
