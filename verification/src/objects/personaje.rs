use vstd::prelude::*;

use crate::laberinto::casillas::Direcciones;
use crate::objects::monedas::Moneda;

verus! {

/// The keys the player steers with; any other key is `Otra`.
#[derive(PartialEq, Eq, Structural, Clone, Copy, Debug)]
pub enum Tecla {
    A,
    S,
    D,
    W,
    ArrowLeft,
    ArrowDown,
    ArrowRight,
    ArrowUp,
    Otra,
}

/// A key event: the key, whether it was pressed (not released), whether it is
/// a repeat of a held key, and whether any modifier key was held.
#[derive(PartialEq, Eq, Structural, Clone, Copy, Debug)]
pub struct EventoTecla {
    pub tecla: Tecla,
    pub pressed: bool,
    pub repeat: bool,
    pub modificadores: bool,
}

/// The direction a key steers towards: A and the left arrow west, S and the
/// down arrow south, D and the right arrow east, W and the up arrow north.
pub open spec fn spec_direccion_de_tecla(t: Tecla) -> Option<Direcciones> {
    match t {
        Tecla::A | Tecla::ArrowLeft => Some(Direcciones::Oeste),
        Tecla::S | Tecla::ArrowDown => Some(Direcciones::Sur),
        Tecla::D | Tecla::ArrowRight => Some(Direcciones::Este),
        Tecla::W | Tecla::ArrowUp => Some(Direcciones::Norte),
        Tecla::Otra => None,
    }
}

/// The direction an event asks for: only a fresh press of a steering key
/// with no modifier held asks for one.
pub open spec fn direccion_de_evento(e: EventoTecla) -> Option<Direcciones> {
    if e.pressed && !e.repeat && !e.modificadores {
        spec_direccion_de_tecla(e.tecla)
    } else {
        None
    }
}

/// The direction buffered after the events `eventos`, starting from `previa`:
/// the last one asked for, or `previa` if none was.
pub open spec fn ultima_direccion(eventos: Seq<EventoTecla>, previa: Option<Direcciones>) -> Option<
    Direcciones,
>
    decreases eventos.len(),
{
    if eventos.len() == 0 {
        previa
    } else {
        match direccion_de_evento(eventos.last()) {
            Some(d) => Some(d),
            None => ultima_direccion(eventos.drop_last(), previa),
        }
    }
}

/// Whether the player may turn towards `d`: along a row when it is aligned
/// with the row (`alineado_horizontal`), along a column when aligned with the
/// column (`alineado_vertical`).
pub open spec fn puede_girar(d: Direcciones, alineado_horizontal: bool, alineado_vertical: bool) -> bool {
    if d.spec_es_horizontal() {
        alineado_horizontal
    } else {
        alineado_vertical
    }
}

/// The direction a key steers towards, if any (see `spec_direccion_de_tecla`).
pub fn direccion_de_tecla(t: Tecla) -> (r: Option<Direcciones>)
    ensures
        r == spec_direccion_de_tecla(t),
{
    match t {
        Tecla::A | Tecla::ArrowLeft => Some(Direcciones::Oeste),
        Tecla::S | Tecla::ArrowDown => Some(Direcciones::Sur),
        Tecla::D | Tecla::ArrowRight => Some(Direcciones::Este),
        Tecla::W | Tecla::ArrowUp => Some(Direcciones::Norte),
        Tecla::Otra => None,
    }
}

/// The player: the direction it has been asked to turn to next, if any, and its score.
#[derive(Debug)]
pub struct Player {
    next_direction: Option<Direcciones>,
    puntaje: u32,
    movimiento: Option<Direcciones>,
}

impl Player {
    /// The direction the player has been asked to turn to next.
    pub closed spec fn spec_next_direction(&self) -> Option<Direcciones> {
        self.next_direction
    }

    /// The score: the coins the player has taken.
    pub closed spec fn spec_puntaje(&self) -> u32 {
        self.puntaje
    }

    /// The direction the player moves in, `None` when it stands still.
    pub closed spec fn spec_movimiento(&self) -> Option<Direcciones> {
        self.movimiento
    }

    /// The direction the player moves in, `None` when it stands still.
    pub fn movimiento(&self) -> (r: Option<Direcciones>)
        ensures
            r == self.spec_movimiento(),
    {
        self.movimiento
    }

    /// The player stops (it ran into a wall).
    pub fn detener(&mut self)
        ensures
            final(self).spec_movimiento() is None,
            final(self).spec_next_direction() == old(self).spec_next_direction(),
            final(self).spec_puntaje() == old(self).spec_puntaje(),
    {
        self.movimiento = None;
    }

    /// A player with no direction asked for and no score.
    pub fn new() -> (p: Player)
        ensures
            p.spec_next_direction() is None,
            p.spec_puntaje() == 0,
            p.spec_movimiento() is None,
    {
        Player { next_direction: None, puntaje: 0, movimiento: None }
    }

    /// The score.
    pub fn puntaje(&self) -> (r: u32)
        ensures
            r == self.spec_puntaje(),
    {
        self.puntaje
    }

    /// Asks the player to turn to `direction` next, replacing any earlier request.
    pub fn add_next_direction(&mut self, direction: Direcciones)
        ensures
            final(self).spec_next_direction() == Some(direction),
            final(self).spec_puntaje() == old(self).spec_puntaje(),
            final(self).spec_movimiento() == old(self).spec_movimiento(),
    {
        self.next_direction = Some(direction);
    }

    /// The direction the player has been asked to turn to next, if any.
    pub fn next_direction(&self) -> (r: Option<&Direcciones>)
        ensures
            r == match self.spec_next_direction() {
                Some(d) => Some(&d),
                None => None::<&Direcciones>,
            },
    {
        match &self.next_direction {
            Some(dir) => Some(dir),
            None => None,
        }
    }

    /// Takes the direction asked for, leaving none.
    pub fn consume_direction(&mut self) -> (r: Option<Direcciones>)
        ensures
            r == old(self).spec_next_direction(),
            final(self).spec_next_direction() is None,
            final(self).spec_puntaje() == old(self).spec_puntaje(),
            final(self).spec_movimiento() == old(self).spec_movimiento(),
    {
        let direccion = self.next_direction;
        self.next_direction = None;
        direccion
    }

    /// The player runs into a coin: a coin not taken yet adds one to the
    /// score; either way the coin is taken.
    pub fn colision_moneda(&mut self, moneda: &mut Moneda)
        requires
            !old(moneda).spec_tomada() ==> old(self).spec_puntaje() < u32::MAX,
        ensures
            final(self).spec_puntaje() == old(self).spec_puntaje() + if old(moneda).spec_tomada() {
                0int
            } else {
                1int
            },
            final(self).spec_next_direction() == old(self).spec_next_direction(),
            final(self).spec_movimiento() == old(self).spec_movimiento(),
            final(moneda).spec_tomada(),
            final(moneda).spec_grid_pos() == old(moneda).spec_grid_pos(),
            (final(self).spec_puntaje() as int, final(moneda).spec_tomada()) == toque(
                old(self).spec_puntaje() as int,
                old(moneda).spec_tomada(),
            ),
    {
        if !moneda.tomada() {
            self.puntaje = self.puntaje + 1;
        }
        moneda.tomar_moneda();
    }

    /// One step of the player's logic: the key events `eventos` are read in
    /// order, each fresh press of a steering key asking for its direction;
    /// then, if a direction is asked for and the player is aligned for a turn
    /// towards it (see `puede_girar`), the player turns: the direction is
    /// returned and the request is used up. Otherwise nothing is returned and
    /// the request stays for a later step.
    pub fn logic(
        &mut self,
        eventos: &Vec<EventoTecla>,
        alineado_horizontal: bool,
        alineado_vertical: bool,
    ) -> (r: Option<Direcciones>)
        ensures
            final(self).spec_puntaje() == old(self).spec_puntaje(),
            final(self).spec_movimiento() == match r {
                Some(d) => Some(d),
                None => old(self).spec_movimiento(),
            },
            ({
                let pedida = ultima_direccion(eventos@, old(self).spec_next_direction());
                match pedida {
                    Some(d) => if puede_girar(d, alineado_horizontal, alineado_vertical) {
                        r == Some(d) && final(self).spec_next_direction() is None
                    } else {
                        r is None && final(self).spec_next_direction() == pedida
                    },
                    None => r is None && final(self).spec_next_direction() is None,
                }
            }),
            (forall|k: int|
                0 <= k < eventos@.len() ==> !(#[trigger] eventos@[k]).pressed || eventos@[k].repeat
                    || eventos@[k].modificadores) && old(self).spec_next_direction() is None ==> r is None
                && final(self).spec_next_direction() is None,
    {
        proof {
            if forall|k: int|
                0 <= k < eventos@.len() ==> !(#[trigger] eventos@[k]).pressed || eventos@[k].repeat
                    || eventos@[k].modificadores {
                lemma_sin_pulsaciones(eventos@, old(self).spec_next_direction());
            }
        }
        let mut k: usize = 0;
        while k < eventos.len()
            invariant
                k <= eventos@.len(),
                self.spec_puntaje() == old(self).spec_puntaje(),
                self.spec_movimiento() == old(self).spec_movimiento(),
                self.spec_next_direction() == ultima_direccion(
                    eventos@.take(k as int),
                    old(self).spec_next_direction(),
                ),
            decreases eventos@.len() - k,
        {
            let evento = eventos[k];
            proof {
                assert(eventos@.take(k + 1).drop_last() =~= eventos@.take(k as int));
                assert(eventos@.take(k + 1).last() == evento);
            }
            if evento.pressed && !evento.repeat && !evento.modificadores {
                if let Some(d) = direccion_de_tecla(evento.tecla) {
                    self.add_next_direction(d);
                }
            }
            k = k + 1;
        }
        proof {
            assert(eventos@.take(eventos@.len() as int) =~= eventos@);
        }
        if let Some(direccion) = self.next_direction() {
            let direccion = *direccion;
            let alineado = if direccion.es_horizontal() {
                alineado_horizontal
            } else {
                alineado_vertical
            };
            if alineado {
                self.consume_direction();
                self.movimiento = Some(direccion);
                return Some(direccion);
            }
        }
        None
    }
}

/// The score and whether the coin is taken after the player runs into a
/// coin once: a coin not taken yet adds one to the score; either way the coin
/// is taken (see `Player::colision_moneda`).
pub open spec fn toque(puntaje: int, tomada: bool) -> (int, bool) {
    if tomada {
        (puntaje, true)
    } else {
        (puntaje + 1, true)
    }
}

/// The score and whether the coin is taken after the player runs into the
/// same coin `n` times.
pub open spec fn toques(puntaje: int, tomada: bool, n: nat) -> (int, bool)
    decreases n,
{
    if n == 0 {
        (puntaje, tomada)
    } else {
        let (p, t) = toque(puntaje, tomada);
        toques(p, t, (n - 1) as nat)
    }
}

/// A coin scores once, however often the player runs into it: after one or
/// more collisions with the same coin the score has grown by one if the coin
/// was not taken before, and not at all if it was, and the coin is taken.
pub proof fn lemma_moneda_una_vez(puntaje: int, tomada: bool, n: nat)
    requires
        n >= 1,
    ensures
        toques(puntaje, tomada, n) == (puntaje + if tomada {
            0int
        } else {
            1int
        }, true),
    decreases n,
{
    let (p, t) = toque(puntaje, tomada);
    assert(toques(puntaje, tomada, n) == toques(p, t, (n - 1) as nat));
    if n > 1 {
        lemma_moneda_una_vez(p, t, (n - 1) as nat);
    } else {
        assert(toques(p, t, 0) == (p, t));
    }
}

/// Events none of which is a fresh press (releases, repeats, presses with a
/// modifier held) ask for no direction: the buffered request stays as it was.
pub proof fn lemma_sin_pulsaciones(eventos: Seq<EventoTecla>, previa: Option<Direcciones>)
    requires
        forall|k: int| 0 <= k < eventos.len() ==> !(#[trigger] eventos[k]).pressed || eventos[k].repeat
            || eventos[k].modificadores,
    ensures
        ultima_direccion(eventos, previa) == previa,
    decreases eventos.len(),
{
    if eventos.len() > 0 {
        let resto = eventos.drop_last();
        assert(!eventos[eventos.len() - 1].pressed || eventos[eventos.len() - 1].repeat
            || eventos[eventos.len() - 1].modificadores);
        assert forall|k: int| 0 <= k < resto.len() implies !(#[trigger] resto[k]).pressed
            || resto[k].repeat || resto[k].modificadores by {
            assert(resto[k] == eventos[k]);
        }
        lemma_sin_pulsaciones(resto, previa);
    }
}

/// An event that is not a fresh press, put before other events, changes
/// nothing: the events ask for what the others alone ask for.
pub proof fn lemma_evento_ignorado(
    e: EventoTecla,
    resto: Seq<EventoTecla>,
    previa: Option<Direcciones>,
)
    requires
        !e.pressed || e.repeat || e.modificadores,
    ensures
        ultima_direccion(seq![e] + resto, previa) == ultima_direccion(resto, previa),
    decreases resto.len(),
{
    let todos = seq![e] + resto;
    if resto.len() == 0 {
        assert(todos.drop_last() =~= Seq::<EventoTecla>::empty());
        assert(todos.last() == e);
    } else {
        assert(todos.drop_last() =~= seq![e] + resto.drop_last());
        assert(todos.last() == resto.last());
        lemma_evento_ignorado(e, resto.drop_last(), previa);
    }
}

/// The last fresh press of a steering key decides the request: after it the
/// player is asked to go west for A or the left arrow, south for S or the down
/// arrow, east for D or the right arrow, north for W or the up arrow,
/// whatever came before.
pub proof fn lemma_ultima_pulsacion(
    antes: Seq<EventoTecla>,
    e: EventoTecla,
    previa: Option<Direcciones>,
)
    requires
        e.pressed,
        !e.repeat,
        !e.modificadores,
        e.tecla != Tecla::Otra,
    ensures
        ultima_direccion(antes.push(e), previa) == Some(
            match e.tecla {
                Tecla::A | Tecla::ArrowLeft => Direcciones::Oeste,
                Tecla::S | Tecla::ArrowDown => Direcciones::Sur,
                Tecla::D | Tecla::ArrowRight => Direcciones::Este,
                _ => Direcciones::Norte,
            },
        ),
{
    assert(antes.push(e).last() == e);
}

} // verus!
