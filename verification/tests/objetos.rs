use std::collections::VecDeque;

use pacman::laberinto::casillas::Direcciones::{Este, Norte, Oeste, Sur};
use pacman::laberinto::casillas::{Casilla, Nodo};
use pacman::laberinto::init::maze_init;
use pacman::objects::fantasmas::planning::calcular_ruta;
use pacman::objects::fantasmas::utils::{Chanel, State, TipoFantasma};
use pacman::objects::fantasmas::{AccionFantasma, Fantasma};
use pacman::objects::monedas::Moneda;
use pacman::objects::personaje::{direccion_de_tecla, EventoTecla, Player, Tecla};
use pacman::objects::TipoColider;

fn tecla(t: Tecla) -> EventoTecla {
    EventoTecla { tecla: t, pressed: true, repeat: false, modificadores: false }
}

#[test]
fn a_new_ghost_stands_by_with_no_route() {
    let f = Fantasma::new(TipoFantasma::Rosa);
    assert_eq!(f.tipo(), TipoFantasma::Rosa);
    assert_eq!(f.estado(), State::Standby);
    assert!(!f.is_planning());
    assert_eq!(f.next_direction(), None);
    assert_eq!(f.movimiento(), None);
    assert!(f.debe_planificar());
}

#[test]
fn ghost_route_is_first_in_first_out() {
    let mut f = Fantasma::new(TipoFantasma::Rojo);
    f.add_next_direction(Norte);
    f.add_next_direction(Este);
    assert_eq!(f.next_direction(), Some(&Norte));
    assert_eq!(f.consume_direction(), Some(Norte));
    assert_eq!(f.consume_direction(), Some(Este));
    assert_eq!(f.consume_direction(), None);
}

#[test]
fn ghost_logic_follows_its_route_when_centred() {
    let mut f = Fantasma::new(TipoFantasma::Azul);
    f.recibir_plan(Some(VecDeque::from(vec![Oeste, Sur])));
    assert_eq!(f.estado(), State::Execute);
    // The crossing time is not over: nothing happens.
    assert_eq!(f.logic(false, false, true), AccionFantasma::Ninguna);
    assert_eq!(f.next_direction(), Some(&Oeste));
    // Not centred: keep going.
    assert_eq!(f.logic(true, false, false), AccionFantasma::Ninguna);
    assert_eq!(f.logic(true, false, true), AccionFantasma::Mover(Oeste));
    assert_eq!(f.movimiento(), Some(Oeste));
    assert_eq!(f.logic(true, false, true), AccionFantasma::Mover(Sur));
    // Route done: the ghost stands by, and stops once centred.
    assert_eq!(f.logic(true, false, true), AccionFantasma::Ninguna);
    assert_eq!(f.estado(), State::Standby);
    assert_eq!(f.logic(true, false, false), AccionFantasma::Ninguna);
    assert_eq!(f.movimiento(), Some(Sur));
    assert_eq!(f.logic(true, false, true), AccionFantasma::Detener);
    assert_eq!(f.movimiento(), None);
}

#[test]
fn ghost_stands_by_once_the_plan_time_is_over() {
    let mut f = Fantasma::new(TipoFantasma::Naranja);
    f.recibir_plan(Some(VecDeque::from(vec![Este])));
    assert_eq!(f.logic(true, true, true), AccionFantasma::Detener);
    assert_eq!(f.estado(), State::Standby);
    assert_eq!(f.next_direction(), Some(&Este));
}

#[test]
fn ghost_waiting_for_a_plan_does_nothing() {
    let mut lab = vec![vec![Casilla::Nodo(Nodo::new()), Casilla::Pared]];
    maze_init(&mut lab);
    let mut f = Fantasma::new(TipoFantasma::Rojo);
    let plan = f.planning(&lab, (0, 0), None, (0, 0)).unwrap();
    assert!(f.is_planning());
    assert_eq!(plan.inicio, (0, 0));
    assert_eq!(plan.objetivo, (0, 0));
    assert_eq!(plan.tipo, TipoFantasma::Rojo);
    assert!(!f.debe_planificar());
    assert_eq!(f.logic(true, false, true), AccionFantasma::Ninguna);
    assert!(f.is_planning());
}

#[test]
fn ghost_planning_from_a_wall_fails_but_still_waits() {
    let lab = vec![vec![Casilla::Nodo(Nodo::new()), Casilla::Pared]];
    let mut f = Fantasma::new(TipoFantasma::Azul);
    let r = f.planning(&lab, (0, 0), None, (1, 0));
    assert_eq!(r.unwrap_err(), "por cula del fantasma");
    assert!(f.is_planning());
}

#[test]
fn the_plan_gives_what_the_route_search_needs() {
    let mut lab = vec![vec![Casilla::Nodo(Nodo::new()), Casilla::Nodo(Nodo::new()), Casilla::Nodo(Nodo::new())]];
    maze_init(&mut lab);
    let mut f = Fantasma::new(TipoFantasma::Rojo);
    // Pac-Man at x: column 2, y: row 0; the ghost at column 0.
    let plan = f.planning(&lab, (2, 0), None, (0, 0)).unwrap();
    assert_eq!(plan.inicio, (0, 0));
    assert_eq!(plan.objetivo, (0, 2));
    // Both ways round the row reach the target; the red ghost prefers to start east,
    // even though west is shorter.
    let ruta = calcular_ruta(&lab, plan.inicio, plan.objetivo, plan.tipo);
    assert_eq!(ruta, Some(VecDeque::from(vec![Este, Este])));
    assert_eq!(
        calcular_ruta(&lab, plan.inicio, plan.objetivo, TipoFantasma::Azul),
        Some(VecDeque::from(vec![Oeste]))
    );
    f.recibir_plan(ruta);
    assert_eq!(f.estado(), State::Execute);
    assert_eq!(f.next_direction(), Some(&Este));
}

#[test]
fn try_get_plan_with_nothing_sent_leaves_the_ghost_alone() {
    let mut f = Fantasma::new(TipoFantasma::Rojo);
    f.add_next_direction(Sur);
    f.try_get_plan();
    assert_eq!(f.estado(), State::Standby);
    assert_eq!(f.next_direction(), Some(&Sur));
}

#[test]
fn an_empty_plan_keeps_the_route() {
    let mut f = Fantasma::new(TipoFantasma::Rojo);
    f.add_next_direction(Sur);
    f.recibir_plan(None);
    assert_eq!(f.estado(), State::Execute);
    assert_eq!(f.next_direction(), Some(&Sur));
}

#[test]
fn channel_ends_are_connected() {
    let c: Chanel<u32> = Chanel::new();
    let s = c.sender();
    // A rendezvous channel with a live receiver but no one waiting is full.
    assert!(matches!(s.try_send(7), Err(std::sync::mpsc::TrySendError::Full(7))));
    assert!(c.receiber().try_recv().is_err());
    let f = Fantasma::new(TipoFantasma::Rosa);
    assert!(matches!(f.sender().try_send(None), Err(std::sync::mpsc::TrySendError::Full(None))));
}

#[test]
fn coins_are_taken_once() {
    let mut m = Moneda::new(3, 4);
    assert_eq!(m.grid_pos(), (3, 4));
    assert!(!m.tomada());
    m.tomar_moneda();
    assert!(m.tomada());
    m.tomar_moneda();
    assert!(m.tomada());
    assert_eq!(m.grid_pos(), (3, 4));
}

#[test]
fn player_scores_each_coin_once() {
    let mut j = Player::new();
    let mut m = Moneda::new(0, 0);
    let mut n = Moneda::new(0, 1);
    assert_eq!(j.puntaje(), 0);
    j.colision_moneda(&mut m);
    assert_eq!(j.puntaje(), 1);
    j.colision_moneda(&mut m);
    assert_eq!(j.puntaje(), 1);
    j.colision_moneda(&mut n);
    assert_eq!(j.puntaje(), 2);
    assert!(m.tomada() && n.tomada());
}

#[test]
fn player_direction_buffer() {
    let mut j = Player::new();
    assert_eq!(j.next_direction(), None);
    j.add_next_direction(Norte);
    j.add_next_direction(Oeste);
    assert_eq!(j.next_direction(), Some(&Oeste));
    assert_eq!(j.consume_direction(), Some(Oeste));
    assert_eq!(j.consume_direction(), None);
}

#[test]
fn keys_steer_the_player() {
    assert_eq!(direccion_de_tecla(Tecla::A), Some(Oeste));
    assert_eq!(direccion_de_tecla(Tecla::ArrowLeft), Some(Oeste));
    assert_eq!(direccion_de_tecla(Tecla::S), Some(Sur));
    assert_eq!(direccion_de_tecla(Tecla::ArrowDown), Some(Sur));
    assert_eq!(direccion_de_tecla(Tecla::D), Some(Este));
    assert_eq!(direccion_de_tecla(Tecla::ArrowRight), Some(Este));
    assert_eq!(direccion_de_tecla(Tecla::W), Some(Norte));
    assert_eq!(direccion_de_tecla(Tecla::ArrowUp), Some(Norte));
    assert_eq!(direccion_de_tecla(Tecla::Otra), None);
}

#[test]
fn player_logic_takes_the_last_fresh_key_and_turns_when_aligned() {
    let mut j = Player::new();
    let eventos = vec![
        tecla(Tecla::W),
        EventoTecla { tecla: Tecla::S, pressed: false, repeat: false, modificadores: false },
        EventoTecla { tecla: Tecla::A, pressed: true, repeat: true, modificadores: false },
        EventoTecla { tecla: Tecla::D, pressed: true, repeat: false, modificadores: true },
        tecla(Tecla::ArrowRight),
        tecla(Tecla::Otra),
    ];
    // East needs alignment with the row.
    assert_eq!(j.logic(&eventos, false, true), None);
    assert_eq!(j.next_direction(), Some(&Este));
    assert_eq!(j.movimiento(), None);
    assert_eq!(j.logic(&vec![], true, false), Some(Este));
    assert_eq!(j.next_direction(), None);
    assert_eq!(j.movimiento(), Some(Este));
    // North needs alignment with the column.
    assert_eq!(j.logic(&vec![tecla(Tecla::ArrowUp)], true, false), None);
    assert_eq!(j.logic(&vec![], false, true), Some(Norte));
    assert_eq!(j.logic(&vec![], true, true), None);
    j.detener();
    assert_eq!(j.movimiento(), None);
    assert_eq!(j.puntaje(), 0);
}

#[test]
fn collider_kinds_compare() {
    assert_eq!(TipoColider::Moneda, TipoColider::Moneda);
    assert_ne!(TipoColider::Obstaculo, TipoColider::Enemigo);
    assert_ne!(TipoColider::Jugador, TipoColider::Moneda);
}

#[test]
fn a_coin_touched_many_times_scores_once() {
    let mut j = Player::new();
    let mut m = Moneda::new(2, 5);
    for _ in 0..5 {
        j.colision_moneda(&mut m);
        assert_eq!(j.puntaje(), 1);
        assert!(m.tomada());
    }
    assert_eq!(m.grid_pos(), (2, 5));
}
