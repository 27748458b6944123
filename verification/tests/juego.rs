use pacman::game_logic::Game;
use pacman::laberinto::casillas::Direcciones::Este;
use pacman::laberinto::casillas::{Casilla, Nodo};
use pacman::laberinto::init::maze_init;
use pacman::objects::fantasmas::utils::{State, TipoFantasma};
use pacman::objects::fantasmas::AccionFantasma;
use pacman::objects::personaje::{EventoTecla, Tecla};

fn nodo() -> Casilla {
    Casilla::Nodo(Nodo::new())
}

fn juego() -> Game {
    // # N #
    // N S N
    let mut lab = vec![
        vec![Casilla::Pared, nodo(), Casilla::Pared],
        vec![nodo(), Casilla::Spawn, nodo()],
    ];
    maze_init(&mut lab);
    Game::new(lab)
}

#[test]
fn a_new_game_places_walls_coins_and_ghosts() {
    let g = juego();
    assert_eq!(g.paredes(), &vec![(0, 0), (0, 2)]);
    let monedas: Vec<(usize, usize)> = g.monedas().iter().map(|m| m.grid_pos()).collect();
    assert_eq!(monedas, vec![(0, 1), (1, 0), (1, 2)]);
    assert!(g.monedas().iter().all(|m| !m.tomada()));
    let tipos: Vec<TipoFantasma> = g.fantasmas().iter().map(|f| f.tipo()).collect();
    assert_eq!(
        tipos,
        vec![TipoFantasma::Azul, TipoFantasma::Naranja, TipoFantasma::Rojo, TipoFantasma::Rosa]
    );
    assert!(g.fantasmas().iter().all(|f| f.estado() == State::Standby));
    assert_eq!(g.puntaje(), 0);
    assert_eq!(g.maze().len(), 2);
    assert_eq!(g.jugador().next_direction(), None);
}

#[test]
fn the_score_counts_the_coins_taken() {
    let mut g = juego();
    g.colision_moneda(1);
    assert_eq!(g.puntaje(), 1);
    g.colision_moneda(1);
    assert_eq!(g.puntaje(), 1);
    g.colision_moneda(2);
    assert_eq!(g.puntaje(), 2);
    let tomadas = g.monedas().iter().filter(|m| m.tomada()).count();
    assert_eq!(tomadas, 2);
    assert!(!g.monedas()[0].tomada());
}

#[test]
fn the_player_logic_of_the_game() {
    let mut g = juego();
    let eventos = vec![EventoTecla { tecla: Tecla::D, pressed: true, repeat: false, modificadores: false }];
    assert_eq!(g.jugador_logic(&eventos, true, true), Some(Este));
    assert_eq!(g.jugador().movimiento(), Some(Este));
    g.jugador_detener();
    assert_eq!(g.jugador().movimiento(), None);
}

#[test]
fn ghosts_of_the_game_can_be_changed() {
    let mut g = juego();
    // A ghost standing by at the centre of its cell stops.
    assert_eq!(g.fantasma_logic(2, true, false, true), AccionFantasma::Detener);
    assert_eq!(g.fantasma_logic(2, false, false, true), AccionFantasma::Ninguna);
    // Planning from the node at (0, 1): the red ghost aims at Pac-Man.
    let plan = g.fantasma_planning(2, (2, 1), None, (1, 0)).unwrap();
    assert_eq!(plan.inicio, (0, 1));
    assert_eq!(plan.objetivo, (1, 2));
    assert_eq!(plan.tipo, TipoFantasma::Rojo);
    assert_eq!(g.fantasmas()[2].estado(), State::Planning);
    assert_eq!(g.fantasmas()[0].estado(), State::Standby);
    // Planning from a wall fails.
    assert!(g.fantasma_planning(1, (2, 1), None, (0, 0)).is_err());
    g.fantasma_try_get_plan(2);
    assert_eq!(g.fantasmas().len(), 4);
    assert_eq!(g.puntaje(), 0);
}

#[test]
fn a_game_on_an_empty_maze() {
    let g = Game::new(Vec::new());
    assert!(g.paredes().is_empty());
    assert!(g.monedas().is_empty());
    assert_eq!(g.fantasmas().len(), 4);
}
