use std::collections::VecDeque;

use pacman::laberinto::casillas::Direcciones::{Este, Norte, Oeste, Sur};
use pacman::laberinto::casillas::{Casilla, Direcciones, Nodo};
use pacman::laberinto::init::maze_init;
use pacman::objects::fantasmas::planning::{
    calcular_ruta, camino_corto, distancias_nuevas, nodo_en, objetivo_fantasma, recorrido,
    saturar_usize, EstadoRecorrido,
};
use pacman::objects::fantasmas::utils::TipoFantasma;

fn nodo() -> Casilla {
    Casilla::Nodo(Nodo::new())
}

fn p() -> Casilla {
    Casilla::Pared
}

/// Follows `ruta` from `desde` along the links of the maze, checking each step.
fn seguir(lab: &Vec<Vec<Casilla>>, desde: (usize, usize), ruta: &VecDeque<Direcciones>) -> (usize, usize) {
    let filas = lab.len();
    let cols = lab[0].len();
    let mut pos = desde;
    for d in ruta {
        match &lab[pos.0][pos.1] {
            Casilla::Nodo(n) => assert!(n.conexion_en(*d).is_some()),
            _ => panic!("step from a cell that is not a node"),
        }
        pos = pacman::laberinto::casillas::paso_en(pos.0, pos.1, *d, filas, cols);
    }
    pos
}

fn corredor() -> Vec<Vec<Casilla>> {
    // # # # # #
    // N N N N #
    // # # # # #
    let mut lab = vec![
        vec![p(), p(), p(), p(), p()],
        vec![nodo(), nodo(), nodo(), nodo(), p()],
        vec![p(), p(), p(), p(), p()],
    ];
    maze_init(&mut lab);
    lab
}

#[test]
fn search_from_the_target_succeeds_with_no_route() {
    let lab = corredor();
    let mut d = distancias_nuevas(&lab, (1, 1));
    assert!(matches!(
        recorrido(&lab, &mut d, (1, 1), (1, 1), TipoFantasma::Rojo),
        EstadoRecorrido::Exito(None)
    ));
    assert_eq!(calcular_ruta(&lab, (1, 1), (1, 1), TipoFantasma::Rojo), None);
}

#[test]
fn search_from_a_cell_that_is_not_a_node_is_an_error() {
    let lab = corredor();
    let mut d = distancias_nuevas(&lab, (0, 0));
    match recorrido(&lab, &mut d, (0, 0), (1, 1), TipoFantasma::Rojo) {
        EstadoRecorrido::Error(m) => assert_eq!(m, "error, la casilla actual no es un nodo"),
        other => panic!("expected an error, got {:?}", other),
    }
}

#[test]
fn search_towards_an_unreachable_cell_is_interrupted() {
    let lab = corredor();
    let mut d = distancias_nuevas(&lab, (1, 0));
    assert!(matches!(
        recorrido(&lab, &mut d, (1, 0), (0, 0), TipoFantasma::Rojo),
        EstadoRecorrido::Interrump
    ));
    assert_eq!(calcular_ruta(&lab, (1, 0), (0, 0), TipoFantasma::Rojo), None);
}

#[test]
fn search_along_a_corridor_wraps_and_is_exact() {
    // Row 1 wraps east to west only through (1,4), a wall, so the route goes east.
    let lab = corredor();
    let ruta = calcular_ruta(&lab, (1, 0), (1, 3), TipoFantasma::Rojo).unwrap();
    assert_eq!(ruta, VecDeque::from(vec![Este, Este, Este]));
    assert_eq!(seguir(&lab, (1, 0), &ruta), (1, 3));
}

#[test]
fn search_keeps_the_shortest_distances_it_found() {
    let lab = corredor();
    let mut d = distancias_nuevas(&lab, (1, 0));
    let r = recorrido(&lab, &mut d, (1, 0), (2, 2), TipoFantasma::Rojo);
    assert!(matches!(r, EstadoRecorrido::Interrump));
    assert_eq!(d[1], vec![Some(0), Some(1), Some(2), Some(3), None]);
    assert_eq!(d[0], vec![None; 5]);
}

#[test]
fn depth_first_search_keeps_only_routes_that_shorten_the_distance() {
    // A ring of four nodes: every link of (0,0) is tried, but once (1,1) is reached
    // through north then east, the other links do not reach it any sooner.
    let mut lab = vec![vec![nodo(), nodo()], vec![nodo(), nodo()]];
    maze_init(&mut lab);
    for tipo in [TipoFantasma::Rojo, TipoFantasma::Azul, TipoFantasma::Rosa, TipoFantasma::Naranja] {
        let ruta = calcular_ruta(&lab, (0, 0), (1, 1), tipo).unwrap();
        assert_eq!(ruta, VecDeque::from(vec![Norte, Este]));
        assert_eq!(seguir(&lab, (0, 0), &ruta), (1, 1));
    }
}

#[test]
fn ghosts_prefer_their_own_first_step() {
    // P P P P P
    // P N N N P
    // P N P N P
    // P N N N P
    // P P P P P
    // From (1,1) to (1,3): south first finds a route of 6 steps, then east one of 2.
    let mut lab = vec![
        vec![p(), p(), p(), p(), p()],
        vec![p(), nodo(), nodo(), nodo(), p()],
        vec![p(), nodo(), p(), nodo(), p()],
        vec![p(), nodo(), nodo(), nodo(), p()],
        vec![p(), p(), p(), p(), p()],
    ];
    maze_init(&mut lab);
    let rosa = calcular_ruta(&lab, (1, 1), (1, 3), TipoFantasma::Rosa).unwrap();
    assert_eq!(rosa, VecDeque::from(vec![Sur, Sur, Este, Este, Norte, Norte]));
    assert_eq!(seguir(&lab, (1, 1), &rosa), (1, 3));
    let corta = VecDeque::from(vec![Este, Este]);
    assert_eq!(calcular_ruta(&lab, (1, 1), (1, 3), TipoFantasma::Rojo).unwrap(), corta);
    assert_eq!(calcular_ruta(&lab, (1, 1), (1, 3), TipoFantasma::Naranja).unwrap(), corta);
    assert_eq!(calcular_ruta(&lab, (1, 1), (1, 3), TipoFantasma::Azul).unwrap(), corta);
}

#[test]
fn search_finds_a_route_in_a_larger_maze() {
    // N N N N N
    // N # # # N
    // N N N # N
    // # # N N N
    let mut lab = vec![
        vec![nodo(), nodo(), nodo(), nodo(), nodo()],
        vec![nodo(), p(), p(), p(), nodo()],
        vec![nodo(), nodo(), nodo(), p(), nodo()],
        vec![p(), p(), nodo(), nodo(), nodo()],
    ];
    maze_init(&mut lab);
    for tipo in [TipoFantasma::Rojo, TipoFantasma::Azul, TipoFantasma::Rosa, TipoFantasma::Naranja] {
        let ruta = calcular_ruta(&lab, (2, 2), (0, 4), tipo).unwrap();
        assert!(!ruta.is_empty());
        assert_eq!(seguir(&lab, (2, 2), &ruta), (0, 4));
    }
}

#[test]
fn camino_corto_is_the_first_after_a_stable_sort() {
    let caminos = vec![
        VecDeque::from(vec![Sur, Sur]),
        VecDeque::from(vec![Este, Norte, Norte]),
        VecDeque::from(vec![Este, Sur]),
        VecDeque::from(vec![Este, Oeste]),
        VecDeque::from(vec![Norte]),
    ];
    // Rojo prefers east: the shortest route starting east comes first.
    assert_eq!(camino_corto(&caminos, TipoFantasma::Rojo), 2);
    // Rosa prefers south.
    assert_eq!(camino_corto(&caminos, TipoFantasma::Rosa), 0);
    // Azul prefers west; none starts west, so the shortest, the earliest on ties.
    assert_eq!(camino_corto(&caminos, TipoFantasma::Azul), 4);
    let empates = vec![VecDeque::from(vec![Sur, Norte]), VecDeque::from(vec![Oeste, Este])];
    assert_eq!(camino_corto(&empates, TipoFantasma::Rojo), 0);
}

#[test]
fn targets_of_each_ghost() {
    // x: column, y: row; results are (row, column).
    let mut lab = vec![
        vec![nodo(), nodo(), nodo(), nodo(), nodo()],
        vec![nodo(), p(), p(), p(), nodo()],
        vec![nodo(), nodo(), nodo(), nodo(), nodo()],
    ];
    maze_init(&mut lab);
    assert_eq!(objetivo_fantasma(TipoFantasma::Rojo, &lab, (3, 2), Some(Este), (0, 0)), (2, 3));
    assert_eq!(objetivo_fantasma(TipoFantasma::Naranja, &lab, (3, 2), None, (0, 0)), (2, 3));
    // Two cells ahead of Pac-Man.
    assert_eq!(objetivo_fantasma(TipoFantasma::Rosa, &lab, (1, 2), Some(Este), (0, 0)), (2, 3));
    assert_eq!(objetivo_fantasma(TipoFantasma::Rosa, &lab, (1, 0), Some(Oeste), (0, 0)), (0, 0));
    assert_eq!(objetivo_fantasma(TipoFantasma::Rosa, &lab, (1, 0), Some(Norte), (0, 0)), (0, 1));
    // Blue: 2 * (Pac-Man + 2 ahead) - own = (2*(1+2) - 0, 2*2 - 4) = (6, 0), beyond the
    // maze; down the staircase: (5,0) no, (4,0) node.
    assert_eq!(objetivo_fantasma(TipoFantasma::Azul, &lab, (1, 2), Some(Este), (0, 4)), (0, 4));
    // Blue: (2*1 - 3, ...) negative: Pac-Man itself.
    assert_eq!(objetivo_fantasma(TipoFantasma::Azul, &lab, (1, 2), None, (3, 0)), (2, 1));
    // Blue: (2*2-2, 2*2-0) = (2, 4), row 4 is outside, step up (x <= y): (2,3), (2,2) node.
    assert_eq!(objetivo_fantasma(TipoFantasma::Azul, &lab, (2, 2), None, (2, 0)), (2, 2));
    // Blue: (2*2-0, 2*1-0) = (4, 2): a node already.
    assert_eq!(objetivo_fantasma(TipoFantasma::Azul, &lab, (2, 1), None, (0, 0)), (2, 4));
    // Blue: (2*3-1, 2*1-1) = (5,1): x > y steps left: (4,1) node.
    assert_eq!(objetivo_fantasma(TipoFantasma::Azul, &lab, (3, 1), None, (1, 1)), (1, 4));
}

#[test]
fn conversions_and_node_lookups() {
    assert_eq!(saturar_usize(-5), 0);
    assert_eq!(saturar_usize(7), 7);
    assert_eq!(saturar_usize(i64::MAX) as u64, i64::MAX as u64);
    let lab = corredor();
    assert!(nodo_en(&lab, 0, 1));
    assert!(!nodo_en(&lab, 4, 1));
    assert!(!nodo_en(&lab, -1, 1));
    assert!(!nodo_en(&lab, 0, 3));
    assert!(!nodo_en(&lab, 9, 1));
}

#[test]
fn fresh_distances() {
    let lab = corredor();
    let d = distancias_nuevas(&lab, (1, 2));
    assert_eq!(d.len(), 3);
    assert_eq!(d[1], vec![None, None, Some(0), None, None]);
    assert_eq!(d[0], vec![None; 5]);
}

#[test]
fn preferred_directions() {
    assert_eq!(TipoFantasma::Naranja.direccion_preferida(), Norte);
    assert_eq!(TipoFantasma::Rosa.direccion_preferida(), Sur);
    assert_eq!(TipoFantasma::Rojo.direccion_preferida(), Este);
    assert_eq!(TipoFantasma::Azul.direccion_preferida(), Oeste);
}

#[test]
fn search_through_the_wrapping_column_records_its_distances() {
    // P P P
    // N P N
    // P P N
    let mut lab = vec![vec![p(), p(), p()], vec![nodo(), p(), nodo()], vec![p(), p(), nodo()]];
    maze_init(&mut lab);
    let mut d = distancias_nuevas(&lab, (1, 0));
    match recorrido(&lab, &mut d, (1, 0), (2, 2), TipoFantasma::Rojo) {
        EstadoRecorrido::Exito(Some(q)) => assert_eq!(q, VecDeque::from([Oeste, Sur])),
        other => panic!("expected a route, got {:?}", other),
    }
    assert_eq!(d[1][2], Some(1));
    assert_eq!(d[2][2], Some(2));
    assert_eq!(d[1][0], Some(0));
}

#[test]
fn early_answers_leave_the_distances_unchanged() {
    let lab = corredor();
    let mut d = distancias_nuevas(&lab, (1, 1));
    let antes = d.clone();
    assert!(matches!(
        recorrido(&lab, &mut d, (1, 1), (1, 1), TipoFantasma::Azul),
        EstadoRecorrido::Exito(None)
    ));
    assert_eq!(d, antes);
    let mut d = distancias_nuevas(&lab, (0, 0));
    let antes = d.clone();
    assert!(matches!(recorrido(&lab, &mut d, (0, 0), (1, 1), TipoFantasma::Azul), EstadoRecorrido::Error(_)));
    assert_eq!(d, antes);
}

#[test]
fn a_search_from_an_unreached_start_changes_nothing() {
    let lab = corredor();
    let mut d = distancias_nuevas(&lab, (1, 3));
    let antes = d.clone();
    assert!(matches!(recorrido(&lab, &mut d, (1, 0), (1, 2), TipoFantasma::Rojo), EstadoRecorrido::Interrump));
    assert_eq!(d, antes);
}

#[test]
fn the_favourite_first_step_wins_when_it_leads_to_the_target() {
    // A ring of four nodes: from (0,0) the target (1,0) lies one step north
    // (wrapping) and one step south.
    let mut lab = vec![vec![nodo(), nodo()], vec![nodo(), nodo()]];
    maze_init(&mut lab);
    assert_eq!(calcular_ruta(&lab, (0, 0), (1, 0), TipoFantasma::Naranja), Some(VecDeque::from([Norte])));
    assert_eq!(calcular_ruta(&lab, (0, 0), (1, 0), TipoFantasma::Rosa), Some(VecDeque::from([Norte])));
    // From (0,0) the target (0,1) lies one step east and one step west (wrapping).
    assert_eq!(calcular_ruta(&lab, (0, 0), (0, 1), TipoFantasma::Rojo), Some(VecDeque::from([Este])));
    // Along the corridor only the east link of (1,1) leads to (1,2), only the west one to (1,0).
    let lab = corredor();
    assert_eq!(calcular_ruta(&lab, (1, 1), (1, 2), TipoFantasma::Rojo), Some(VecDeque::from([Este])));
    assert_eq!(calcular_ruta(&lab, (1, 1), (1, 0), TipoFantasma::Azul), Some(VecDeque::from([Oeste])));
    let mut d = distancias_nuevas(&lab, (1, 1));
    match recorrido(&lab, &mut d, (1, 1), (1, 2), TipoFantasma::Rojo) {
        EstadoRecorrido::Exito(Some(q)) => assert_eq!(q, VecDeque::from([Este])),
        other => panic!("expected a route, got {:?}", other),
    }
    assert_eq!(d[1], vec![Some(1), Some(0), Some(1), None, None]);
}
