use pacman::laberinto::casillas::{paso_en, Casilla, Direcciones, Nodo};
use pacman::laberinto::init::maze_init;
use pacman::laberinto::casillas::Direcciones::{Este, Norte, Oeste, Sur};

fn nodo() -> Casilla {
    Casilla::Nodo(Nodo::new())
}

fn enlaces(c: &Casilla) -> Vec<(Direcciones, (usize, usize))> {
    match c {
        Casilla::Nodo(n) => n.conections(),
        _ => panic!("not a node"),
    }
}

#[test]
fn add_conection_replaces_and_lists_in_order() {
    let mut n = Nodo::new();
    assert!(n.conections().is_empty());
    n.add_conection((4, 5), Direcciones::Oeste);
    n.add_conection((1, 2), Direcciones::Norte);
    assert_eq!(
        n.conections(),
        vec![(Direcciones::Norte, (1, 2)), (Direcciones::Oeste, (4, 5))]
    );
    n.add_conection((7, 7), Direcciones::Norte);
    assert_eq!(
        n.conections(),
        vec![(Direcciones::Norte, (7, 7)), (Direcciones::Oeste, (4, 5))]
    );
    assert_eq!(n.conexion_en(Direcciones::Sur), None);
    assert_eq!(n.conexion_en(Direcciones::Oeste), Some((4, 5)));
}

#[test]
fn paso_en_wraps_around_the_edges() {
    assert_eq!(paso_en(0, 2, Direcciones::Norte, 3, 4), (2, 2));
    assert_eq!(paso_en(1, 2, Direcciones::Norte, 3, 4), (0, 2));
    assert_eq!(paso_en(2, 2, Direcciones::Sur, 3, 4), (0, 2));
    assert_eq!(paso_en(0, 3, Direcciones::Este, 3, 4), (0, 0));
    assert_eq!(paso_en(0, 0, Direcciones::Oeste, 3, 4), (0, 3));
    assert_eq!(paso_en(1, 1, Direcciones::Este, 3, 4), (1, 2));
}

#[test]
fn opposite_directions_and_vectors() {
    assert_eq!(Direcciones::Norte.opuesta(), Direcciones::Sur);
    assert_eq!(Direcciones::Este.opuesta(), Direcciones::Oeste);
    assert!(Direcciones::Este.es_horizontal());
    assert!(!Direcciones::Sur.es_horizontal());
    assert_eq!(Direcciones::Norte.vector(), (0, -1));
    assert_eq!(Direcciones::Oeste.vector(), (-1, 0));
}

#[test]
fn maze_init_links_neighbouring_nodes_with_wrap_around() {
    // N N #
    // # N .
    // N N N
    let mut lab = vec![
        vec![nodo(), nodo(), Casilla::Pared],
        vec![Casilla::Pared, nodo(), Casilla::Vacio],
        vec![nodo(), nodo(), nodo()],
    ];
    maze_init(&mut lab);
    assert_eq!(enlaces(&lab[0][0]), vec![(Norte, (2, 0)), (Este, (0, 1))]);
    assert_eq!(
        enlaces(&lab[0][1]),
        vec![(Norte, (2, 1)), (Sur, (1, 1)), (Oeste, (0, 0))]
    );
    assert_eq!(enlaces(&lab[1][1]), vec![(Norte, (0, 1)), (Sur, (2, 1))]);
    assert_eq!(
        enlaces(&lab[2][0]),
        vec![(Sur, (0, 0)), (Este, (2, 1)), (Oeste, (2, 2))]
    );
    assert_eq!(
        enlaces(&lab[2][1]),
        vec![(Norte, (1, 1)), (Sur, (0, 1)), (Este, (2, 2)), (Oeste, (2, 0))]
    );
    assert_eq!(enlaces(&lab[2][2]), vec![(Este, (2, 0)), (Oeste, (2, 1))]);
    assert!(matches!(lab[0][2], Casilla::Pared));
    assert!(matches!(lab[1][0], Casilla::Pared));
    assert!(matches!(lab[1][2], Casilla::Vacio));
}

#[test]
fn maze_init_links_are_symmetric() {
    let mut lab = vec![
        vec![nodo(), nodo(), Casilla::Spawn, nodo()],
        vec![nodo(), Casilla::Pared, nodo(), nodo()],
    ];
    maze_init(&mut lab);
    for i in 0..2 {
        for j in 0..4 {
            if let Casilla::Nodo(n) = &lab[i][j] {
                for (d, (qi, qj)) in n.conections() {
                    match &lab[qi][qj] {
                        Casilla::Nodo(m) => assert_eq!(m.conexion_en(d.opuesta()), Some((i, j))),
                        _ => panic!("link to a cell that is not a node"),
                    }
                }
            }
        }
    }
}

#[test]
fn maze_init_keeps_earlier_links_where_no_neighbour_is_a_node() {
    let mut previo = Nodo::new();
    previo.add_conection((9, 9), Direcciones::Sur);
    let mut lab = vec![vec![Casilla::Nodo(previo), nodo()], vec![Casilla::Pared, Casilla::Pared]];
    maze_init(&mut lab);
    assert_eq!(
        enlaces(&lab[0][0]),
        vec![(Sur, (9, 9)), (Este, (0, 1)), (Oeste, (0, 1))]
    );
}

#[test]
fn maze_init_leaves_cells_beyond_the_first_row_width_alone() {
    let mut lab = vec![vec![nodo()], vec![nodo(), nodo()]];
    maze_init(&mut lab);
    assert_eq!(enlaces(&lab[0][0]), vec![(Norte, (1, 0)), (Sur, (1, 0)), (Este, (0, 0)), (Oeste, (0, 0))]);
    assert!(enlaces(&lab[1][1]).is_empty());
}

#[test]
fn maze_init_on_an_empty_maze_does_nothing() {
    let mut lab: Vec<Vec<Casilla>> = Vec::new();
    maze_init(&mut lab);
    assert!(lab.is_empty());
}

#[test]
fn linking_twice_changes_nothing() {
    let mut lab = vec![
        vec![nodo(), Casilla::Pared, nodo()],
        vec![nodo(), nodo(), Casilla::Spawn],
    ];
    maze_init(&mut lab);
    let una: Vec<Vec<Vec<(pacman::laberinto::casillas::Direcciones, (usize, usize))>>> = lab
        .iter()
        .map(|f| f.iter().map(|c| match c { Casilla::Nodo(n) => n.conections(), _ => vec![] }).collect())
        .collect();
    maze_init(&mut lab);
    let dos: Vec<Vec<Vec<(pacman::laberinto::casillas::Direcciones, (usize, usize))>>> = lab
        .iter()
        .map(|f| f.iter().map(|c| match c { Casilla::Nodo(n) => n.conections(), _ => vec![] }).collect())
        .collect();
    assert_eq!(una, dos);
    assert!(matches!(lab[0][1], Casilla::Pared));
    assert!(matches!(lab[1][2], Casilla::Spawn));
}

#[test]
fn maze_maker_draws_and_links_a_map() {
    let mapa: Vec<Vec<char>> = vec!["#.#".chars().collect(), "..S".chars().collect(), "x. ".chars().collect()];
    let lab = pacman::laberinto::maze_maker(&mapa);
    assert!(matches!(lab[0][0], Casilla::Pared));
    assert!(matches!(lab[1][2], Casilla::Spawn));
    assert!(matches!(lab[2][0], Casilla::Vacio));
    assert!(matches!(lab[2][2], Casilla::Vacio));
    assert_eq!(enlaces(&lab[0][1]), vec![(Norte, (2, 1)), (Sur, (1, 1))]);
    assert_eq!(enlaces(&lab[1][0]), vec![(Este, (1, 1))]);
    assert_eq!(
        enlaces(&lab[1][1]),
        vec![(Norte, (0, 1)), (Sur, (2, 1)), (Oeste, (1, 0))]
    );
    assert!(matches!(pacman::laberinto::casilla_de('#'), Casilla::Pared));
    assert!(matches!(pacman::laberinto::casilla_de('?'), Casilla::Vacio));
}

#[test]
fn a_single_row_links_each_node_to_itself_vertically() {
    let mut lab = vec![vec![nodo(), nodo()]];
    maze_init(&mut lab);
    assert_eq!(
        enlaces(&lab[0][0]),
        vec![
            (Direcciones::Norte, (0, 0)),
            (Direcciones::Sur, (0, 0)),
            (Direcciones::Este, (0, 1)),
            (Direcciones::Oeste, (0, 1)),
        ]
    );
    assert_eq!(
        enlaces(&lab[0][1]),
        vec![
            (Direcciones::Norte, (0, 1)),
            (Direcciones::Sur, (0, 1)),
            (Direcciones::Este, (0, 0)),
            (Direcciones::Oeste, (0, 0)),
        ]
    );
}
