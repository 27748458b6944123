use vstd::prelude::*;

use crate::laberinto::casillas::{
    casilla, columnas, en_rango, lemma_paso_en_rango, lemma_paso_opuesto, paso_en, rejilla,
    vecino, Casilla, Direcciones, Nodo,
};

verus! {

/// The link that a node at `p` ends up with in direction `d` once the maze is
/// linked: the neighbour in that direction if it is a node, else what it had.
pub open spec fn enlace(
    lab: Seq<Vec<Casilla>>,
    p: (usize, usize),
    d: Direcciones,
    previo: Option<(usize, usize)>,
) -> Option<(usize, usize)> {
    if casilla(lab, vecino(lab, p, d)) is Nodo {
        Some(vecino(lab, p, d))
    } else {
        previo
    }
}

/// The node at `p` with all four of its links set as the linking of the maze sets them.
pub open spec fn nodo_enlazado(lab: Seq<Vec<Casilla>>, p: (usize, usize), n: Nodo) -> Nodo {
    Nodo {
        norte: enlace(lab, p, Direcciones::Norte, n.norte),
        sur: enlace(lab, p, Direcciones::Sur, n.sur),
        este: enlace(lab, p, Direcciones::Este, n.este),
        oeste: enlace(lab, p, Direcciones::Oeste, n.oeste),
    }
}

/// The cell at `p` once the maze is linked: a node gains a link to each
/// neighbouring node; any other cell stays as it is.
pub open spec fn celda_enlazada(lab: Seq<Vec<Casilla>>, p: (usize, usize)) -> Casilla {
    match casilla(lab, p) {
        Casilla::Nodo(n) => Casilla::Nodo(nodo_enlazado(lab, p, n)),
        c => c,
    }
}

/// The sizes that the bookkeeping of `maze_init` can hold.
pub open spec fn dimensiones_validas(lab: Seq<Vec<Casilla>>) -> bool {
    &&& lab.len() <= 19
    &&& columnas(lab) <= 31
    &&& rejilla(lab)
}

/// The maze as `maze_init` leaves it: every cell within the width of the first
/// row is linked, any cell beyond it is unchanged.
pub open spec fn laberinto_enlazado(orig: Seq<Vec<Casilla>>, lab: Seq<Vec<Casilla>>) -> bool {
    &&& lab.len() == orig.len()
    &&& forall|i: int| 0 <= i < orig.len() ==> #[trigger] lab[i]@.len() == orig[i]@.len()
    &&& forall|i: int, j: int|
        0 <= i < orig.len() && 0 <= j < orig[i]@.len() ==> #[trigger] lab[i]@[j] == if j
            < columnas(orig) {
            celda_enlazada(orig, (i as usize, j as usize))
        } else {
            orig[i]@[j]
        }
}

/// The node held by a cell known to be a node.
spec fn nodo_de(c: Casilla) -> Nodo {
    c->Nodo_0
}

/// A node that is still being linked: each link is either the one it started with or
/// the final one.
spec fn enlazado_en_parte(orig: Seq<Vec<Casilla>>, p: (usize, usize), actual: Casilla) -> bool {
    &&& casilla(orig, p) is Nodo
    &&& actual is Nodo
    &&& forall|d: Direcciones|
        #![trigger nodo_de(actual).conexion(d)]
        nodo_de(actual).conexion(d) == nodo_de(casilla(orig, p)).conexion(d)
            || nodo_de(actual).conexion(d) == enlace(
            orig,
            p,
            d,
            nodo_de(casilla(orig, p)).conexion(d),
        )
}

/// The state of the depth-first linking: `orig` is the maze before it started,
/// `lab` the maze now, `visto` the cells already reached and `pila` the nodes
/// whose links are still being added.
spec fn invariante(
    orig: Seq<Vec<Casilla>>,
    lab: Seq<Vec<Casilla>>,
    visto: Seq<[bool; 31]>,
    pila: Set<(usize, usize)>,
) -> bool {
    &&& dimensiones_validas(orig)
    &&& visto.len() == 19
    &&& lab.len() == orig.len()
    &&& forall|i: int| 0 <= i < orig.len() ==> #[trigger] lab[i]@.len() == orig[i]@.len()
    &&& forall|i: int, j: int|
        0 <= i < orig.len() && columnas(orig) <= j < orig[i]@.len() ==> #[trigger] lab[i]@[j]
            == orig[i]@[j]
    &&& forall|i: usize, j: usize|
        #![trigger lab[i as int]@[j as int]]
        en_rango(orig, (i, j)) ==> {
            let actual = lab[i as int]@[j as int];
            &&& !(orig[i as int]@[j as int] is Nodo) ==> actual == orig[i as int]@[j as int]
            &&& !visto[i as int]@[j as int] ==> actual == orig[i as int]@[j as int]
            &&& visto[i as int]@[j as int] && !pila.contains((i, j)) ==> actual
                == celda_enlazada(orig, (i, j))
            &&& pila.contains((i, j)) ==> visto[i as int]@[j as int] && enlazado_en_parte(
                orig,
                (i, j),
                actual,
            )
        }
    &&& forall|p: (usize, usize)| #[trigger] pila.contains(p) ==> en_rango(orig, p)
}

/// The number of cells of a row of the bookkeeping not reached yet, among the first `n`.
spec fn pendientes_fila(fila: Seq<bool>, n: int) -> nat
    decreases n,
{
    if n <= 0 {
        0
    } else {
        pendientes_fila(fila, n - 1) + if fila[n - 1] {
            0nat
        } else {
            1nat
        }
    }
}

/// The number of cells of the bookkeeping not reached yet, among the first `k` rows.
spec fn pendientes(visto: Seq<[bool; 31]>, k: int) -> nat
    decreases k,
{
    if k <= 0 {
        0
    } else {
        pendientes(visto, k - 1) + pendientes_fila(visto[k - 1]@, 31)
    }
}

/// Every cell reached in `a` is reached in `b`.
spec fn monotono(a: Seq<[bool; 31]>, b: Seq<[bool; 31]>) -> bool {
    forall|i: int, j: int| 0 <= i < 19 && 0 <= j < 31 ==> #[trigger] a[i]@[j] ==> b[i]@[j]
}

proof fn lemma_monotono_trans(a: Seq<[bool; 31]>, b: Seq<[bool; 31]>, c: Seq<[bool; 31]>)
    requires
        monotono(a, b),
        monotono(b, c),
    ensures
        monotono(a, c),
{
    assert forall|i: int, j: int| 0 <= i < 19 && 0 <= j < 31 && #[trigger] a[i]@[j] implies c[i]@[j] by {
        assert(a[i]@[j] ==> b[i]@[j]);
        assert(b[i]@[j] ==> c[i]@[j]);
    }
}

proof fn lemma_pendientes_fila(a: Seq<bool>, b: Seq<bool>, n: int, j0: int)
    requires
        0 <= n <= 31,
        a.len() == 31,
        b.len() == 31,
        forall|j: int| 0 <= j < 31 ==> #[trigger] a[j] ==> b[j],
    ensures
        pendientes_fila(b, n) <= pendientes_fila(a, n),
        0 <= j0 < n && !a[j0] && b[j0] ==> pendientes_fila(b, n) < pendientes_fila(a, n),
    decreases n,
{
    if n > 0 {
        lemma_pendientes_fila(a, b, n - 1, j0);
        assert(a[n - 1] ==> b[n - 1]);
    }
}

proof fn lemma_pendientes(a: Seq<[bool; 31]>, b: Seq<[bool; 31]>, k: int, i0: int, j0: int)
    requires
        0 <= k <= 19,
        a.len() == 19,
        b.len() == 19,
        monotono(a, b),
    ensures
        pendientes(b, k) <= pendientes(a, k),
        0 <= i0 < k && 0 <= j0 < 31 && !a[i0]@[j0] && b[i0]@[j0] ==> pendientes(b, k)
            < pendientes(a, k),
    decreases k,
{
    if k > 0 {
        lemma_pendientes(a, b, k - 1, i0, j0);
        assert forall|j: int| 0 <= j < 31 && #[trigger] a[k - 1]@[j] implies b[k - 1]@[j] by {
            assert(a[k - 1]@[j] ==> b[k - 1]@[j]);
        }
        lemma_pendientes_fila(a[k - 1]@, b[k - 1]@, 31, j0);
    }
}

/// Links the node at `p` to `destino` in direction `d`.
fn enlazar_en(lab: &mut Vec<Vec<Casilla>>, p: (usize, usize), destino: (usize, usize), d: Direcciones)
    requires
        p.0 < old(lab)@.len(),
        p.1 < old(lab)@[p.0 as int]@.len(),
        old(lab)@[p.0 as int]@[p.1 as int] is Nodo,
    ensures
        final(lab)@.len() == old(lab)@.len(),
        forall|i: int| 0 <= i < old(lab)@.len() && i != p.0 ==> #[trigger] final(lab)@[i] == old(lab)@[i],
        final(lab)@[p.0 as int]@ == old(lab)@[p.0 as int]@.update(
            p.1 as int,
            Casilla::Nodo(nodo_de(old(lab)@[p.0 as int]@[p.1 as int]).con_conexion(d, Some(destino))),
        ),
{
    let (i, j) = p;
    match lab[i][j] {
        Casilla::Nodo(n) => {
            let mut n = n;
            n.add_conection(destino, d);
            lab[i][j] = Casilla::Nodo(n);
        },
        _ => {},
    }
}

/// Whether the bookkeeping `visto` marks the cell `x` as reached.
spec fn marcada(visto: Seq<[bool; 31]>, x: (usize, usize)) -> bool {
    visto[x.0 as int]@[x.1 as int]
}

/// `dirs` walks from `desde` to `hasta`, each step to the neighbouring cell in
/// its direction (the edges wrapping around), leaving only nodes that `visto`
/// does not mark.
spec fn marcha(
    lab: Seq<Vec<Casilla>>,
    visto: Seq<[bool; 31]>,
    desde: (usize, usize),
    hasta: (usize, usize),
    dirs: Seq<Direcciones>,
) -> bool
    decreases dirs.len(),
{
    if dirs.len() == 0 {
        desde == hasta
    } else {
        &&& en_rango(lab, desde)
        &&& casilla(lab, desde) is Nodo
        &&& !marcada(visto, desde)
        &&& marcha(lab, visto, vecino(lab, desde, dirs[0]), hasta, dirs.drop_first())
    }
}

/// Some walk leads from `desde` to `hasta` leaving only nodes that `visto`
/// does not mark (see `marcha`).
spec fn alcanzable(
    lab: Seq<Vec<Casilla>>,
    visto: Seq<[bool; 31]>,
    desde: (usize, usize),
    hasta: (usize, usize),
) -> bool {
    exists|dirs: Seq<Direcciones>| #[trigger] marcha(lab, visto, desde, hasta, dirs)
}

/// The entries of the bookkeeping for positions outside the maze are the same
/// in `a` and `b`.
spec fn fuera_igual(orig: Seq<Vec<Casilla>>, a: Seq<[bool; 31]>, b: Seq<[bool; 31]>) -> bool {
    forall|i: int, j: int|
        0 <= i < 19 && 0 <= j < 31 && !en_rango(orig, (i as usize, j as usize)) ==> #[trigger] b[i]@[j]
            == a[i]@[j]
}

proof fn lemma_fuera_trans(
    orig: Seq<Vec<Casilla>>,
    a: Seq<[bool; 31]>,
    b: Seq<[bool; 31]>,
    c: Seq<[bool; 31]>,
)
    requires
        fuera_igual(orig, a, b),
        fuera_igual(orig, b, c),
    ensures
        fuera_igual(orig, a, c),
{
    assert forall|i: int, j: int|
        0 <= i < 19 && 0 <= j < 31 && !en_rango(orig, (i as usize, j as usize)) implies #[trigger] c[i]@[j]
            == a[i]@[j] by {
        assert(c[i]@[j] == b[i]@[j]);
        assert(b[i]@[j] == a[i]@[j]);
    }
}

/// Every node marked in `b` and not in `a` has its four neighbours marked in `b`.
spec fn cerrado(lab: Seq<Vec<Casilla>>, a: Seq<[bool; 31]>, b: Seq<[bool; 31]>) -> bool {
    forall|x: (usize, usize)|
        #![trigger marcada(b, x)]
        en_rango(lab, x) && casilla(lab, x) is Nodo && marcada(b, x) && !marcada(a, x) ==> forall|
            d: Direcciones,
        | #[trigger] marcada(b, vecino(lab, x, d))
}

/// As `cerrado`, for every node but `c`.
spec fn cerrado_salvo(
    lab: Seq<Vec<Casilla>>,
    a: Seq<[bool; 31]>,
    b: Seq<[bool; 31]>,
    c: (usize, usize),
) -> bool {
    forall|x: (usize, usize)|
        #![trigger marcada(b, x)]
        en_rango(lab, x) && casilla(lab, x) is Nodo && marcada(b, x) && !marcada(a, x) && x != c
            ==> forall|d: Direcciones| #[trigger] marcada(b, vecino(lab, x, d))
}

/// Every cell marked in `b` and not in `a` is reached from `desde` by a walk
/// leaving only nodes unmarked in `a`.
spec fn marcas_alcanzables(
    lab: Seq<Vec<Casilla>>,
    a: Seq<[bool; 31]>,
    b: Seq<[bool; 31]>,
    desde: (usize, usize),
) -> bool {
    forall|x: (usize, usize)|
        #![trigger marcada(b, x)]
        en_rango(lab, x) && marcada(b, x) && !marcada(a, x) ==> alcanzable(lab, a, desde, x)
}

/// A walk that leaves only nodes unmarked in `v2` leaves only nodes unmarked
/// in the smaller `v1`.
proof fn lemma_marcha_debil(
    lab: Seq<Vec<Casilla>>,
    v1: Seq<[bool; 31]>,
    v2: Seq<[bool; 31]>,
    desde: (usize, usize),
    hasta: (usize, usize),
    dirs: Seq<Direcciones>,
)
    requires
        dimensiones_validas(lab),
        monotono(v1, v2),
        marcha(lab, v2, desde, hasta, dirs),
    ensures
        marcha(lab, v1, desde, hasta, dirs),
    decreases dirs.len(),
{
    if dirs.len() > 0 {
        assert(v1[desde.0 as int]@[desde.1 as int] ==> v2[desde.0 as int]@[desde.1 as int]);
        lemma_marcha_debil(lab, v1, v2, vecino(lab, desde, dirs[0]), hasta, dirs.drop_first());
    }
}

/// When every node newly marked has its neighbours marked, every cell that a
/// walk from a marked `desde` reaches is marked.
proof fn lemma_marcha_completa(
    lab: Seq<Vec<Casilla>>,
    a: Seq<[bool; 31]>,
    b: Seq<[bool; 31]>,
    desde: (usize, usize),
    hasta: (usize, usize),
    dirs: Seq<Direcciones>,
)
    requires
        marcha(lab, a, desde, hasta, dirs),
        marcada(b, desde),
        cerrado(lab, a, b),
    ensures
        marcada(b, hasta),
    decreases dirs.len(),
{
    if dirs.len() > 0 {
        assert(marcada(b, vecino(lab, desde, dirs[0])));
        lemma_marcha_completa(lab, a, b, vecino(lab, desde, dirs[0]), hasta, dirs.drop_first());
    }
}

/// The marks left by the search from a neighbour of `c`, reached through
/// direction `d`, keep what the search from `c` states of its marks.
proof fn lemma_tras_vecino(
    lab: Seq<Vec<Casilla>>,
    inicial: Seq<[bool; 31]>,
    antes: Seq<[bool; 31]>,
    despues: Seq<[bool; 31]>,
    c: (usize, usize),
    d: Direcciones,
)
    requires
        dimensiones_validas(lab),
        inicial.len() == 19,
        antes.len() == 19,
        en_rango(lab, c),
        casilla(lab, c) is Nodo,
        !marcada(inicial, c),
        marcada(antes, c),
        monotono(inicial, antes),
        monotono(antes, despues),
        marcas_alcanzables(lab, inicial, antes, c),
        cerrado_salvo(lab, inicial, antes, c),
        cerrado(lab, antes, despues),
        marcas_alcanzables(lab, antes, despues, vecino(lab, c, d)),
    ensures
        marcas_alcanzables(lab, inicial, despues, c),
        cerrado_salvo(lab, inicial, despues, c),
        monotono(inicial, despues),
{
    lemma_paso_en_rango(c, d, lab.len() as int, columnas(lab));
    lemma_monotono_trans(inicial, antes, despues);
    assert forall|x: (usize, usize)|
        en_rango(lab, x) && casilla(lab, x) is Nodo && #[trigger] marcada(despues, x) && !marcada(
            inicial,
            x,
        ) && x != c implies forall|e: Direcciones| #[trigger] marcada(despues, vecino(lab, x, e)) by {
        if marcada(antes, x) {
            assert forall|e: Direcciones| #[trigger] marcada(despues, vecino(lab, x, e)) by {
                lemma_paso_en_rango(x, e, lab.len() as int, columnas(lab));
                let y = vecino(lab, x, e);
                assert(marcada(antes, y));
                assert(antes[y.0 as int]@[y.1 as int] ==> despues[y.0 as int]@[y.1 as int]);
            }
        } else {
            assert(!marcada(antes, x));
        }
    }
    assert forall|x: (usize, usize)|
        en_rango(lab, x) && #[trigger] marcada(despues, x) && !marcada(inicial, x) implies alcanzable(
        lab,
        inicial,
        c,
        x,
    ) by {
        if marcada(antes, x) {
        } else {
            let dirs = choose|dirs: Seq<Direcciones>| #[trigger] marcha(lab, antes, vecino(lab, c, d), x, dirs);
            lemma_marcha_debil(lab, inicial, antes, vecino(lab, c, d), x, dirs);
            let todo = seq![d] + dirs;
            assert(todo.drop_first() =~= dirs);
            assert(todo[0] == d);
            assert(marcha(lab, inicial, c, x, todo));
        }
    }
}

/// The maze changed from `la` to `lb` only at cells marked in `vb` and not in `va`.
spec fn solo_marcadas(
    orig: Seq<Vec<Casilla>>,
    la: Seq<Vec<Casilla>>,
    lb: Seq<Vec<Casilla>>,
    va: Seq<[bool; 31]>,
    vb: Seq<[bool; 31]>,
) -> bool {
    forall|x: (usize, usize)|
        #![trigger lb[x.0 as int]@[x.1 as int]]
        en_rango(orig, x) && lb[x.0 as int]@[x.1 as int] != la[x.0 as int]@[x.1 as int] ==> marcada(
            vb,
            x,
        ) && !marcada(va, x)
}

/// A marked cell stays marked.
proof fn lemma_sigue_marcada(a: Seq<[bool; 31]>, b: Seq<[bool; 31]>, x: (usize, usize))
    requires
        monotono(a, b),
        marcada(a, x),
        x.0 < 19,
        x.1 < 31,
    ensures
        marcada(b, x),
{
    assert(a[x.0 as int]@[x.1 as int] ==> b[x.0 as int]@[x.1 as int]);
}

/// The changes of the search from a neighbour of `c`, and the link then added
/// to `c`, are at cells newly marked.
proof fn lemma_cambios(
    orig: Seq<Vec<Casilla>>,
    lab0: Seq<Vec<Casilla>>,
    lab_antes: Seq<Vec<Casilla>>,
    lab_mid: Seq<Vec<Casilla>>,
    lab_ahora: Seq<Vec<Casilla>>,
    visto0: Seq<[bool; 31]>,
    antes: Seq<[bool; 31]>,
    ahora: Seq<[bool; 31]>,
    c: (usize, usize),
)
    requires
        dimensiones_validas(orig),
        solo_marcadas(orig, lab0, lab_antes, visto0, antes),
        solo_marcadas(orig, lab_antes, lab_mid, antes, ahora),
        lab_ahora.len() == lab_mid.len(),
        forall|a: int| 0 <= a < lab_mid.len() && a != c.0 ==> #[trigger] lab_ahora[a] == lab_mid[a],
        lab_ahora[c.0 as int]@.len() == lab_mid[c.0 as int]@.len(),
        forall|b: int|
            0 <= b < lab_mid[c.0 as int]@.len() && b != c.1 ==> #[trigger] lab_ahora[c.0 as int]@[b]
                == lab_mid[c.0 as int]@[b],
        en_rango(orig, c),
        lab_mid.len() == orig.len(),
        forall|a: int| 0 <= a < orig.len() ==> #[trigger] lab_mid[a]@.len() == orig[a]@.len(),
        marcada(antes, c),
        !marcada(visto0, c),
        monotono(visto0, antes),
        monotono(antes, ahora),
    ensures
        solo_marcadas(orig, lab0, lab_ahora, visto0, ahora),
{
    assert forall|x: (usize, usize)|
        en_rango(orig, x) && #[trigger] lab_ahora[x.0 as int]@[x.1 as int] != lab0[x.0 as int]@[x.1 as int]
            implies marcada(ahora, x) && !marcada(visto0, x) by {
        if x == c {
            lemma_sigue_marcada(antes, ahora, c);
        } else {
            if x.0 == c.0 {
                assert(x.1 != c.1);
                assert(lab_mid[x.0 as int]@.len() == orig[x.0 as int]@.len());
            }
            assert(lab_ahora[x.0 as int]@[x.1 as int] == lab_mid[x.0 as int]@[x.1 as int]);
            if lab_mid[x.0 as int]@[x.1 as int] != lab_antes[x.0 as int]@[x.1 as int] {
                assert(!marcada(antes, x));
                assert(visto0[x.0 as int]@[x.1 as int] ==> antes[x.0 as int]@[x.1 as int]);
            } else {
                assert(marcada(antes, x) && !marcada(visto0, x));
                lemma_sigue_marcada(antes, ahora, x);
            }
        }
    }
}

/// Reaches the cell `casilla` in the depth-first linking of the maze. A node
/// reached for the first time is marked, linked to each neighbouring node, and
/// each of its neighbours reached in turn; any other cell is marked. So the
/// cells newly marked are those that a walk from `casilla` reaches leaving
/// only nodes not marked before (see `marcha`), each node among them is
/// linked, and nothing else changes: neither the rest of the maze nor any
/// entry of the bookkeeping, outside the maze included. The result is the
/// position of the cell if it is a node.
#[verifier::rlimit(40)]
#[verifier::spinoff_prover]
fn recursive_init(
    lab: &mut Vec<Vec<Casilla>>,
    check_list: &mut [[bool; 31]; 19],
    casilla: (usize, usize),
    Ghost(orig): Ghost<Seq<Vec<Casilla>>>,
    Ghost(pila): Ghost<Set<(usize, usize)>>,
) -> (r: Option<(usize, usize)>)
    requires
        invariante(orig, old(lab)@, old(check_list)@, pila),
        en_rango(orig, casilla),
    ensures
        invariante(orig, final(lab)@, final(check_list)@, pila),
        forall|p: (usize, usize)|
            #[trigger] pila.contains(p) ==> final(lab)@[p.0 as int]@[p.1 as int]
                == old(lab)@[p.0 as int]@[p.1 as int],
        monotono(old(check_list)@, final(check_list)@),
        final(check_list)@[casilla.0 as int]@[casilla.1 as int],
        marcas_alcanzables(orig, old(check_list)@, final(check_list)@, casilla),
        cerrado(orig, old(check_list)@, final(check_list)@),
        forall|x: (usize, usize)|
            en_rango(orig, x) && #[trigger] alcanzable(orig, old(check_list)@, casilla, x) ==> marcada(
                final(check_list)@,
                x,
            ),
        solo_marcadas(orig, old(lab)@, final(lab)@, old(check_list)@, final(check_list)@),
        fuera_igual(orig, old(check_list)@, final(check_list)@),
        !(crate::laberinto::casillas::casilla(orig, casilla) is Nodo) || marcada(
            old(check_list)@,
            casilla,
        ) ==> final(lab)@ == old(lab)@,
        r == if crate::laberinto::casillas::casilla(orig, casilla) is Nodo {
            Some(casilla)
        } else {
            None::<(usize, usize)>
        },
    decreases pendientes(old(check_list)@, 19),
{
    let (i, j) = casilla;
    let ghost visto_ini = check_list@;
    if !lab[i][j].es_nodo() {
        check_list[i][j] = true;
        proof {
            assert forall|a: int, b: int|
                0 <= a < 19 && 0 <= b < 31 && !en_rango(orig, (a as usize, b as usize)) implies #[trigger] check_list@[a]@[b]
                    == visto_ini[a]@[b] by {
                if a == i {
                    assert(b != j);
                }
            }
            assert(marcha(orig, visto_ini, casilla, casilla, Seq::empty()));
            assert forall|x: (usize, usize)| en_rango(orig, x) && x != casilla implies marcada(
                check_list@,
                x,
            ) == marcada(visto_ini, x) by {
                if x.0 == i {
                    assert(x.1 != j);
                }
            }
            assert forall|a: int, b: int| 0 <= a < 19 && 0 <= b < 31 && #[trigger] visto_ini[a]@[b] implies check_list@[a]@[b] by {
                if a == i && b == j {
                } else if a == i {
                    assert(check_list@[a]@[b] == visto_ini[a]@[b]);
                }
            }
            assert forall|x: (usize, usize)|
                en_rango(orig, x) && #[trigger] alcanzable(orig, visto_ini, casilla, x) implies marcada(
                check_list@,
                x,
            ) by {
                let dirs = choose|dirs: Seq<Direcciones>| #[trigger] marcha(orig, visto_ini, casilla, x, dirs);
                if dirs.len() > 0 {
                    assert(lab@[i as int]@[j as int] == orig[i as int]@[j as int]);
                }
            }
        }
        return None;
    }
    if check_list[i][j] {
        proof {
            assert forall|x: (usize, usize)|
                en_rango(orig, x) && #[trigger] alcanzable(orig, visto_ini, casilla, x) implies marcada(
                check_list@,
                x,
            ) by {
                let dirs = choose|dirs: Seq<Direcciones>| #[trigger] marcha(orig, visto_ini, casilla, x, dirs);
            }
        }
        return Some((i, j));
    }
    let ghost visto0 = check_list@;
    let ghost lab0 = lab@;
    check_list[i][j] = true;
    proof {
        assert forall|a: int, b: int| 0 <= a < 19 && 0 <= b < 31 && #[trigger] visto0[a]@[b] implies check_list@[a]@[b] by {
            if a == i && b == j {
            } else {
                assert(check_list@[a]@[b] == visto0[a]@[b]);
            }
        }
        assert forall|x: (usize, usize)| en_rango(orig, x) && x != casilla implies marcada(
            check_list@,
            x,
        ) == marcada(visto0, x) by {
            if x.0 == i {
                assert(x.1 != j);
            }
        }
        assert forall|a: int, b: int|
            0 <= a < 19 && 0 <= b < 31 && !en_rango(orig, (a as usize, b as usize)) implies #[trigger] check_list@[a]@[b]
                == visto0[a]@[b] by {
            if a == i {
                assert(b != j);
            }
        }
        assert(marcha(orig, visto0, casilla, casilla, Seq::empty()));
        assert(marcas_alcanzables(orig, visto0, check_list@, casilla));
        assert(cerrado_salvo(orig, visto0, check_list@, casilla));
    }
    let ghost pila2 = pila.insert((i, j));
    let filas = lab.len();
    let cols = lab[0].len();
    let nort = paso_en(i, j, Direcciones::Norte, filas, cols);
    let sur = paso_en(i, j, Direcciones::Sur, filas, cols);
    let est = paso_en(i, j, Direcciones::Este, filas, cols);
    let ost = paso_en(i, j, Direcciones::Oeste, filas, cols);
    let ghost mut antes = check_list@;
    let ghost mut lab_antes = lab@;
    proof {
        lemma_pendientes(visto0, check_list@, 19, i as int, j as int);
        assert(nort == vecino(orig, casilla, Direcciones::Norte));
        assert(sur == vecino(orig, casilla, Direcciones::Sur));
        assert(est == vecino(orig, casilla, Direcciones::Este));
        assert(ost == vecino(orig, casilla, Direcciones::Oeste));
    }
    let r_nort = recursive_init(lab, check_list, nort, Ghost(orig), Ghost(pila2));
    let ghost lab_mid = lab@;
    if let Some(conection) = r_nort {
        enlazar_en(lab, (i, j), conection, Direcciones::Norte);
    }
    proof {
        lemma_tras_vecino(orig, visto0, antes, check_list@, casilla, Direcciones::Norte);
        lemma_fuera_trans(orig, visto0, antes, check_list@);
        lemma_cambios(orig, lab0, lab_antes, lab_mid, lab@, visto0, antes, check_list@, casilla);
        assert(marcada(check_list@, nort));
        lemma_pendientes(visto0, check_list@, 19, i as int, j as int);
        antes = check_list@;
        lab_antes = lab@;
    }
    let r_sur = recursive_init(lab, check_list, sur, Ghost(orig), Ghost(pila2));
    let ghost lab_mid = lab@;
    if let Some(conection) = r_sur {
        enlazar_en(lab, (i, j), conection, Direcciones::Sur);
    }
    proof {
        lemma_tras_vecino(orig, visto0, antes, check_list@, casilla, Direcciones::Sur);
        lemma_fuera_trans(orig, visto0, antes, check_list@);
        lemma_sigue_marcada(antes, check_list@, nort);
        lemma_cambios(orig, lab0, lab_antes, lab_mid, lab@, visto0, antes, check_list@, casilla);
        assert(marcada(check_list@, sur));
        lemma_pendientes(visto0, check_list@, 19, i as int, j as int);
        antes = check_list@;
        lab_antes = lab@;
    }
    let r_est = recursive_init(lab, check_list, est, Ghost(orig), Ghost(pila2));
    let ghost lab_mid = lab@;
    if let Some(conection) = r_est {
        enlazar_en(lab, (i, j), conection, Direcciones::Este);
    }
    proof {
        lemma_tras_vecino(orig, visto0, antes, check_list@, casilla, Direcciones::Este);
        lemma_fuera_trans(orig, visto0, antes, check_list@);
        lemma_sigue_marcada(antes, check_list@, nort);
        lemma_sigue_marcada(antes, check_list@, sur);
        lemma_cambios(orig, lab0, lab_antes, lab_mid, lab@, visto0, antes, check_list@, casilla);
        assert(marcada(check_list@, est));
        lemma_pendientes(visto0, check_list@, 19, i as int, j as int);
        antes = check_list@;
        lab_antes = lab@;
    }
    let r_ost = recursive_init(lab, check_list, ost, Ghost(orig), Ghost(pila2));
    let ghost lab_mid = lab@;
    if let Some(conection) = r_ost {
        enlazar_en(lab, (i, j), conection, Direcciones::Oeste);
    }
    proof {
        lemma_tras_vecino(orig, visto0, antes, check_list@, casilla, Direcciones::Oeste);
        lemma_fuera_trans(orig, visto0, antes, check_list@);
        lemma_sigue_marcada(antes, check_list@, nort);
        lemma_sigue_marcada(antes, check_list@, sur);
        lemma_sigue_marcada(antes, check_list@, est);
        lemma_cambios(orig, lab0, lab_antes, lab_mid, lab@, visto0, antes, check_list@, casilla);
        assert(marcada(check_list@, ost));
        lemma_monotono_trans(old(check_list)@, visto0, check_list@);
        let fin = check_list@;
        assert forall|x: (usize, usize)|
            en_rango(orig, x) && crate::laberinto::casillas::casilla(orig, x) is Nodo
                && #[trigger] marcada(fin, x) && !marcada(visto0, x) implies forall|d: Direcciones|
            #[trigger] marcada(fin, vecino(orig, x, d)) by {
            if x == casilla {
                assert forall|d: Direcciones| #[trigger] marcada(fin, vecino(orig, x, d)) by {
                    match d {
                        Direcciones::Norte => assert(marcada(fin, nort)),
                        Direcciones::Sur => assert(marcada(fin, sur)),
                        Direcciones::Este => assert(marcada(fin, est)),
                        Direcciones::Oeste => assert(marcada(fin, ost)),
                    }
                }
            }
        }
        assert forall|x: (usize, usize)|
            en_rango(orig, x) && #[trigger] alcanzable(orig, visto0, casilla, x) implies marcada(
            fin,
            x,
        ) by {
            let dirs = choose|dirs: Seq<Direcciones>| #[trigger] marcha(orig, visto0, casilla, x, dirs);
            lemma_marcha_completa(orig, visto0, fin, casilla, x, dirs);
        }
    }
    Some((i, j))
}

/// Links the corridor nodes of the maze: each node within the width of the
/// first row gains a link, in each direction, to the neighbouring cell in that
/// direction (the edges wrap around) when that cell is a node. The cells are
/// reached depth first, row by row; nothing else in the maze changes.
pub fn maze_init(lab: &mut Vec<Vec<Casilla>>)
    requires
        columnas(old(lab)@) > 0 ==> dimensiones_validas(old(lab)@),
    ensures
        laberinto_enlazado(old(lab)@, final(lab)@),
{
    if lab.len() == 0 || lab[0].len() == 0 {
        return;
    }
    let fila = [false; 31];
    let mut check_list = [fila; 19];
    let ghost orig = lab@;
    let filas = lab.len();
    proof {
        assert forall|a: int, b: int| 0 <= a < 19 && 0 <= b < 31 implies !#[trigger] check_list@[a]@[b] by {
            assert(check_list@[a] == fila);
            assert(fila@[b] == false);
        }
    }
    for i in 0..filas
        invariant
            filas == orig.len(),
            invariante(orig, lab@, check_list@, Set::empty()),
            forall|a: int, b: int|
                0 <= a < i && 0 <= b < columnas(orig) ==> #[trigger] check_list@[a]@[b],
    {
        let cols = lab[0].len();
        for j in 0..cols
            invariant
                filas == orig.len(),
                i < filas,
                cols == columnas(orig),
                invariante(orig, lab@, check_list@, Set::empty()),
                forall|a: int, b: int|
                    (0 <= a < i && 0 <= b < columnas(orig)) || (a == i && 0 <= b < j)
                        ==> #[trigger] check_list@[a]@[b],
        {
            let ghost antes = check_list@;
            recursive_init(lab, &mut check_list, (i, j), Ghost(orig), Ghost(Set::empty()));
            proof {
                assert forall|a: int, b: int|
                    (0 <= a < i && 0 <= b < columnas(orig)) || (a == i && 0 <= b < j + 1)
                        implies #[trigger] check_list@[a]@[b] by {
                    if a == i && b == j {
                    } else {
                        assert(antes[a]@[b]);
                    }
                }
            }
        }
    }
    proof {
        assert forall|a: int, b: int|
            0 <= a < orig.len() && 0 <= b < orig[a]@.len() implies #[trigger] lab@[a]@[b] == if b
                < columnas(orig) {
                celda_enlazada(orig, (a as usize, b as usize))
            } else {
                orig[a]@[b]
            } by {
            if b < columnas(orig) {
                assert(check_list@[a]@[b]);
                assert(lab@[(a as usize) as int]@[(b as usize) as int] == lab@[a]@[b]);
            }
        }
    }
}

/// Every node of the maze within the width of its first row has no links.
pub open spec fn nodos_sin_enlaces(lab: Seq<Vec<Casilla>>) -> bool {
    forall|i: usize, j: usize, d: Direcciones|
        en_rango(lab, (i, j)) && casilla(lab, (i, j)) is Nodo ==> (#[trigger] casilla(
            lab,
            (i, j),
        )->Nodo_0.conexion(d) is None)
}

/// Once a maze of nodes without links is linked by `maze_init`, its links go
/// both ways: a link from node `p` in direction `d` leads to the neighbouring
/// node `q` in that direction, and `q` is linked back to `p` in the opposite
/// direction.
pub proof fn lemma_enlaces_simetricos(
    orig: Seq<Vec<Casilla>>,
    lab: Seq<Vec<Casilla>>,
    p: (usize, usize),
    d: Direcciones,
)
    requires
        dimensiones_validas(orig),
        nodos_sin_enlaces(orig),
        laberinto_enlazado(orig, lab),
        en_rango(orig, p),
        casilla(lab, p) is Nodo,
        casilla(lab, p)->Nodo_0.conexion(d) is Some,
    ensures
        ({
            let q = casilla(lab, p)->Nodo_0.conexion(d)->0;
            &&& q == vecino(orig, p, d)
            &&& en_rango(orig, q)
            &&& casilla(lab, q) is Nodo
            &&& casilla(lab, q)->Nodo_0.conexion(d.spec_opuesta()) == Some(p)
        }),
{
    let (i, j) = p;
    assert(lab[i as int]@[j as int] == celda_enlazada(orig, p));
    assert(casilla(orig, p) is Nodo);
    assert(casilla(orig, p)->Nodo_0.conexion(d) is None);
    let q = vecino(orig, p, d);
    lemma_paso_en_rango(p, d, orig.len() as int, columnas(orig));
    lemma_paso_opuesto(p, d, orig.len() as int, columnas(orig));
    assert(casilla(orig, q) is Nodo);
    assert(lab[q.0 as int]@[q.1 as int] == celda_enlazada(orig, q));
    assert(casilla(orig, q)->Nodo_0.conexion(d.spec_opuesta()) is None);
    assert(vecino(orig, q, d.spec_opuesta()) == p);
}

/// Linking a maze twice gives the maze linked once: the second `maze_init`
/// changes no cell.
pub proof fn lemma_enlazar_dos_veces(
    orig: Seq<Vec<Casilla>>,
    una: Seq<Vec<Casilla>>,
    dos: Seq<Vec<Casilla>>,
)
    requires
        dimensiones_validas(orig),
        laberinto_enlazado(orig, una),
        laberinto_enlazado(una, dos),
    ensures
        dos.len() == una.len(),
        forall|i: int, j: int|
            0 <= i < una.len() && 0 <= j < una[i]@.len() ==> #[trigger] dos[i]@[j] == una[i]@[j],
{
    assert forall|i: int, j: int| 0 <= i < una.len() && 0 <= j < una[i]@.len() implies #[trigger] dos[i]@[j]
        == una[i]@[j] by {
        if orig.len() > 0 {
            assert(una[0]@.len() == orig[0]@.len());
        }
        assert(columnas(una) == columnas(orig));
        if j < columnas(orig) {
            let p = (i as usize, j as usize);
            assert(una[i]@[j] == celda_enlazada(orig, p));
            assert(dos[i]@[j] == celda_enlazada(una, p));
            if casilla(orig, p) is Nodo {
                assert forall|d: Direcciones| #[trigger] casilla(orig, vecino(orig, p, d)) is Nodo
                    == casilla(una, vecino(una, p, d)) is Nodo by {
                    lemma_paso_en_rango(p, d, orig.len() as int, columnas(orig));
                    let q = vecino(orig, p, d);
                    assert(una[q.0 as int]@[q.1 as int] == celda_enlazada(orig, q));
                }
                assert(casilla(orig, vecino(orig, p, Direcciones::Norte)) is Nodo
                    == casilla(una, vecino(una, p, Direcciones::Norte)) is Nodo);
                assert(casilla(orig, vecino(orig, p, Direcciones::Sur)) is Nodo
                    == casilla(una, vecino(una, p, Direcciones::Sur)) is Nodo);
                assert(casilla(orig, vecino(orig, p, Direcciones::Este)) is Nodo
                    == casilla(una, vecino(una, p, Direcciones::Este)) is Nodo);
                assert(casilla(orig, vecino(orig, p, Direcciones::Oeste)) is Nodo
                    == casilla(una, vecino(una, p, Direcciones::Oeste)) is Nodo);
            }
        }
    }
}

} // verus!
