use std::collections::VecDeque;
use vstd::prelude::*;

use crate::laberinto::casillas::{
    casilla, columnas, en_rango, lemma_paso_en_rango, paso_en, rejilla, vecino, Casilla,
    Direcciones, Nodo,
};
use crate::objects::fantasmas::utils::TipoFantasma;

verus! {

/// `ruta` leads from `desde` to `hasta`: each step leaves a node of the maze by
/// one of its links and moves to the neighbouring cell in that direction (the
/// edges wrapping around).
pub open spec fn camino_valido(
    mapa: Seq<Vec<Casilla>>,
    desde: (usize, usize),
    hasta: (usize, usize),
    ruta: Seq<Direcciones>,
) -> bool
    decreases ruta.len(),
{
    if ruta.len() == 0 {
        desde == hasta
    } else {
        &&& en_rango(mapa, desde)
        &&& casilla(mapa, desde) is Nodo
        &&& casilla(mapa, desde)->Nodo_0.conexion(ruta[0]) is Some
        &&& camino_valido(mapa, vecino(mapa, desde, ruta[0]), hasta, ruta.drop_first())
    }
}

/// The outcome of a route search.
#[derive(Debug)]
pub enum EstadoRecorrido {
    /// The search started on a cell that is not a node.
    Error(&'static str),
    /// No route to the target was found from here.
    Interrump,
    /// A route was found; `None` when the search started on the target.
    Exito(Option<VecDeque<Direcciones>>),
}

/// The distance bookkeeping of a search: one entry per cell of the maze,
/// `None` for a cell not reached yet.
pub open spec fn forma_valida(mapa: Seq<Vec<Casilla>>, dist: Seq<Vec<Option<usize>>>) -> bool {
    &&& dist.len() == mapa.len()
    &&& forall|i: int| 0 <= i < dist.len() ==> #[trigger] dist[i]@.len() >= columnas(mapa)
}

/// What the search from `inicio` towards `objetivo` may answer.
pub open spec fn resultado_valido(
    mapa: Seq<Vec<Casilla>>,
    inicio: (usize, usize),
    objetivo: (usize, usize),
    r: EstadoRecorrido,
) -> bool {
    match r {
        EstadoRecorrido::Exito(None) => inicio == objetivo,
        EstadoRecorrido::Exito(Some(ruta)) => {
            &&& inicio != objetivo
            &&& ruta@.len() > 0
            &&& camino_valido(mapa, inicio, objetivo, ruta@)
        },
        EstadoRecorrido::Error(_) => inicio != objetivo && !(casilla(mapa, inicio) is Nodo),
        EstadoRecorrido::Interrump => inicio != objetivo && casilla(mapa, inicio) is Nodo,
    }
}

/// The weight of one entry of the bookkeeping: whether it is unreached (`vacios`)
/// or the distance it holds.
spec fn peso(o: Option<usize>, vacios: bool) -> nat {
    if vacios {
        if o is None {
            1
        } else {
            0
        }
    } else {
        match o {
            Some(v) => v as nat,
            None => 0,
        }
    }
}

spec fn total_fila(r: Seq<Option<usize>>, vacios: bool) -> nat
    decreases r.len(),
{
    if r.len() == 0 {
        0
    } else {
        total_fila(r.drop_last(), vacios) + peso(r.last(), vacios)
    }
}

spec fn total(d: Seq<Vec<Option<usize>>>, vacios: bool) -> nat
    decreases d.len(),
{
    if d.len() == 0 {
        0
    } else {
        total(d.drop_last(), vacios) + total_fila(d.last()@, vacios)
    }
}

/// The progress measure of the search is no larger in `a` than in `b`: fewer
/// unreached cells, or as many and no larger a sum of distances.
spec fn no_mayor(a: Seq<Vec<Option<usize>>>, b: Seq<Vec<Option<usize>>>) -> bool {
    total(a, true) < total(b, true) || (total(a, true) == total(b, true) && total(a, false)
        <= total(b, false))
}

proof fn lemma_total_fila_update(r: Seq<Option<usize>>, j: int, v: Option<usize>, vacios: bool)
    requires
        0 <= j < r.len(),
    ensures
        total_fila(r.update(j, v), vacios) + peso(r[j], vacios) == total_fila(r, vacios) + peso(
            v,
            vacios,
        ),
    decreases r.len(),
{
    let s = r.update(j, v);
    if j == r.len() - 1 {
        assert(s.drop_last() =~= r.drop_last());
    } else {
        assert(s.drop_last() =~= r.drop_last().update(j, v));
        lemma_total_fila_update(r.drop_last(), j, v, vacios);
    }
}

proof fn lemma_total_update(d: Seq<Vec<Option<usize>>>, i: int, w: Vec<Option<usize>>, vacios: bool)
    requires
        0 <= i < d.len(),
    ensures
        total(d.update(i, w), vacios) + total_fila(d[i]@, vacios) == total(d, vacios) + total_fila(
            w@,
            vacios,
        ),
    decreases d.len(),
{
    let s = d.update(i, w);
    if i == d.len() - 1 {
        assert(s.drop_last() =~= d.drop_last());
    } else {
        assert(s.drop_last() =~= d.drop_last().update(i, w));
        lemma_total_update(d.drop_last(), i, w, vacios);
    }
}

/// Writing a smaller distance into one entry lowers the progress measure.
proof fn lemma_mejora(d: Seq<Vec<Option<usize>>>, i: int, j: int, w: Vec<Option<usize>>, nd: usize)
    requires
        0 <= i < d.len(),
        0 <= j < d[i]@.len(),
        w@ == d[i]@.update(j, Some(nd)),
        d[i]@[j] matches Some(x) ==> nd < x,
    ensures
        total(d.update(i, w), true) < total(d, true) || (total(d.update(i, w), true) == total(
            d,
            true,
        ) && total(d.update(i, w), false) < total(d, false)),
{
    lemma_total_update(d, i, w, true);
    lemma_total_update(d, i, w, false);
    lemma_total_fila_update(d[i]@, j, Some(nd), true);
    lemma_total_fila_update(d[i]@, j, Some(nd), false);
}

/// The links of a node listed by `lista` are links of the node.
proof fn lemma_lista(n: Nodo)
    ensures
        forall|k: int|
            0 <= k < n.lista().len() ==> #[trigger] n.conexion(n.lista()[k].0) == Some(
                n.lista()[k].1,
            ),
{
    let a = Nodo::entrada(Direcciones::Norte, n.norte);
    let b = Nodo::entrada(Direcciones::Sur, n.sur);
    let c = Nodo::entrada(Direcciones::Este, n.este);
    let e = Nodo::entrada(Direcciones::Oeste, n.oeste);
    assert forall|k: int| 0 <= k < n.lista().len() implies #[trigger] n.conexion(n.lista()[k].0)
        == Some(n.lista()[k].1) by {
        let l = n.lista();
        assert(l == a + b + c + e);
        if k < a.len() {
            assert(l[k] == a[k]);
        } else if k < a.len() + b.len() {
            assert(l[k] == b[k - a.len()]);
        } else if k < a.len() + b.len() + c.len() {
            assert(l[k] == c[k - a.len() - b.len()]);
        } else {
            assert(l[k] == e[k - a.len() - b.len() - c.len()]);
        }
    }
}

/// The distance at which the search has reached cell `x`, if it has.
pub open spec fn distancia(d: Seq<Vec<Option<usize>>>, x: (usize, usize)) -> Option<usize> {
    d[x.0 as int]@[x.1 as int]
}

/// Every link of the node at `x`, if `x` is a node, leads to a cell the
/// search has reached.
pub open spec fn cerrada(mapa: Seq<Vec<Casilla>>, d: Seq<Vec<Option<usize>>>, x: (usize, usize)) -> bool {
    casilla(mapa, x) is Nodo ==> forall|dir: Direcciones|
        #![trigger casilla(mapa, x)->Nodo_0.conexion(dir)]
        casilla(mapa, x)->Nodo_0.conexion(dir) is Some ==> distancia(d, vecino(mapa, x, dir)) is Some
}

/// Every cell reached in `a` is reached in `b`.
pub open spec fn conserva_alcanzadas(
    mapa: Seq<Vec<Casilla>>,
    a: Seq<Vec<Option<usize>>>,
    b: Seq<Vec<Option<usize>>>,
) -> bool {
    forall|x: (usize, usize)|
        #![trigger distancia(a, x)]
        #![trigger distancia(b, x)]
        en_rango(mapa, x) && distancia(a, x) is Some ==> distancia(b, x) is Some
}

/// Between `antes` and `despues` the search has not reached the target, and
/// every cell whose distance it changed has all its links leading to reached cells.
pub open spec fn exploracion_en_curso(
    mapa: Seq<Vec<Casilla>>,
    antes: Seq<Vec<Option<usize>>>,
    despues: Seq<Vec<Option<usize>>>,
    objetivo: (usize, usize),
) -> bool {
    &&& en_rango(mapa, objetivo) ==> distancia(despues, objetivo) == distancia(antes, objetivo)
    &&& forall|x: (usize, usize)|
        #![trigger distancia(despues, x)]
        en_rango(mapa, x) && distancia(despues, x) != distancia(antes, x) ==> cerrada(
            mapa,
            despues,
            x,
        )
}

/// A search from `inicio` that found no route: as `exploracion_en_curso`, and
/// the links of `inicio` lead to reached cells when it was reached at the start.
pub open spec fn exploracion_completa(
    mapa: Seq<Vec<Casilla>>,
    antes: Seq<Vec<Option<usize>>>,
    despues: Seq<Vec<Option<usize>>>,
    inicio: (usize, usize),
    objetivo: (usize, usize),
) -> bool {
    &&& exploracion_en_curso(mapa, antes, despues, objetivo)
    &&& distancia(antes, inicio) is Some ==> cerrada(mapa, despues, inicio)
}

proof fn lemma_cerrada_monotona(
    mapa: Seq<Vec<Casilla>>,
    a: Seq<Vec<Option<usize>>>,
    b: Seq<Vec<Option<usize>>>,
    x: (usize, usize),
)
    requires
        rejilla(mapa),
        en_rango(mapa, x),
        cerrada(mapa, a, x),
        conserva_alcanzadas(mapa, a, b),
    ensures
        cerrada(mapa, b, x),
{
    if casilla(mapa, x) is Nodo {
        assert forall|dir: Direcciones| #[trigger] casilla(mapa, x)->Nodo_0.conexion(dir) is Some
            implies distancia(b, vecino(mapa, x, dir)) is Some by {
            lemma_paso_en_rango(x, dir, mapa.len() as int, columnas(mapa));
            assert(distancia(a, vecino(mapa, x, dir)) is Some);
        }
    }
}

proof fn lemma_conserva_trans(
    mapa: Seq<Vec<Casilla>>,
    a: Seq<Vec<Option<usize>>>,
    b: Seq<Vec<Option<usize>>>,
    c: Seq<Vec<Option<usize>>>,
)
    requires
        conserva_alcanzadas(mapa, a, b),
        conserva_alcanzadas(mapa, b, c),
    ensures
        conserva_alcanzadas(mapa, a, c),
{
    assert forall|x: (usize, usize)| en_rango(mapa, x) && #[trigger] distancia(a, x) is Some
        implies distancia(c, x) is Some by {
        assert(distancia(b, x) is Some);
    }
}

/// Writing `Some(nd)` into the entry of cell `y` changes that entry only.
proof fn lemma_fijar(
    mapa: Seq<Vec<Casilla>>,
    previo: Seq<Vec<Option<usize>>>,
    fijado: Seq<Vec<Option<usize>>>,
    y: (usize, usize),
    nd: usize,
)
    requires
        forma_valida(mapa, previo),
        en_rango(mapa, y),
        fijado == previo.update(y.0 as int, fijado[y.0 as int]),
        fijado[y.0 as int]@ == previo[y.0 as int]@.update(y.1 as int, Some(nd)),
    ensures
        forma_valida(mapa, fijado),
        distancia(fijado, y) == Some(nd),
        forall|x: (usize, usize)|
            en_rango(mapa, x) && x != y ==> #[trigger] distancia(fijado, x) == distancia(previo, x),
        conserva_alcanzadas(mapa, previo, fijado),
{
    assert forall|x: (usize, usize)| en_rango(mapa, x) && x != y implies #[trigger] distancia(
        fijado,
        x,
    ) == distancia(previo, x) by {
        if x.0 == y.0 {
            assert(x.1 != y.1);
        }
    }
    assert forall|x: (usize, usize)| en_rango(mapa, x) && #[trigger] distancia(previo, x) is Some
        implies distancia(fijado, x) is Some by {
        if x != y {
            assert(distancia(fijado, x) == distancia(previo, x));
        }
    }
}

/// The search through one link of a node keeps the exploration's bookkeeping.
proof fn lemma_paso_tras_busqueda(
    mapa: Seq<Vec<Casilla>>,
    entrada: Seq<Vec<Option<usize>>>,
    previo: Seq<Vec<Option<usize>>>,
    fijado: Seq<Vec<Option<usize>>>,
    despues: Seq<Vec<Option<usize>>>,
    y: (usize, usize),
    objetivo: (usize, usize),
    sin_exito: bool,
)
    requires
        rejilla(mapa),
        en_rango(mapa, y),
        conserva_alcanzadas(mapa, entrada, previo),
        conserva_alcanzadas(mapa, previo, fijado),
        conserva_alcanzadas(mapa, fijado, despues),
        distancia(fijado, y) is Some,
        forall|x: (usize, usize)|
            en_rango(mapa, x) && x != y ==> #[trigger] distancia(fijado, x) == distancia(previo, x),
        sin_exito ==> y != objetivo && exploracion_completa(mapa, fijado, despues, y, objetivo),
    ensures
        conserva_alcanzadas(mapa, entrada, despues),
        conserva_alcanzadas(mapa, previo, despues),
        sin_exito && exploracion_en_curso(mapa, entrada, previo, objetivo) ==> exploracion_en_curso(
            mapa,
            entrada,
            despues,
            objetivo,
        ),
{
    lemma_conserva_trans(mapa, entrada, previo, fijado);
    lemma_conserva_trans(mapa, entrada, fijado, despues);
    lemma_conserva_trans(mapa, previo, fijado, despues);
    if sin_exito && exploracion_en_curso(mapa, entrada, previo, objetivo) {
        if en_rango(mapa, objetivo) {
            assert(distancia(fijado, objetivo) == distancia(previo, objetivo));
        }
        assert forall|x: (usize, usize)|
            en_rango(mapa, x) && #[trigger] distancia(despues, x) != distancia(entrada, x) implies cerrada(
            mapa,
            despues,
            x,
        ) by {
            if distancia(despues, x) != distancia(fijado, x) {
            } else if x == y {
            } else {
                assert(distancia(fijado, x) == distancia(previo, x));
                assert(distancia(previo, x) != distancia(entrada, x));
                assert(cerrada(mapa, previo, x));
                lemma_cerrada_monotona(mapa, previo, despues, x);
            }
        }
    }
}

/// Each link of a node appears in `lista`.
proof fn lemma_lista_completa(n: Nodo, d: Direcciones)
    requires
        n.conexion(d) is Some,
    ensures
        exists|q: int| 0 <= q < n.lista().len() && #[trigger] n.lista()[q].0 == d,
{
    let a = Nodo::entrada(Direcciones::Norte, n.norte);
    let b = Nodo::entrada(Direcciones::Sur, n.sur);
    let c = Nodo::entrada(Direcciones::Este, n.este);
    let e = Nodo::entrada(Direcciones::Oeste, n.oeste);
    let l = n.lista();
    assert(l == a + b + c + e);
    match d {
        Direcciones::Norte => {
            assert(l[0].0 == d);
        },
        Direcciones::Sur => {
            assert(l[a.len() as int].0 == d);
        },
        Direcciones::Este => {
            assert(l[(a.len() + b.len()) as int].0 == d);
        },
        Direcciones::Oeste => {
            assert(l[(a.len() + b.len() + c.len()) as int].0 == d);
        },
    }
}

/// Once every link of the node at `inicio` has been followed, the node has all
/// its links leading to reached cells.
proof fn lemma_nodo_cerrado(
    mapa: Seq<Vec<Casilla>>,
    entrada: Seq<Vec<Option<usize>>>,
    cur: Seq<Vec<Option<usize>>>,
    inicio: (usize, usize),
    nodo: Nodo,
)
    requires
        casilla(mapa, inicio) == Casilla::Nodo(nodo),
        distancia(entrada, inicio) is Some ==> forall|q: int|
            0 <= q < nodo.lista().len() ==> #[trigger] distancia(
                cur,
                vecino(mapa, inicio, nodo.lista()[q].0),
            ) is Some,
    ensures
        distancia(entrada, inicio) is Some ==> cerrada(mapa, cur, inicio),
{
    if distancia(entrada, inicio) is Some {
        assert forall|dir: Direcciones| #[trigger] casilla(mapa, inicio)->Nodo_0.conexion(dir) is Some
            implies distancia(cur, vecino(mapa, inicio, dir)) is Some by {
            lemma_lista_completa(nodo, dir);
            let q = choose|q: int| 0 <= q < nodo.lista().len() && #[trigger] nodo.lista()[q].0 == dir;
            assert(distancia(cur, vecino(mapa, inicio, nodo.lista()[q].0)) is Some);
        }
    }
}

/// The order in which a ghost ranks routes: first those that start in its
/// preferred direction, then the shorter ones. `a` ranks strictly before `b`.
pub open spec fn clave_menor(a: Seq<Direcciones>, b: Seq<Direcciones>, tipo: TipoFantasma) -> bool {
    let pa = a[0] != tipo.spec_direccion_preferida();
    let pb = b[0] != tipo.spec_direccion_preferida();
    (!pa && pb) || (pa == pb && a.len() < b.len())
}

/// `k` is the position in `caminos` of the route that a stable sort by the
/// ghost's ranking puts first: no route ranks before it, and it ranks
/// strictly before every route that comes earlier.
pub open spec fn es_mejor(caminos: Seq<Seq<Direcciones>>, k: int, tipo: TipoFantasma) -> bool {
    &&& 0 <= k < caminos.len()
    &&& forall|m: int| 0 <= m < caminos.len() ==> !clave_menor(#[trigger] caminos[m], caminos[k], tipo)
    &&& forall|m: int| 0 <= m < k ==> clave_menor(caminos[k], #[trigger] caminos[m], tipo)
}

/// The route of `caminos` that the ghost ranks first (see `es_mejor`).
pub open spec fn mejor_camino(caminos: Seq<Seq<Direcciones>>, tipo: TipoFantasma) -> Seq<Direcciones> {
    caminos[choose|k: int| es_mejor(caminos, k, tipo)]
}

/// Only one position of a list of routes is ranked first.
pub proof fn lemma_mejor_unico(caminos: Seq<Seq<Direcciones>>, a: int, b: int, tipo: TipoFantasma)
    requires
        es_mejor(caminos, a, tipo),
        es_mejor(caminos, b, tipo),
    ensures
        a == b,
{
    if a < b {
        assert(clave_menor(caminos[b], caminos[a], tipo));
        assert(!clave_menor(caminos[b], caminos[a], tipo));
    } else if b < a {
        assert(clave_menor(caminos[a], caminos[b], tipo));
        assert(!clave_menor(caminos[a], caminos[b], tipo));
    }
}

/// The answer of a search as a value: a found route as its sequence of
/// directions.
pub enum Respuesta {
    /// The search started on a cell that is not a node.
    Error,
    /// No route to the target was found from here.
    Interrump,
    /// A route was found, as its directions; `None` on the target itself.
    Exito(Option<Seq<Direcciones>>),
}

impl EstadoRecorrido {
    /// The answer as a value, without the error's message.
    pub open spec fn respuesta(self) -> Respuesta {
        match self {
            EstadoRecorrido::Error(_) => Respuesta::Error,
            EstadoRecorrido::Interrump => Respuesta::Interrump,
            EstadoRecorrido::Exito(None) => Respuesta::Exito(None),
            EstadoRecorrido::Exito(Some(q)) => Respuesta::Exito(Some(q@)),
        }
    }
}

/// The distance bookkeeping as a table of values.
pub open spec fn tabla(d: Seq<Vec<Option<usize>>>) -> Seq<Seq<Option<usize>>> {
    Seq::new(d.len(), |i: int| d[i]@)
}

/// The distance at which a link from a cell reached at `dx` reaches its
/// neighbour, when that is shorter than `dy`, the neighbour's distance so
/// far; `None` when it is not. The count stops at the largest `usize`.
pub open spec fn mejora(dx: Option<usize>, dy: Option<usize>) -> Option<usize> {
    match dx {
        None => None,
        Some(d) => {
            let nd = if d < usize::MAX {
                (d + 1) as usize
            } else {
                d
            };
            match dy {
                None => Some(nd),
                Some(x) => if d < usize::MAX && nd < x {
                    Some(nd)
                } else {
                    None
                },
            }
        },
    }
}

/// The search from `inicio` towards `objetivo` on the distance table `t`,
/// with room for `fuel` nested searches: what it answers and the table it
/// leaves, or `None` when it would nest deeper. A search on the target
/// answers an empty route, one on a cell that is not a node an error; from a
/// node the search follows its links in turn (see `tramo`).
pub open spec fn busqueda(
    fuel: nat,
    mapa: Seq<Vec<Casilla>>,
    t: Seq<Seq<Option<usize>>>,
    inicio: (usize, usize),
    objetivo: (usize, usize),
    tipo: TipoFantasma,
) -> Option<(Respuesta, Seq<Seq<Option<usize>>>)>
    decreases fuel, 1int, 0int,
{
    if inicio == objetivo {
        Some((Respuesta::Exito(None), t))
    } else if !(casilla(mapa, inicio) is Nodo) {
        Some((Respuesta::Error, t))
    } else {
        tramo(fuel, mapa, t, inicio, objetivo, tipo, 0, Seq::empty())
    }
}

/// The search from the node at `inicio`, from its `k`-th link on (in the order
/// north, south, east, west), having found `caminos` through the links
/// before. Through each link it goes on to the neighbour only when this
/// reaches the neighbour at a shorter distance than before (see `mejora`),
/// recording that distance and searching on from there; a route found from
/// the neighbour, with the link's direction in front, joins `caminos`. After
/// the last link it answers the route of `caminos` that the ghost ranks
/// first, or `Interrump` when there is none.
pub open spec fn tramo(
    fuel: nat,
    mapa: Seq<Vec<Casilla>>,
    t: Seq<Seq<Option<usize>>>,
    inicio: (usize, usize),
    objetivo: (usize, usize),
    tipo: TipoFantasma,
    k: int,
    caminos: Seq<Seq<Direcciones>>,
) -> Option<(Respuesta, Seq<Seq<Option<usize>>>)>
    decreases fuel, 0int, casilla(mapa, inicio)->Nodo_0.lista().len() - k,
{
    let lista = casilla(mapa, inicio)->Nodo_0.lista();
    if k < 0 || k >= lista.len() {
        if caminos.len() == 0 {
            Some((Respuesta::Interrump, t))
        } else {
            Some((Respuesta::Exito(Some(mejor_camino(caminos, tipo))), t))
        }
    } else if fuel == 0 {
        None
    } else {
        let dir = lista[k].0;
        let y = vecino(mapa, inicio, dir);
        match mejora(t[inicio.0 as int][inicio.1 as int], t[y.0 as int][y.1 as int]) {
            None => tramo(fuel, mapa, t, inicio, objetivo, tipo, k + 1, caminos),
            Some(nd) => {
                let t1 = t.update(y.0 as int, t[y.0 as int].update(y.1 as int, Some(nd)));
                match busqueda((fuel - 1) as nat, mapa, t1, y, objetivo, tipo) {
                    None => None,
                    Some(salida) => tramo(
                        fuel,
                        mapa,
                        salida.1,
                        inicio,
                        objetivo,
                        tipo,
                        k + 1,
                        match salida.0 {
                            Respuesta::Exito(Some(q)) => caminos.push(seq![dir] + q),
                            Respuesta::Exito(None) => caminos.push(seq![dir]),
                            _ => caminos,
                        },
                    ),
                }
            },
        }
    }
}

/// One link of the node at `inicio` that does not reach its neighbour sooner
/// leaves the search as it was.
proof fn lemma_tramo_sin_mejora(
    g: nat,
    mapa: Seq<Vec<Casilla>>,
    t: Seq<Seq<Option<usize>>>,
    inicio: (usize, usize),
    objetivo: (usize, usize),
    tipo: TipoFantasma,
    k: int,
    caminos: Seq<Seq<Direcciones>>,
)
    requires
        casilla(mapa, inicio) is Nodo,
        0 <= k < casilla(mapa, inicio)->Nodo_0.lista().len(),
        g >= 1,
        ({
            let y = vecino(mapa, inicio, casilla(mapa, inicio)->Nodo_0.lista()[k].0);
            mejora(t[inicio.0 as int][inicio.1 as int], t[y.0 as int][y.1 as int]) is None
        }),
    ensures
        tramo(g, mapa, t, inicio, objetivo, tipo, k, caminos) == tramo(
            g,
            mapa,
            t,
            inicio,
            objetivo,
            tipo,
            k + 1,
            caminos,
        ),
{
}

/// One link of the node at `inicio` that reaches its neighbour at the shorter
/// distance `nd`: the search goes on from the neighbour, and on with the next
/// link from the table that search leaves.
proof fn lemma_tramo_con_mejora(
    g: nat,
    mapa: Seq<Vec<Casilla>>,
    t: Seq<Seq<Option<usize>>>,
    inicio: (usize, usize),
    objetivo: (usize, usize),
    tipo: TipoFantasma,
    k: int,
    caminos: Seq<Seq<Direcciones>>,
    nd: usize,
    res: Respuesta,
    t2: Seq<Seq<Option<usize>>>,
)
    requires
        casilla(mapa, inicio) is Nodo,
        0 <= k < casilla(mapa, inicio)->Nodo_0.lista().len(),
        g >= 1,
        ({
            let y = vecino(mapa, inicio, casilla(mapa, inicio)->Nodo_0.lista()[k].0);
            &&& mejora(t[inicio.0 as int][inicio.1 as int], t[y.0 as int][y.1 as int]) == Some(nd)
            &&& busqueda(
                (g - 1) as nat,
                mapa,
                t.update(y.0 as int, t[y.0 as int].update(y.1 as int, Some(nd))),
                y,
                objetivo,
                tipo,
            ) == Some((res, t2))
        }),
    ensures
        ({
            let dir = casilla(mapa, inicio)->Nodo_0.lista()[k].0;
            tramo(g, mapa, t, inicio, objetivo, tipo, k, caminos) == tramo(
                g,
                mapa,
                t2,
                inicio,
                objetivo,
                tipo,
                k + 1,
                match res {
                    Respuesta::Exito(Some(q)) => caminos.push(seq![dir] + q),
                    Respuesta::Exito(None) => caminos.push(seq![dir]),
                    _ => caminos,
                },
            )
        }),
{
}

/// A route found from the neighbour `vecino(inicio, dir)`, whose entry the
/// search lowered before searching from it, with `dir` in front: it visits no
/// cell twice and every cell after `inicio` changed, when `inicio` did not.
proof fn lemma_ruta_ampliada(
    mapa: Seq<Vec<Casilla>>,
    entrada: Seq<Vec<Option<usize>>>,
    previo: Seq<Vec<Option<usize>>>,
    fijado: Seq<Vec<Option<usize>>>,
    despues: Seq<Vec<Option<usize>>>,
    inicio: (usize, usize),
    dir: Direcciones,
    resto: Seq<Direcciones>,
    m: int,
)
    requires
        rebaja(mapa, entrada, previo, m),
        rebaja(mapa, previo, fijado, m),
        rebaja(mapa, fijado, despues, m),
        en_rango(mapa, inicio),
        en_rango(mapa, vecino(mapa, inicio, dir)),
        distancia(fijado, vecino(mapa, inicio, dir)) != distancia(previo, vecino(mapa, inicio, dir)),
        distancia(despues, inicio) == distancia(entrada, inicio),
        ruta_nueva(mapa, fijado, despues, vecino(mapa, inicio, dir), resto),
    ensures
        ruta_nueva(mapa, entrada, despues, inicio, seq![dir] + resto),
{
    let y = vecino(mapa, inicio, dir);
    lemma_rebaja_trans(mapa, entrada, previo, fijado, m, m);
    lemma_celdas_paso(mapa, inicio, dir, resto);
    let cola = celdas(mapa, y, resto);
    let s = celdas(mapa, inicio, seq![dir] + resto);
    assert(s == seq![inicio] + cola);
    lemma_sigue_cambiada(mapa, entrada, previo, fijado, m, m, y);
    assert forall|k: int| 0 <= k < cola.len() implies en_rango(mapa, #[trigger] cola[k]) && distancia(
        despues,
        cola[k],
    ) != distancia(entrada, cola[k]) by {
        if k == 0 {
            if resto.len() > 0 {
                assert(cola == seq![y] + celdas(mapa, vecino(mapa, y, resto[0]), resto.drop_first()));
            }
            assert(cola[0] == y);
            lemma_sigue_cambiada(mapa, entrada, fijado, despues, m, m, y);
        } else {
            assert(cola[k] == celdas(mapa, y, resto)[k]);
            lemma_sigue_cambiada(mapa, entrada, fijado, despues, m, m, cola[k]);
        }
    }
    assert forall|k: int| 1 <= k < s.len() implies en_rango(mapa, #[trigger] s[k]) && distancia(
        despues,
        s[k],
    ) != distancia(entrada, s[k]) by {
        assert(s[k] == cola[k - 1]);
    }
    assert forall|a: int, b: int| 0 <= a < s.len() && 0 <= b < s.len() && a != b implies s[a] != s[b] by {
        if a == 0 {
            assert(s[b] == cola[b - 1]);
        } else if b == 0 {
            assert(s[a] == cola[a - 1]);
        } else {
            assert(s[a] == cola[a - 1]);
            assert(s[b] == cola[b - 1]);
        }
    }
}

/// `n` as a distance: the count stops at the largest `usize`.
pub open spec fn tope(n: int) -> usize {
    if n < usize::MAX {
        n as usize
    } else {
        usize::MAX
    }
}

/// `a` is no farther than `b`, an unreached entry (`None`) being farther than
/// any distance.
pub open spec fn no_mas_lejos(a: Option<usize>, b: Option<usize>) -> bool {
    match b {
        None => true,
        Some(y) => match a {
            Some(x) => x <= y,
            None => false,
        },
    }
}

/// Every entry of `b` is no farther than that of `a`.
pub open spec fn baja(mapa: Seq<Vec<Casilla>>, a: Seq<Vec<Option<usize>>>, b: Seq<Vec<Option<usize>>>) -> bool {
    forall|x: (usize, usize)|
        #![trigger distancia(b, x)]
        en_rango(mapa, x) ==> no_mas_lejos(distancia(b, x), distancia(a, x))
}

/// Each link of the node at `x`, if the search reached `x`, leads to a cell at
/// most one step farther.
pub open spec fn relajada(mapa: Seq<Vec<Casilla>>, d: Seq<Vec<Option<usize>>>, x: (usize, usize)) -> bool {
    casilla(mapa, x) is Nodo && distancia(d, x) is Some ==> forall|dir: Direcciones|
        #![trigger casilla(mapa, x)->Nodo_0.conexion(dir)]
        casilla(mapa, x)->Nodo_0.conexion(dir) is Some ==> no_mas_lejos(
            distancia(d, vecino(mapa, x, dir)),
            Some(tope(distancia(d, x)->0 + 1)),
        )
}

/// After a search from `inicio` took the distances from `a` to `b`: `inicio`,
/// and every cell but the target whose distance changed, has each link
/// leading at most one step farther.
pub open spec fn relajadas(
    mapa: Seq<Vec<Casilla>>,
    a: Seq<Vec<Option<usize>>>,
    b: Seq<Vec<Option<usize>>>,
    inicio: (usize, usize),
    objetivo: (usize, usize),
) -> bool {
    forall|x: (usize, usize)|
        #![trigger distancia(b, x)]
        en_rango(mapa, x) && x != objetivo && (x == inicio || distancia(b, x) != distancia(a, x))
            ==> relajada(mapa, b, x)
}

/// As `relajadas`, leaving out `inicio`.
spec fn relajadas_salvo(
    mapa: Seq<Vec<Casilla>>,
    a: Seq<Vec<Option<usize>>>,
    b: Seq<Vec<Option<usize>>>,
    inicio: (usize, usize),
    objetivo: (usize, usize),
) -> bool {
    forall|x: (usize, usize)|
        #![trigger distancia(b, x)]
        en_rango(mapa, x) && x != objetivo && x != inicio && distancia(b, x) != distancia(a, x)
            ==> relajada(mapa, b, x)
}

/// Every cell whose distance the search from `inicio` changed from `a` to `b`
/// is the end of a route from `inicio` whose steps, counted on from the
/// distance of `inicio` in `a`, give its distance in `b`.
pub open spec fn con_testigo(
    mapa: Seq<Vec<Casilla>>,
    a: Seq<Vec<Option<usize>>>,
    b: Seq<Vec<Option<usize>>>,
    inicio: (usize, usize),
) -> bool {
    forall|x: (usize, usize)|
        #![trigger distancia(b, x)]
        en_rango(mapa, x) && distancia(b, x) != distancia(a, x) ==> exists|r: Seq<Direcciones>|
            #[trigger] camino_valido(mapa, inicio, x, r) && distancia(b, x) == Some(
                tope(distancia(a, inicio)->0 + r.len()),
            )
}

/// `w` is the least number of steps of a route from `inicio` to `objetivo`
/// along the links of the maze (see `tope`), or `None` when there is no such
/// route.
pub open spec fn distancia_minima(
    mapa: Seq<Vec<Casilla>>,
    inicio: (usize, usize),
    objetivo: (usize, usize),
    w: Option<usize>,
) -> bool {
    match w {
        None => !exists|r: Seq<Direcciones>| #[trigger] camino_valido(mapa, inicio, objetivo, r),
        Some(n) => {
            &&& exists|r: Seq<Direcciones>|
                #[trigger] camino_valido(mapa, inicio, objetivo, r) && tope(r.len() as int) == n
            &&& forall|r: Seq<Direcciones>|
                #[trigger] camino_valido(mapa, inicio, objetivo, r) ==> n <= tope(r.len() as int)
        },
    }
}

proof fn lemma_rebaja_baja(
    mapa: Seq<Vec<Casilla>>,
    a: Seq<Vec<Option<usize>>>,
    b: Seq<Vec<Option<usize>>>,
    m: int,
)
    requires
        rebaja(mapa, a, b, m),
    ensures
        baja(mapa, a, b),
{
    assert forall|x: (usize, usize)| en_rango(mapa, x) implies no_mas_lejos(
        #[trigger] distancia(b, x),
        distancia(a, x),
    ) by {
        if distancia(b, x) != distancia(a, x) {
        }
    }
}

/// A node whose distance stayed while its neighbours' only got nearer stays
/// relaxed.
proof fn lemma_relajada_baja(
    mapa: Seq<Vec<Casilla>>,
    a: Seq<Vec<Option<usize>>>,
    b: Seq<Vec<Option<usize>>>,
    x: (usize, usize),
)
    requires
        rejilla(mapa),
        en_rango(mapa, x),
        relajada(mapa, a, x),
        distancia(b, x) == distancia(a, x),
        baja(mapa, a, b),
    ensures
        relajada(mapa, b, x),
{
    if casilla(mapa, x) is Nodo && distancia(b, x) is Some {
        assert forall|dir: Direcciones| #[trigger] casilla(mapa, x)->Nodo_0.conexion(dir) is Some
            implies no_mas_lejos(
            distancia(b, vecino(mapa, x, dir)),
            Some(tope(distancia(b, x)->0 + 1)),
        ) by {
            lemma_paso_en_rango(x, dir, mapa.len() as int, columnas(mapa));
            assert(no_mas_lejos(distancia(b, vecino(mapa, x, dir)), distancia(a, vecino(mapa, x, dir))));
        }
    }
}

/// The searches through one link of `inicio` keep the neighbours relaxed.
proof fn lemma_relajadas_paso(
    mapa: Seq<Vec<Casilla>>,
    entrada: Seq<Vec<Option<usize>>>,
    previo: Seq<Vec<Option<usize>>>,
    fijado: Seq<Vec<Option<usize>>>,
    despues: Seq<Vec<Option<usize>>>,
    inicio: (usize, usize),
    objetivo: (usize, usize),
    y: (usize, usize),
)
    requires
        rejilla(mapa),
        en_rango(mapa, y),
        y != inicio,
        relajadas_salvo(mapa, entrada, previo, inicio, objetivo),
        relajadas(mapa, fijado, despues, y, objetivo),
        forall|x: (usize, usize)|
            en_rango(mapa, x) && x != y ==> #[trigger] distancia(fijado, x) == distancia(previo, x),
        baja(mapa, previo, despues),
    ensures
        relajadas_salvo(mapa, entrada, despues, inicio, objetivo),
{
    assert forall|x: (usize, usize)|
        en_rango(mapa, x) && x != objetivo && x != inicio && #[trigger] distancia(despues, x)
            != distancia(entrada, x) implies relajada(mapa, despues, x) by {
        if distancia(despues, x) != distancia(fijado, x) {
        } else if x == y {
        } else {
            assert(distancia(fijado, x) == distancia(previo, x));
            assert(relajada(mapa, previo, x));
            lemma_relajada_baja(mapa, previo, despues, x);
        }
    }
}

/// The searches through one link of `inicio` keep a route behind each cell
/// they changed.
proof fn lemma_testigos_paso(
    mapa: Seq<Vec<Casilla>>,
    entrada: Seq<Vec<Option<usize>>>,
    previo: Seq<Vec<Option<usize>>>,
    fijado: Seq<Vec<Option<usize>>>,
    despues: Seq<Vec<Option<usize>>>,
    inicio: (usize, usize),
    dir: Direcciones,
    nd: usize,
)
    requires
        en_rango(mapa, inicio),
        casilla(mapa, inicio) is Nodo,
        casilla(mapa, inicio)->Nodo_0.conexion(dir) is Some,
        distancia(entrada, inicio) is Some,
        nd == tope(distancia(entrada, inicio)->0 + 1),
        con_testigo(mapa, entrada, previo, inicio),
        distancia(fijado, vecino(mapa, inicio, dir)) == Some(nd),
        forall|x: (usize, usize)|
            en_rango(mapa, x) && x != vecino(mapa, inicio, dir) ==> #[trigger] distancia(fijado, x)
                == distancia(previo, x),
        con_testigo(mapa, fijado, despues, vecino(mapa, inicio, dir)),
    ensures
        con_testigo(mapa, entrada, despues, inicio),
{
    let y = vecino(mapa, inicio, dir);
    let v0 = distancia(entrada, inicio)->0;
    assert forall|x: (usize, usize)|
        en_rango(mapa, x) && #[trigger] distancia(despues, x) != distancia(entrada, x) implies exists|
        r: Seq<Direcciones>,
    |
        #[trigger] camino_valido(mapa, inicio, x, r) && distancia(despues, x) == Some(
            tope(v0 + r.len()),
        ) by {
        if distancia(despues, x) != distancia(fijado, x) {
            let r = choose|r: Seq<Direcciones>|
                #[trigger] camino_valido(mapa, y, x, r) && distancia(despues, x) == Some(
                    tope(distancia(fijado, y)->0 + r.len()),
                );
            let todo = seq![dir] + r;
            assert(todo.drop_first() =~= r);
            assert(todo[0] == dir);
            assert(camino_valido(mapa, inicio, x, todo));
            assert(tope(nd + r.len()) == tope(v0 + todo.len()));
        } else if x == y {
            let todo = seq![dir];
            assert(todo.drop_first() =~= Seq::<Direcciones>::empty());
            assert(camino_valido(mapa, y, y, Seq::<Direcciones>::empty()));
            assert(camino_valido(mapa, inicio, x, todo));
        } else {
            assert(distancia(fijado, x) == distancia(previo, x));
        }
    }
}

/// When every reached cell but the target is relaxed, a route of `ruta.len()`
/// steps from `a`, a cell no farther than `wa`, to the target finds the target
/// no farther than `wa` plus those steps.
proof fn lemma_recorre(
    mapa: Seq<Vec<Casilla>>,
    d: Seq<Vec<Option<usize>>>,
    objetivo: (usize, usize),
    a: (usize, usize),
    z: (usize, usize),
    ruta: Seq<Direcciones>,
    wa: int,
)
    requires
        wa >= 0,
        camino_valido(mapa, a, z, ruta),
        no_mas_lejos(distancia(d, a), Some(tope(wa))),
        forall|x: (usize, usize)|
            en_rango(mapa, x) && x != objetivo && #[trigger] distancia(d, x) is Some ==> relajada(
                mapa,
                d,
                x,
            ),
    ensures
        z == objetivo ==> no_mas_lejos(distancia(d, objetivo), Some(tope(wa + ruta.len()))),
    decreases ruta.len(),
{
    if a == objetivo {
    } else if ruta.len() > 0 {
        let siguiente = vecino(mapa, a, ruta[0]);
        assert(relajada(mapa, d, a));
        assert(casilla(mapa, a)->Nodo_0.conexion(ruta[0]) is Some);
        lemma_recorre(mapa, d, objetivo, siguiente, z, ruta.drop_first(), wa + 1);
    }
}

/// On new distances from `inicio`, a search that leaves every reached cell but
/// the target relaxed, with a route behind each, finds the target at its
/// least number of steps from `inicio`.
proof fn lemma_distancia_minima(
    mapa: Seq<Vec<Casilla>>,
    d0: Seq<Vec<Option<usize>>>,
    d1: Seq<Vec<Option<usize>>>,
    inicio: (usize, usize),
    objetivo: (usize, usize),
)
    requires
        en_rango(mapa, inicio),
        en_rango(mapa, objetivo),
        inicio != objetivo,
        distancias_iniciales(mapa, inicio, d0),
        distancia(d1, inicio) == distancia(d0, inicio),
        relajadas(mapa, d0, d1, inicio, objetivo),
        con_testigo(mapa, d0, d1, inicio),
    ensures
        distancia_minima(mapa, inicio, objetivo, distancia(d1, objetivo)),
{
    assert(distancia(d0, inicio) == Some(0usize));
    assert(distancia(d0, objetivo) is None);
    assert forall|x: (usize, usize)|
        en_rango(mapa, x) && x != objetivo && #[trigger] distancia(d1, x) is Some implies relajada(
        mapa,
        d1,
        x,
    ) by {
        if x != inicio {
            assert(distancia(d0, x) is None);
        }
    }
    assert forall|r: Seq<Direcciones>| #[trigger] camino_valido(mapa, inicio, objetivo, r) implies no_mas_lejos(
        distancia(d1, objetivo),
        Some(tope(r.len() as int)),
    ) by {
        lemma_recorre(mapa, d1, objetivo, inicio, objetivo, r, 0);
    }
    match distancia(d1, objetivo) {
        Some(n) => {
            let r = choose|r: Seq<Direcciones>|
                #[trigger] camino_valido(mapa, inicio, objetivo, r) && distancia(d1, objetivo) == Some(
                    tope(distancia(d0, inicio)->0 + r.len()),
                );
            assert(camino_valido(mapa, inicio, objetivo, r) && tope(r.len() as int) == n);
        },
        None => {
            if exists|r: Seq<Direcciones>| #[trigger] camino_valido(mapa, inicio, objetivo, r) {
                let r = choose|r: Seq<Direcciones>| #[trigger] camino_valido(mapa, inicio, objetivo, r);
                assert(no_mas_lejos(distancia(d1, objetivo), Some(tope(r.len() as int))));
            }
        },
    }
}

/// Once every link of the node at `inicio` leads at most one step farther, the
/// node is relaxed.
proof fn lemma_inicio_relajada(
    mapa: Seq<Vec<Casilla>>,
    d: Seq<Vec<Option<usize>>>,
    inicio: (usize, usize),
    nodo: Nodo,
    v0: usize,
)
    requires
        casilla(mapa, inicio) == Casilla::Nodo(nodo),
        distancia(d, inicio) == Some(v0),
        forall|q: int|
            0 <= q < nodo.lista().len() ==> no_mas_lejos(
                #[trigger] distancia(d, vecino(mapa, inicio, nodo.lista()[q].0)),
                Some(tope(v0 + 1)),
            ),
    ensures
        relajada(mapa, d, inicio),
{
    assert forall|dir: Direcciones| #[trigger] casilla(mapa, inicio)->Nodo_0.conexion(dir) is Some
        implies no_mas_lejos(distancia(d, vecino(mapa, inicio, dir)), Some(tope(v0 + 1))) by {
        lemma_lista_completa(nodo, dir);
        let q = choose|q: int| 0 <= q < nodo.lista().len() && #[trigger] nodo.lista()[q].0 == dir;
        assert(no_mas_lejos(distancia(d, vecino(mapa, inicio, nodo.lista()[q].0)), Some(tope(v0 + 1))));
    }
}

/// The link of the node at `inicio` in the ghost's preferred direction leads
/// straight to `objetivo`, and no other link does.
pub open spec fn preferida_directa(
    mapa: Seq<Vec<Casilla>>,
    inicio: (usize, usize),
    objetivo: (usize, usize),
    tipo: TipoFantasma,
) -> bool {
    &&& casilla(mapa, inicio) is Nodo
    &&& casilla(mapa, inicio)->Nodo_0.conexion(tipo.spec_direccion_preferida()) is Some
    &&& vecino(mapa, inicio, tipo.spec_direccion_preferida()) == objetivo
    &&& forall|dir: Direcciones|
        dir != tipo.spec_direccion_preferida() && #[trigger] casilla(mapa, inicio)->Nodo_0.conexion(
            dir,
        ) is Some ==> vecino(mapa, inicio, dir) != objetivo
}

/// A search from `inicio` on the distances `d` that must answer the single step
/// in the ghost's preferred direction: that link leads straight to the target
/// and no other does, `inicio` was reached, and the target is farther than one
/// step from it.
pub open spec fn preferida_alcanzable(
    mapa: Seq<Vec<Casilla>>,
    d: Seq<Vec<Option<usize>>>,
    inicio: (usize, usize),
    objetivo: (usize, usize),
    tipo: TipoFantasma,
) -> bool {
    &&& inicio != objetivo
    &&& en_rango(mapa, objetivo)
    &&& preferida_directa(mapa, inicio, objetivo, tipo)
    &&& distancia(d, inicio) matches Some(v0) && v0 + 2 <= usize::MAX && no_mas_lejos(
        Some((v0 + 2) as usize),
        distancia(d, objetivo),
    )
}

/// Each direction appears at most once among the links of a node.
proof fn lemma_lista_distinta(n: Nodo, q1: int, q2: int)
    requires
        0 <= q1 < n.lista().len(),
        0 <= q2 < n.lista().len(),
        n.lista()[q1].0 == n.lista()[q2].0,
    ensures
        q1 == q2,
{
    let a = Nodo::entrada(Direcciones::Norte, n.norte);
    let b = Nodo::entrada(Direcciones::Sur, n.sur);
    let c = Nodo::entrada(Direcciones::Este, n.este);
    let e = Nodo::entrada(Direcciones::Oeste, n.oeste);
    let l = n.lista();
    assert(l == a + b + c + e);
    assert forall|q: int| 0 <= q < l.len() implies #[trigger] l[q].0 == (if q < a.len() {
        Direcciones::Norte
    } else if q < a.len() + b.len() {
        Direcciones::Sur
    } else if q < a.len() + b.len() + c.len() {
        Direcciones::Este
    } else {
        Direcciones::Oeste
    }) by {
        if q < a.len() {
            assert(l[q] == a[q]);
        } else if q < a.len() + b.len() {
            assert(l[q] == b[q - a.len()]);
        } else if q < a.len() + b.len() + c.len() {
            assert(l[q] == c[q - a.len() - b.len()]);
        } else {
            assert(l[q] == e[q - a.len() - b.len() - c.len()]);
        }
    }
    assert(l[q1].0 == l[q2].0);
}

/// A route that starts in the preferred direction and has a single step is
/// ranked first among routes where no other route starts that way.
proof fn lemma_preferida_primera(caminos: Seq<Seq<Direcciones>>, p: int, k: int, tipo: TipoFantasma)
    requires
        0 <= p < caminos.len(),
        caminos[p] == seq![tipo.spec_direccion_preferida()],
        es_mejor(caminos, k, tipo),
        forall|m: int|
            0 <= m < caminos.len() && (#[trigger] caminos[m])[0] == tipo.spec_direccion_preferida()
                ==> caminos[m] == seq![tipo.spec_direccion_preferida()],
        forall|m: int| 0 <= m < caminos.len() ==> (#[trigger] caminos[m]).len() > 0,
    ensures
        caminos[k] == seq![tipo.spec_direccion_preferida()],
{
    assert(!clave_menor(caminos[p], caminos[k], tipo));
    assert(caminos[k].len() > 0);
}

/// The search through the `k`-th link of `inicio`, which reaches its
/// neighbour sooner, keeps what a search that must answer the preferred single
/// step needs: before the preferred link the target stays at least two steps
/// from `inicio`; after it the single step is among the routes found; and the
/// only route found that starts in the preferred direction is that step.
proof fn lemma_preferida_paso(
    mapa: Seq<Vec<Casilla>>,
    nodo: Nodo,
    inicio: (usize, usize),
    objetivo: (usize, usize),
    tipo: TipoFantasma,
    previo: Seq<Vec<Option<usize>>>,
    fijado: Seq<Vec<Option<usize>>>,
    despues: Seq<Vec<Option<usize>>>,
    acc_previo: Seq<Seq<Direcciones>>,
    acc: Seq<Seq<Direcciones>>,
    k: int,
    kf: int,
    v0: usize,
    nd: usize,
    res: Respuesta,
)
    requires
        casilla(mapa, inicio) == Casilla::Nodo(nodo),
        preferida_directa(mapa, inicio, objetivo, tipo),
        en_rango(mapa, objetivo),
        0 <= kf < nodo.lista().len(),
        nodo.lista()[kf].0 == tipo.spec_direccion_preferida(),
        0 <= k < nodo.lista().len(),
        nodo.conexion(nodo.lista()[k].0) is Some,
        v0 + 2 <= usize::MAX,
        nd == v0 + 1,
        k <= kf ==> no_mas_lejos(Some((v0 + 2) as usize), distancia(previo, objetivo)),
        k > kf ==> exists|p: int|
            0 <= p < acc_previo.len() && #[trigger] acc_previo[p] == seq![tipo.spec_direccion_preferida()],
        forall|m: int|
            0 <= m < acc_previo.len() && (#[trigger] acc_previo[m])[0] == tipo.spec_direccion_preferida()
                ==> acc_previo[m] == seq![tipo.spec_direccion_preferida()],
        forall|x: (usize, usize)|
            en_rango(mapa, x) && x != vecino(mapa, inicio, nodo.lista()[k].0) ==> #[trigger] distancia(
                fijado,
                x,
            ) == distancia(previo, x),
        rebaja(mapa, fijado, despues, cota(Some(nd))),
        vecino(mapa, inicio, nodo.lista()[k].0) == objetivo ==> res == Respuesta::Exito(None),
        acc == match res {
            Respuesta::Exito(Some(q)) => acc_previo.push(seq![nodo.lista()[k].0] + q),
            Respuesta::Exito(None) => acc_previo.push(seq![nodo.lista()[k].0]),
            _ => acc_previo,
        },
    ensures
        k + 1 <= kf ==> no_mas_lejos(Some((v0 + 2) as usize), distancia(despues, objetivo)),
        k + 1 > kf ==> exists|p: int|
            0 <= p < acc.len() && #[trigger] acc[p] == seq![tipo.spec_direccion_preferida()],
        forall|m: int|
            0 <= m < acc.len() && (#[trigger] acc[m])[0] == tipo.spec_direccion_preferida() ==> acc[m]
                == seq![tipo.spec_direccion_preferida()],
{
    let fav = tipo.spec_direccion_preferida();
    let dir = nodo.lista()[k].0;
    let y = vecino(mapa, inicio, dir);
    if dir == fav {
        lemma_lista_distinta(nodo, k, kf);
    }
    if k < kf {
        assert(dir != fav);
        assert(y != objetivo);
        assert(distancia(fijado, objetivo) == distancia(previo, objetivo));
    } else if k == kf {
        assert(y == objetivo);
        assert(acc[acc.len() - 1] == seq![fav]);
    } else {
        let p = choose|p: int| 0 <= p < acc_previo.len() && #[trigger] acc_previo[p] == seq![fav];
        assert(acc[p] == acc_previo[p]);
    }
    assert forall|m: int| 0 <= m < acc.len() && (#[trigger] acc[m])[0] == fav implies acc[m] == seq![fav] by {
        if m < acc_previo.len() {
            assert(acc[m] == acc_previo[m]);
        } else if dir == fav {
            assert(y == objetivo);
        } else {
            match res {
                Respuesta::Exito(Some(q)) => {
                    assert(acc[m] == seq![dir] + q);
                    assert(acc[m][0] == dir);
                },
                _ => {},
            }
        }
    }
}

/// The least distance the search may write from a cell reached at `v`.
pub open spec fn cota(v: Option<usize>) -> int {
    match v {
        Some(d) => if d < usize::MAX {
            d + 1
        } else {
            d as int
        },
        None => 0,
    }
}

/// From `a` to `b` the search changed only entries that it lowered: each
/// changed entry holds a distance of at least `minimo`, shorter than the one
/// it held before, if any.
pub open spec fn rebaja(
    mapa: Seq<Vec<Casilla>>,
    a: Seq<Vec<Option<usize>>>,
    b: Seq<Vec<Option<usize>>>,
    minimo: int,
) -> bool {
    forall|x: (usize, usize)|
        #![trigger distancia(b, x)]
        en_rango(mapa, x) && distancia(b, x) != distancia(a, x) ==> (distancia(b, x) matches Some(w)
            && w >= minimo && (distancia(a, x) matches Some(o) ==> w < o))
}

proof fn lemma_rebaja_trans(
    mapa: Seq<Vec<Casilla>>,
    a: Seq<Vec<Option<usize>>>,
    b: Seq<Vec<Option<usize>>>,
    c: Seq<Vec<Option<usize>>>,
    m1: int,
    m2: int,
)
    requires
        rebaja(mapa, a, b, m1),
        rebaja(mapa, b, c, m2),
        m1 <= m2,
    ensures
        rebaja(mapa, a, c, m1),
{
    assert forall|x: (usize, usize)|
        en_rango(mapa, x) && #[trigger] distancia(c, x) != distancia(a, x) implies (distancia(
        c,
        x,
    ) matches Some(w) && w >= m1 && (distancia(a, x) matches Some(o) ==> w < o)) by {
        if distancia(c, x) != distancia(b, x) {
            if distancia(b, x) != distancia(a, x) {
            }
        } else {
            assert(distancia(b, x) != distancia(a, x));
        }
    }
}

/// The cells that `ruta` visits from `desde`, `desde` first.
pub open spec fn celdas(
    mapa: Seq<Vec<Casilla>>,
    desde: (usize, usize),
    ruta: Seq<Direcciones>,
) -> Seq<(usize, usize)>
    decreases ruta.len(),
{
    if ruta.len() == 0 {
        seq![desde]
    } else {
        seq![desde] + celdas(mapa, vecino(mapa, desde, ruta[0]), ruta.drop_first())
    }
}

/// The route `ruta` from `inicio` visits no cell twice, and every cell it
/// visits after `inicio` is one whose distance changed from `a` to `b`.
pub open spec fn ruta_nueva(
    mapa: Seq<Vec<Casilla>>,
    a: Seq<Vec<Option<usize>>>,
    b: Seq<Vec<Option<usize>>>,
    inicio: (usize, usize),
    ruta: Seq<Direcciones>,
) -> bool {
    &&& celdas(mapa, inicio, ruta).no_duplicates()
    &&& forall|m: int|
        1 <= m < celdas(mapa, inicio, ruta).len() ==> en_rango(
            mapa,
            #[trigger] celdas(mapa, inicio, ruta)[m],
        ) && distancia(b, celdas(mapa, inicio, ruta)[m]) != distancia(
            a,
            celdas(mapa, inicio, ruta)[m],
        )
}

/// A step in front of a route adds the start in front of its cells.
proof fn lemma_celdas_paso(
    mapa: Seq<Vec<Casilla>>,
    desde: (usize, usize),
    d: Direcciones,
    resto: Seq<Direcciones>,
)
    ensures
        celdas(mapa, desde, seq![d] + resto) == seq![desde] + celdas(
            mapa,
            vecino(mapa, desde, d),
            resto,
        ),
{
    let ruta = seq![d] + resto;
    assert(ruta.drop_first() =~= resto);
    assert(ruta[0] == d);
}

/// An entry that changed between `a` and `b`, or between `b` and `c`, differs
/// between `a` and `c` when the search only lowers entries.
proof fn lemma_sigue_cambiada(
    mapa: Seq<Vec<Casilla>>,
    a: Seq<Vec<Option<usize>>>,
    b: Seq<Vec<Option<usize>>>,
    c: Seq<Vec<Option<usize>>>,
    m1: int,
    m2: int,
    z: (usize, usize),
)
    requires
        rebaja(mapa, a, b, m1),
        rebaja(mapa, b, c, m2),
        en_rango(mapa, z),
        distancia(c, z) != distancia(b, z) || distancia(b, z) != distancia(a, z),
    ensures
        distancia(c, z) != distancia(a, z),
{
    if distancia(c, z) != distancia(b, z) {
        if distancia(b, z) != distancia(a, z) {
        }
    }
}

/// A route whose later cells changed from `a` to `b` has them changed from
/// `a` to `c` too.
proof fn lemma_ruta_sigue_nueva(
    mapa: Seq<Vec<Casilla>>,
    a: Seq<Vec<Option<usize>>>,
    b: Seq<Vec<Option<usize>>>,
    c: Seq<Vec<Option<usize>>>,
    m1: int,
    m2: int,
    inicio: (usize, usize),
    ruta: Seq<Direcciones>,
)
    requires
        rebaja(mapa, a, b, m1),
        rebaja(mapa, b, c, m2),
        ruta_nueva(mapa, a, b, inicio, ruta),
    ensures
        ruta_nueva(mapa, a, c, inicio, ruta),
{
    let s = celdas(mapa, inicio, ruta);
    assert forall|m: int| 1 <= m < s.len() implies en_rango(mapa, #[trigger] s[m]) && distancia(c, s[m])
        != distancia(a, s[m]) by {
        lemma_sigue_cambiada(mapa, a, b, c, m1, m2, s[m]);
    }
}


/// The position of the route that a stable sort of `caminos` by the ghost's
/// ranking puts first: no route ranks before it, and it ranks strictly before
/// every route that comes earlier in `caminos`.
pub fn camino_corto(caminos: &Vec<VecDeque<Direcciones>>, tipo: TipoFantasma) -> (k: usize)
    requires
        caminos@.len() > 0,
        forall|m: int| 0 <= m < caminos@.len() ==> #[trigger] caminos@[m]@.len() > 0,
    ensures
        k < caminos@.len(),
        forall|m: int|
            0 <= m < caminos@.len() ==> !clave_menor(#[trigger] caminos@[m]@, caminos@[k as int]@, tipo),
        forall|m: int|
            0 <= m < k ==> clave_menor(caminos@[k as int]@, #[trigger] caminos@[m]@, tipo),
{
    let preferida = tipo.direccion_preferida();
    let mut mejor: usize = 0;
    let mut m: usize = 1;
    while m < caminos.len()
        invariant
            1 <= m <= caminos@.len(),
            mejor < m,
            preferida == tipo.spec_direccion_preferida(),
            forall|q: int| 0 <= q < caminos@.len() ==> #[trigger] caminos@[q]@.len() > 0,
            forall|q: int|
                0 <= q < m ==> !clave_menor(#[trigger] caminos@[q]@, caminos@[mejor as int]@, tipo),
            forall|q: int|
                0 <= q < mejor ==> clave_menor(caminos@[mejor as int]@, #[trigger] caminos@[q]@, tipo),
        decreases caminos@.len() - m,
    {
        let pm = caminos[m][0] != preferida;
        let pb = caminos[mejor][0] != preferida;
        let lm = caminos[m].len();
        let lb = caminos[mejor].len();
        if (!pm && pb) || (pm == pb && lm < lb) {
            mejor = m;
        }
        m = m + 1;
    }
    mejor
}

/// The search of `recorrido`, which also gives the number of nested searches
/// it made room for and keeps the search's progress measure from growing.
#[verifier::rlimit(100)]
#[verifier::spinoff_prover]
fn buscar(
    mapa: &Vec<Vec<Casilla>>,
    mapa_distancias: &mut Vec<Vec<Option<usize>>>,
    inicio: (usize, usize),
    objetivo: (usize, usize),
    tipo: TipoFantasma,
) -> (r: (EstadoRecorrido, Ghost<nat>))
    requires
        inicio != objetivo ==> inicio.0 < mapa@.len() && inicio.1 < mapa@[inicio.0 as int]@.len(),
        inicio != objetivo && casilla(mapa@, inicio) is Nodo ==> rejilla(mapa@) && en_rango(
            mapa@,
            inicio,
        ) && forma_valida(mapa@, old(mapa_distancias)@),
    ensures
        forall|g: nat|
            g >= r.1@ ==> busqueda(g, mapa@, tabla(old(mapa_distancias)@), inicio, objetivo, tipo)
                == Some((r.0.respuesta(), tabla(final(mapa_distancias)@))),
        inicio == objetivo || !(casilla(mapa@, inicio) is Nodo) || distancia(
            old(mapa_distancias)@,
            inicio,
        ) is None ==> final(mapa_distancias)@ == old(mapa_distancias)@,
        r.0 matches EstadoRecorrido::Error(e) ==> e@ == "error, la casilla actual no es un nodo"@,
        inicio != objetivo && casilla(mapa@, inicio) is Nodo ==> {
            &&& forma_valida(mapa@, final(mapa_distancias)@)
            &&& no_mayor(final(mapa_distancias)@, old(mapa_distancias)@)
            &&& conserva_alcanzadas(mapa@, old(mapa_distancias)@, final(mapa_distancias)@)
            &&& rebaja(
                mapa@,
                old(mapa_distancias)@,
                final(mapa_distancias)@,
                cota(distancia(old(mapa_distancias)@, inicio)),
            )
            &&& !(r.0 is Exito) ==> exploracion_completa(
                mapa@,
                old(mapa_distancias)@,
                final(mapa_distancias)@,
                inicio,
                objetivo,
            )
        },
        resultado_valido(mapa@, inicio, objetivo, r.0),
        preferida_alcanzable(mapa@, old(mapa_distancias)@, inicio, objetivo, tipo) ==> (r.0 matches EstadoRecorrido::Exito(
            Some(q),
        ) && q@ == seq![tipo.spec_direccion_preferida()]),
        relajadas(mapa@, old(mapa_distancias)@, final(mapa_distancias)@, inicio, objetivo),
        con_testigo(mapa@, old(mapa_distancias)@, final(mapa_distancias)@, inicio),
        r.0 matches EstadoRecorrido::Exito(Some(q)) ==> ruta_nueva(
            mapa@,
            old(mapa_distancias)@,
            final(mapa_distancias)@,
            inicio,
            q@,
        ),
    decreases total(old(mapa_distancias)@, true), total(old(mapa_distancias)@, false),
{
    if objetivo.0 == inicio.0 && objetivo.1 == inicio.1 {
        return (EstadoRecorrido::Exito(None), Ghost(0));
    }
    let mut posibles_caminos: Vec<VecDeque<Direcciones>> = Vec::new();
    let (i, j) = inicio;
    let nodo_actual = match &mapa[i][j] {
        Casilla::Nodo(n) => *n,
        _ => {
            return (EstadoRecorrido::Error("error, la casilla actual no es un nodo"), Ghost(0));
        },
    };
    let conexiones = nodo_actual.conections();
    let filas = mapa.len();
    let cols = mapa[0].len();
    proof {
        lemma_lista(nodo_actual);
    }
    let ghost entrada = mapa_distancias@;
    let ghost v = distancia(entrada, inicio);
    let ghost mut acc: Seq<Seq<Direcciones>> = Seq::empty();
    let ghost mut fmax: nat = 1;
    let ghost fav = tipo.spec_direccion_preferida();
    let ghost h = preferida_alcanzable(mapa@, entrada, inicio, objetivo, tipo);
    let ghost kf: int = if h {
        choose|q: int| 0 <= q < nodo_actual.lista().len() && #[trigger] nodo_actual.lista()[q].0 == fav
    } else {
        0
    };
    proof {
        if h {
            lemma_lista_completa(nodo_actual, fav);
        }
    }
    let mut k: usize = 0;
    while k < conexiones.len()
        invariant
            rejilla(mapa@),
            en_rango(mapa@, inicio),
            inicio == (i, j),
            inicio != objetivo,
            filas == mapa@.len(),
            cols == columnas(mapa@),
            casilla(mapa@, inicio) == Casilla::Nodo(nodo_actual),
            conexiones@ == nodo_actual.lista(),
            forall|q: int|
                0 <= q < nodo_actual.lista().len() ==> #[trigger] nodo_actual.conexion(
                    nodo_actual.lista()[q].0,
                ) == Some(nodo_actual.lista()[q].1),
            k <= conexiones@.len(),
            entrada == old(mapa_distancias)@,
            v == distancia(entrada, inicio),
            forma_valida(mapa@, mapa_distancias@),
            no_mayor(mapa_distancias@, entrada),
            conserva_alcanzadas(mapa@, entrada, mapa_distancias@),
            rebaja(mapa@, entrada, mapa_distancias@, cota(v)),
            v is None ==> mapa_distancias@ == entrada,
            acc.len() == posibles_caminos@.len(),
            forall|q: int| 0 <= q < acc.len() ==> #[trigger] posibles_caminos@[q]@ == acc[q],
            forall|q: int|
                0 <= q < acc.len() ==> ruta_nueva(mapa@, entrada, mapa_distancias@, inicio, #[trigger] acc[q]),
            relajadas_salvo(mapa@, entrada, mapa_distancias@, inicio, objetivo),
            fav == tipo.spec_direccion_preferida(),
            h == preferida_alcanzable(mapa@, entrada, inicio, objetivo, tipo),
            h ==> 0 <= kf < nodo_actual.lista().len() && nodo_actual.lista()[kf].0 == fav,
            h && k <= kf ==> no_mas_lejos(Some((v->0 + 2) as usize), distancia(mapa_distancias@, objetivo)),
            h && k > kf ==> exists|p: int| 0 <= p < acc.len() && #[trigger] acc[p] == seq![fav],
            h ==> forall|m: int|
                0 <= m < acc.len() && (#[trigger] acc[m])[0] == fav ==> acc[m] == seq![fav],
            con_testigo(mapa@, entrada, mapa_distancias@, inicio),
            v is Some ==> forall|q: int|
                0 <= q < k ==> no_mas_lejos(
                    #[trigger] distancia(mapa_distancias@, vecino(mapa@, inicio, nodo_actual.lista()[q].0)),
                    Some(tope(v->0 + 1)),
                ),
            fmax >= 1,
            forall|g: nat|
                g >= fmax ==> tramo(g, mapa@, tabla(entrada), inicio, objetivo, tipo, 0, Seq::empty())
                    == tramo(g, mapa@, tabla(mapa_distancias@), inicio, objetivo, tipo, k as int, acc),
            forall|q: int|
                0 <= q < posibles_caminos@.len() ==> #[trigger] posibles_caminos@[q]@.len() > 0
                    && camino_valido(mapa@, inicio, objetivo, posibles_caminos@[q]@),
            posibles_caminos@.len() == 0 ==> exploracion_en_curso(
                mapa@,
                entrada,
                mapa_distancias@,
                objetivo,
            ),
            posibles_caminos@.len() == 0 && distancia(entrada, inicio) is Some ==> forall|q: int|
                0 <= q < k ==> #[trigger] distancia(
                    mapa_distancias@,
                    vecino(mapa@, inicio, nodo_actual.lista()[q].0),
                ) is Some,
        decreases conexiones@.len() - k,
    {
        let coneccion = conexiones[k].0;
        let siguiente = paso_en(i, j, coneccion, filas, cols);
        let (n_i, n_j) = siguiente;
        let ghost previo = mapa_distancias@;
        let ghost acc_previo = acc;
        proof {
            assert(nodo_actual.conexion(nodo_actual.lista()[k as int].0) == Some(
                nodo_actual.lista()[k as int].1,
            ));
            assert(siguiente == vecino(mapa@, inicio, coneccion));
            lemma_paso_en_rango(inicio, coneccion, mapa@.len() as int, columnas(mapa@));
            if distancia(previo, inicio) != v {
                assert(distancia(previo, inicio) matches Some(w) && w >= cota(v));
            }
            assert(distancia(previo, inicio) == v);
            assert(tabla(previo)[i as int][j as int] == distancia(previo, inicio));
            assert(tabla(previo)[n_i as int][n_j as int] == distancia(previo, siguiente));
        }
        let mejora_local: Option<usize> = match mapa_distancias[i][j] {
            Some(d) => {
                let nd = if d < usize::MAX {
                    d + 1
                } else {
                    d
                };
                match mapa_distancias[n_i][n_j] {
                    None => Some(nd),
                    Some(x) => if d < usize::MAX && nd < x {
                        Some(nd)
                    } else {
                        None
                    },
                }
            },
            None => None,
        };
        proof {
            assert(mejora_local == mejora(distancia(previo, inicio), distancia(previo, siguiente)));
        }
        if let Some(nd) = mejora_local {
            mapa_distancias[n_i][n_j] = Some(nd);
            let ghost fijado = mapa_distancias@;
            proof {
                lemma_mejora(previo, n_i as int, n_j as int, mapa_distancias@[n_i as int], nd);
                assert(mapa_distancias@ == previo.update(n_i as int, mapa_distancias@[n_i as int]));
                lemma_fijar(mapa@, previo, fijado, siguiente, nd);
                assert(tabla(fijado) =~= tabla(previo).update(
                    n_i as int,
                    tabla(previo)[n_i as int].update(n_j as int, Some(nd)),
                ));
                assert(rebaja(mapa@, previo, fijado, cota(v)));
                lemma_rebaja_trans(mapa@, entrada, previo, fijado, cota(v), cota(v));
                assert(nd as int == cota(v));
            }
            let (resultado, Ghost(f_sub)) = buscar(mapa, mapa_distancias, siguiente, objetivo, tipo);
            proof {
                lemma_paso_tras_busqueda(
                    mapa@,
                    entrada,
                    previo,
                    fijado,
                    mapa_distancias@,
                    siguiente,
                    objetivo,
                    !(resultado is Exito),
                );
                if siguiente != objetivo && casilla(mapa@, siguiente) is Nodo {
                    assert(cota(v) <= cota(Some(nd)));
                    lemma_rebaja_trans(mapa@, entrada, fijado, mapa_distancias@, cota(v), cota(Some(nd)));
                } else {
                    assert(mapa_distancias@ == fijado);
                }
                assert(rebaja(mapa@, fijado, mapa_distancias@, cota(Some(nd))));
                assert(rebaja(mapa@, fijado, mapa_distancias@, cota(v)));
                let despues0 = mapa_distancias@;
                lemma_rebaja_trans(mapa@, entrada, previo, fijado, cota(v), cota(v));
                lemma_rebaja_trans(mapa@, entrada, fijado, despues0, cota(v), cota(v));
                lemma_rebaja_trans(mapa@, previo, fijado, despues0, cota(v), cota(v));
                if distancia(despues0, inicio) != v {
                    assert(distancia(despues0, inicio) matches Some(w) && w >= cota(v));
                }
                assert forall|q: int| 0 <= q < acc_previo.len() implies ruta_nueva(
                    mapa@,
                    entrada,
                    despues0,
                    inicio,
                    #[trigger] acc_previo[q],
                ) by {
                    lemma_ruta_sigue_nueva(mapa@, entrada, previo, despues0, cota(v), cota(v), inicio, acc_previo[q]);
                }
                assert(siguiente != inicio);
                lemma_rebaja_baja(mapa@, previo, despues0, cota(v));
                lemma_rebaja_baja(mapa@, fijado, despues0, cota(v));
                lemma_relajadas_paso(mapa@, entrada, previo, fijado, despues0, inicio, objetivo, siguiente);
                lemma_testigos_paso(mapa@, entrada, previo, fijado, despues0, inicio, coneccion, nd);
                assert forall|q: int| 0 <= q < k + 1 implies no_mas_lejos(
                    #[trigger] distancia(despues0, vecino(mapa@, inicio, nodo_actual.lista()[q].0)),
                    Some(tope(v->0 + 1)),
                ) by {
                    lemma_paso_en_rango(inicio, nodo_actual.lista()[q].0, mapa@.len() as int, columnas(mapa@));
                }
                match resultado.respuesta() {
                    Respuesta::Exito(Some(q)) => {
                        lemma_ruta_ampliada(mapa@, entrada, previo, fijado, despues0, inicio, coneccion, q, cota(v));
                    },
                    Respuesta::Exito(None) => {
                        lemma_ruta_ampliada(
                            mapa@,
                            entrada,
                            previo,
                            fijado,
                            despues0,
                            inicio,
                            coneccion,
                            Seq::empty(),
                            cota(v),
                        );
                        assert(seq![coneccion] + Seq::<Direcciones>::empty() =~= seq![coneccion]);
                    },
                    _ => {},
                }
                acc = match resultado.respuesta() {
                    Respuesta::Exito(Some(q)) => acc_previo.push(seq![coneccion] + q),
                    Respuesta::Exito(None) => acc_previo.push(seq![coneccion]),
                    _ => acc_previo,
                };
                let despues = mapa_distancias@;
                assert forall|g: nat| g >= fmax + f_sub + 1 implies tramo(
                    g,
                    mapa@,
                    tabla(previo),
                    inicio,
                    objetivo,
                    tipo,
                    k as int,
                    acc_previo,
                ) == tramo(g, mapa@, tabla(despues), inicio, objetivo, tipo, k + 1, acc) by {
                    assert((g - 1) as nat >= f_sub);
                    lemma_tramo_con_mejora(
                        g,
                        mapa@,
                        tabla(previo),
                        inicio,
                        objetivo,
                        tipo,
                        k as int,
                        acc_previo,
                        nd,
                        resultado.respuesta(),
                        tabla(despues),
                    );
                }
                if h {
                    assert(coneccion == nodo_actual.lista()[k as int].0);
                    if siguiente == objetivo {
                        assert(resultado.respuesta() == Respuesta::Exito(None));
                    }
                    lemma_preferida_paso(
                        mapa@,
                        nodo_actual,
                        inicio,
                        objetivo,
                        tipo,
                        previo,
                        fijado,
                        despues,
                        acc_previo,
                        acc,
                        k as int,
                        kf,
                        v->0,
                        nd,
                        resultado.respuesta(),
                    );
                }
                fmax = fmax + f_sub + 1;
            }
            match resultado {
                EstadoRecorrido::Exito(Some(recorrido)) => {
                    let mut recorrido = recorrido;
                    let ghost resto = recorrido@;
                    recorrido.push_front(coneccion);
                    proof {
                        assert(recorrido@.drop_first() =~= resto);
                        assert(recorrido@[0] == coneccion);
                        assert(recorrido@ =~= seq![coneccion] + resto);
                        assert(camino_valido(mapa@, siguiente, objetivo, resto));
                        assert(camino_valido(mapa@, inicio, objetivo, recorrido@));
                    }
                    posibles_caminos.push(recorrido);
                },
                EstadoRecorrido::Exito(None) => {
                    let mut recorrido: VecDeque<Direcciones> = VecDeque::new();
                    recorrido.push_back(coneccion);
                    proof {
                        assert(recorrido@ =~= seq![coneccion]);
                        assert(recorrido@.drop_first() =~= Seq::<Direcciones>::empty());
                        assert(camino_valido(mapa@, siguiente, objetivo, Seq::<Direcciones>::empty()));
                        assert(camino_valido(mapa@, inicio, objetivo, recorrido@));
                    }
                    posibles_caminos.push(recorrido);
                },
                _ => {},
            }
        } else {
            proof {
                assert forall|g: nat| g >= fmax implies tramo(
                    g,
                    mapa@,
                    tabla(previo),
                    inicio,
                    objetivo,
                    tipo,
                    k as int,
                    acc,
                ) == tramo(g, mapa@, tabla(previo), inicio, objetivo, tipo, k + 1, acc) by {
                    lemma_tramo_sin_mejora(g, mapa@, tabla(previo), inicio, objetivo, tipo, k as int, acc);
                }
                if v is Some {
                    assert(no_mas_lejos(distancia(previo, siguiente), Some(tope(v->0 + 1))));
                }
                if h && k <= kf {
                    if k == kf {
                        assert(siguiente == objetivo);
                    } else if coneccion == fav {
                        lemma_lista_distinta(nodo_actual, k as int, kf);
                    }
                }
            }
        }
        proof {
            if posibles_caminos@.len() == 0 && distancia(entrada, inicio) is Some {
                assert forall|q: int| 0 <= q < k + 1 implies #[trigger] distancia(
                    mapa_distancias@,
                    vecino(mapa@, inicio, nodo_actual.lista()[q].0),
                ) is Some by {
                    lemma_paso_en_rango(inicio, nodo_actual.lista()[q].0, mapa@.len() as int, columnas(mapa@));
                    if q < k {
                        assert(distancia(previo, vecino(mapa@, inicio, nodo_actual.lista()[q].0)) is Some);
                    } else {
                        assert(distancia(previo, inicio) is Some);
                    }
                }
            }
        }
        k = k + 1;
    }
    proof {
        if posibles_caminos@.len() == 0 {
            lemma_nodo_cerrado(mapa@, entrada, mapa_distancias@, inicio, nodo_actual);
        }
    }
    proof {
        if v is Some {
            lemma_inicio_relajada(mapa@, mapa_distancias@, inicio, nodo_actual, v->0);
        }
        if distancia(mapa_distancias@, inicio) != v {
            assert(distancia(mapa_distancias@, inicio) matches Some(w) && w >= cota(v));
        }
    }
    if posibles_caminos.len() == 0 {
        proof {
            if h {
                let p = choose|p: int| 0 <= p < acc.len() && #[trigger] acc[p] == seq![fav];
            }
            assert forall|g: nat| g >= fmax implies busqueda(
                g,
                mapa@,
                tabla(entrada),
                inicio,
                objetivo,
                tipo,
            ) == Some((Respuesta::Interrump, tabla(mapa_distancias@))) by {
                assert(busqueda(g, mapa@, tabla(entrada), inicio, objetivo, tipo) == tramo(
                    g,
                    mapa@,
                    tabla(entrada),
                    inicio,
                    objetivo,
                    tipo,
                    0,
                    Seq::empty(),
                ));
                assert(tramo(g, mapa@, tabla(mapa_distancias@), inicio, objetivo, tipo, k as int, acc)
                    == Some((Respuesta::Interrump, tabla(mapa_distancias@))));
            }
        }
        return (EstadoRecorrido::Interrump, Ghost(fmax));
    }
    let ghost encontrados = posibles_caminos@;
    let camino = camino_corto(&posibles_caminos, tipo);
    proof {
        if h {
            let p = choose|p: int| 0 <= p < acc.len() && #[trigger] acc[p] == seq![fav];
            assert(es_mejor(acc, camino as int, tipo)) by {
                assert forall|m: int| 0 <= m < acc.len() implies !clave_menor(
                    #[trigger] acc[m],
                    acc[camino as int],
                    tipo,
                ) by {
                    assert(encontrados[m]@ == acc[m]);
                }
                assert forall|m: int| 0 <= m < camino implies clave_menor(
                    acc[camino as int],
                    #[trigger] acc[m],
                    tipo,
                ) by {
                    assert(encontrados[m]@ == acc[m]);
                }
            }
            assert forall|m: int| 0 <= m < acc.len() implies (#[trigger] acc[m]).len() > 0 by {
                assert(encontrados[m]@ == acc[m]);
            }
            lemma_preferida_primera(acc, p, camino as int, tipo);
        }
    }
    let elegido = posibles_caminos.remove(camino);
    proof {
        assert forall|m: int| 0 <= m < acc.len() implies !clave_menor(
            #[trigger] acc[m],
            acc[camino as int],
            tipo,
        ) by {
            assert(encontrados[m]@ == acc[m]);
        }
        assert forall|m: int| 0 <= m < camino implies clave_menor(
            acc[camino as int],
            #[trigger] acc[m],
            tipo,
        ) by {
            assert(encontrados[m]@ == acc[m]);
        }
        assert(es_mejor(acc, camino as int, tipo));
        let c = choose|c: int| es_mejor(acc, c, tipo);
        lemma_mejor_unico(acc, camino as int, c, tipo);
        assert(elegido@ == mejor_camino(acc, tipo));
        assert forall|g: nat| g >= fmax implies busqueda(
            g,
            mapa@,
            tabla(entrada),
            inicio,
            objetivo,
            tipo,
        ) == Some((Respuesta::Exito(Some(elegido@)), tabla(mapa_distancias@))) by {
            assert(busqueda(g, mapa@, tabla(entrada), inicio, objetivo, tipo) == tramo(
                g,
                mapa@,
                tabla(entrada),
                inicio,
                objetivo,
                tipo,
                0,
                Seq::empty(),
            ));
            assert(tramo(g, mapa@, tabla(mapa_distancias@), inicio, objetivo, tipo, k as int, acc)
                == Some((Respuesta::Exito(Some(mejor_camino(acc, tipo))), tabla(mapa_distancias@))));
        }
    }
    (EstadoRecorrido::Exito(Some(elegido)), Ghost(fmax))
}

/// Searches, depth first, for a route from `inicio` to `objetivo` along the
/// links of the maze, and keeps in `mapa_distancias` the shortest distance from
/// the start of the search at which each cell has been reached. What it
/// answers and the table it leaves are those of `busqueda`: from a node it
/// tries each link in turn, going on to the neighbour only when this reaches it
/// at a shorter distance than before, and among the routes found through its
/// links it answers the one the ghost ranks first (see `camino_corto`). It only
/// lowers distances, never below one more than the start's, so the start's
/// entry stays as it was; on the target, or on a cell that is not a node, it
/// leaves the table as it was. A route it answers visits no cell twice. On new
/// distances (see `distancias_iniciales`) it leaves the target at its least
/// number of steps from the start, or unreached when no route leads there.
/// When the ghost's preferred link of the start leads straight to the target
/// and no other link does, it answers that single step (see
/// `preferida_alcanzable`).
pub fn recorrido(
    mapa: &Vec<Vec<Casilla>>,
    mapa_distancias: &mut Vec<Vec<Option<usize>>>,
    inicio: (usize, usize),
    objetivo: (usize, usize),
    tipo: TipoFantasma,
) -> (r: EstadoRecorrido)
    requires
        inicio != objetivo ==> inicio.0 < mapa@.len() && inicio.1 < mapa@[inicio.0 as int]@.len(),
        inicio != objetivo && casilla(mapa@, inicio) is Nodo ==> rejilla(mapa@) && en_rango(
            mapa@,
            inicio,
        ) && forma_valida(mapa@, old(mapa_distancias)@),
    ensures
        exists|f: nat|
            busqueda(f, mapa@, tabla(old(mapa_distancias)@), inicio, objetivo, tipo) == Some(
                (r.respuesta(), tabla(final(mapa_distancias)@)),
            ),
        inicio == objetivo || !(casilla(mapa@, inicio) is Nodo) || distancia(
            old(mapa_distancias)@,
            inicio,
        ) is None ==> final(mapa_distancias)@ == old(mapa_distancias)@,
        r matches EstadoRecorrido::Error(e) ==> e@ == "error, la casilla actual no es un nodo"@,
        inicio != objetivo && casilla(mapa@, inicio) is Nodo ==> {
            &&& forma_valida(mapa@, final(mapa_distancias)@)
            &&& conserva_alcanzadas(mapa@, old(mapa_distancias)@, final(mapa_distancias)@)
            &&& rebaja(
                mapa@,
                old(mapa_distancias)@,
                final(mapa_distancias)@,
                cota(distancia(old(mapa_distancias)@, inicio)),
            )
            &&& distancia(final(mapa_distancias)@, inicio) == distancia(
                old(mapa_distancias)@,
                inicio,
            )
            &&& !(r is Exito) ==> exploracion_completa(
                mapa@,
                old(mapa_distancias)@,
                final(mapa_distancias)@,
                inicio,
                objetivo,
            )
        },
        resultado_valido(mapa@, inicio, objetivo, r),
        inicio != objetivo && casilla(mapa@, inicio) is Nodo && en_rango(mapa@, objetivo)
            && distancias_iniciales(mapa@, inicio, old(mapa_distancias)@) ==> distancia_minima(
            mapa@,
            inicio,
            objetivo,
            distancia(final(mapa_distancias)@, objetivo),
        ),
        preferida_alcanzable(mapa@, old(mapa_distancias)@, inicio, objetivo, tipo) ==> (r matches EstadoRecorrido::Exito(
            Some(q),
        ) && q@ == seq![tipo.spec_direccion_preferida()]),
        r matches EstadoRecorrido::Exito(Some(q)) ==> ruta_nueva(
            mapa@,
            old(mapa_distancias)@,
            final(mapa_distancias)@,
            inicio,
            q@,
        ),
{
    let (r, Ghost(f)) = buscar(mapa, mapa_distancias, inicio, objetivo, tipo);
    proof {
        if inicio != objetivo && casilla(mapa@, inicio) is Nodo {
            let a = old(mapa_distancias)@;
            let b = mapa_distancias@;
            if distancia(b, inicio) != distancia(a, inicio) {
                assert(distancia(b, inicio) matches Some(w) && w >= cota(distancia(a, inicio)));
            }
        }
        assert(busqueda(f, mapa@, tabla(old(mapa_distancias)@), inicio, objetivo, tipo) == Some(
            (r.respuesta(), tabla(mapa_distancias@)),
        ));
        if inicio != objetivo && casilla(mapa@, inicio) is Nodo && en_rango(mapa@, objetivo)
            && distancias_iniciales(mapa@, inicio, old(mapa_distancias)@) {
            lemma_distancia_minima(mapa@, old(mapa_distancias)@, mapa_distancias@, inicio, objetivo);
        }
    }
    r
}

/// The distance bookkeeping of a new search: every cell unreached but `inicio`,
/// which lies at distance 0.
pub open spec fn distancias_iniciales(
    mapa: Seq<Vec<Casilla>>,
    inicio: (usize, usize),
    dist: Seq<Vec<Option<usize>>>,
) -> bool {
    &&& dist.len() == mapa.len()
    &&& forall|i: int| 0 <= i < dist.len() ==> #[trigger] dist[i]@.len() == columnas(mapa)
    &&& forall|i: int, j: int|
        0 <= i < dist.len() && 0 <= j < columnas(mapa) ==> #[trigger] dist[i]@[j] == if i
            == inicio.0 && j == inicio.1 {
            Some(0usize)
        } else {
            None::<usize>
        }
}

/// The distance table of a new search from `inicio`: every cell unreached but
/// `inicio`, at distance 0.
pub open spec fn tabla_inicial(mapa: Seq<Vec<Casilla>>, inicio: (usize, usize)) -> Seq<
    Seq<Option<usize>>,
> {
    Seq::new(
        mapa.len(),
        |i: int|
            Seq::new(
                columnas(mapa) as nat,
                |j: int|
                    if i == inicio.0 && j == inicio.1 {
                        Some(0usize)
                    } else {
                        None::<usize>
                    },
            ),
    )
}

/// The distance bookkeeping of a new search from `inicio`: every cell
/// unreached but `inicio`, at distance 0.
pub fn distancias_nuevas(mapa: &Vec<Vec<Casilla>>, inicio: (usize, usize)) -> (dist: Vec<
    Vec<Option<usize>>,
>)
    requires
        en_rango(mapa@, inicio),
    ensures
        distancias_iniciales(mapa@, inicio, dist@),
{
    let filas = mapa.len();
    let cols = mapa[0].len();
    let mut dist: Vec<Vec<Option<usize>>> = Vec::new();
    let mut a: usize = 0;
    while a < filas
        invariant
            filas == mapa@.len(),
            cols == columnas(mapa@),
            a <= filas,
            dist@.len() == a,
            forall|i: int| 0 <= i < a ==> #[trigger] dist@[i]@.len() == cols,
            forall|i: int, j: int|
                0 <= i < a && 0 <= j < cols ==> #[trigger] dist@[i]@[j] == if i == inicio.0 && j
                    == inicio.1 {
                    Some(0usize)
                } else {
                    None::<usize>
                },
        decreases filas - a,
    {
        let mut fila: Vec<Option<usize>> = Vec::new();
        let mut b: usize = 0;
        while b < cols
            invariant
                b <= cols,
                fila@.len() == b,
                forall|j: int|
                    0 <= j < b ==> #[trigger] fila@[j] == if a == inicio.0 && j == inicio.1 {
                        Some(0usize)
                    } else {
                        None::<usize>
                    },
            decreases cols - b,
        {
            if a == inicio.0 && b == inicio.1 {
                fila.push(Some(0));
            } else {
                fila.push(None);
            }
            b = b + 1;
        }
        dist.push(fila);
        a = a + 1;
    }
    dist
}

/// A route leads from the start of the search to a reached cell when every
/// reached cell has its links leading to reached cells.
proof fn lemma_camino_alcanza(
    mapa: Seq<Vec<Casilla>>,
    d: Seq<Vec<Option<usize>>>,
    desde: (usize, usize),
    hasta: (usize, usize),
    ruta: Seq<Direcciones>,
)
    requires
        rejilla(mapa),
        camino_valido(mapa, desde, hasta, ruta),
        distancia(d, desde) is Some,
        forall|x: (usize, usize)|
            en_rango(mapa, x) && #[trigger] distancia(d, x) is Some ==> cerrada(mapa, d, x),
    ensures
        distancia(d, hasta) is Some,
    decreases ruta.len(),
{
    if ruta.len() > 0 {
        let siguiente = vecino(mapa, desde, ruta[0]);
        assert(cerrada(mapa, d, desde));
        assert(casilla(mapa, desde)->Nodo_0.conexion(ruta[0]) is Some);
        lemma_camino_alcanza(mapa, d, siguiente, hasta, ruta.drop_first());
    }
}

/// A route of at least one step ends inside the maze.
pub proof fn lemma_camino_en_rango(
    mapa: Seq<Vec<Casilla>>,
    desde: (usize, usize),
    hasta: (usize, usize),
    ruta: Seq<Direcciones>,
)
    requires
        rejilla(mapa),
        ruta.len() > 0,
        camino_valido(mapa, desde, hasta, ruta),
    ensures
        en_rango(mapa, hasta),
    decreases ruta.len(),
{
    let siguiente = vecino(mapa, desde, ruta[0]);
    lemma_paso_en_rango(desde, ruta[0], mapa.len() as int, columnas(mapa));
    assert(camino_valido(mapa, siguiente, hasta, ruta.drop_first()));
    if ruta.len() > 1 {
        lemma_camino_en_rango(mapa, siguiente, hasta, ruta.drop_first());
    } else {
        assert(ruta.drop_first().len() == 0);
        assert(siguiente == hasta);
    }
}

/// The route a ghost of kind `tipo` standing at `inicio` plans towards
/// `objetivo`: the route that a new search answers (see `recorrido` and
/// `busqueda`), the one the ghost ranks first among those found; `None` when
/// the ghost already stands on the target or the search found no route, which
/// happens only when no route leads there.
pub fn calcular_ruta(
    mapa: &Vec<Vec<Casilla>>,
    inicio: (usize, usize),
    objetivo: (usize, usize),
    tipo: TipoFantasma,
) -> (r: Option<VecDeque<Direcciones>>)
    requires
        rejilla(mapa@),
        en_rango(mapa@, inicio),
        inicio == objetivo || casilla(mapa@, inicio) is Nodo,
    ensures
        inicio == objetivo ==> r is None,
        r matches Some(ruta) ==> ruta@.len() > 0 && camino_valido(mapa@, inicio, objetivo, ruta@),
        inicio != objetivo && (exists|ruta: Seq<Direcciones>|
            camino_valido(mapa@, inicio, objetivo, ruta)) ==> r is Some,
        inicio != objetivo && en_rango(mapa@, objetivo) && preferida_directa(
            mapa@,
            inicio,
            objetivo,
            tipo,
        ) ==> (r matches Some(q) && q@ == seq![tipo.spec_direccion_preferida()]),
        exists|f: nat|
            #[trigger] busqueda(f, mapa@, tabla_inicial(mapa@, inicio), inicio, objetivo, tipo) matches Some(
                salida,
            ) && salida.0 == match r {
                Some(ruta) => Respuesta::Exito(Some(ruta@)),
                None => if inicio == objetivo {
                    Respuesta::Exito(None)
                } else {
                    Respuesta::Interrump
                },
            },
{
    let mut mapa_distancias = distancias_nuevas(mapa, inicio);
    let ghost d0 = mapa_distancias@;
    let resultado = recorrido(mapa, &mut mapa_distancias, inicio, objetivo, tipo);
    proof {
        assert forall|a: int| 0 <= a < mapa@.len() implies #[trigger] tabla(d0)[a] =~= tabla_inicial(
            mapa@,
            inicio,
        )[a] by {
            assert(tabla(d0)[a] == d0[a]@);
        }
        assert(tabla(d0) =~= tabla_inicial(mapa@, inicio));
        let f = choose|f: nat|
            #[trigger] busqueda(f, mapa@, tabla(d0), inicio, objetivo, tipo) == Some(
                (resultado.respuesta(), tabla(mapa_distancias@)),
            );
        assert(busqueda(f, mapa@, tabla_inicial(mapa@, inicio), inicio, objetivo, tipo) == Some(
            (resultado.respuesta(), tabla(mapa_distancias@)),
        ));
    }
    proof {
        if inicio != objetivo && !(resultado is Exito) && exists|ruta: Seq<Direcciones>|
            camino_valido(mapa@, inicio, objetivo, ruta) {
            let ruta = choose|ruta: Seq<Direcciones>| camino_valido(mapa@, inicio, objetivo, ruta);
            let d1 = mapa_distancias@;
            assert(distancia(d0, inicio) == Some(0usize));
            assert forall|x: (usize, usize)|
                en_rango(mapa@, x) && #[trigger] distancia(d1, x) is Some implies cerrada(mapa@, d1, x) by {
                if x != inicio {
                    assert(distancia(d0, x) is None);
                }
            }
            lemma_camino_alcanza(mapa@, d1, inicio, objetivo, ruta);
            lemma_camino_en_rango(mapa@, inicio, objetivo, ruta);
            assert(distancia(d0, objetivo) is None);
        }
    }
    match resultado {
        EstadoRecorrido::Interrump => None,
        EstadoRecorrido::Error(_) => None,
        EstadoRecorrido::Exito(ruta) => ruta,
    }
}

/// Whether the grid point `p`, given as (x: column, y: row), is a node of the maze.
pub open spec fn es_nodo_en(mapa: Seq<Vec<Casilla>>, p: (int, int)) -> bool {
    &&& 0 <= p.1 < mapa.len()
    &&& 0 <= p.0 < mapa[p.1]@.len()
    &&& mapa[p.1]@[p.0] is Nodo
}

/// The first node on the staircase that runs from `p` towards the origin,
/// stepping left while x exceeds y and up otherwise; `respaldo` when the
/// staircase leaves the grid first.
pub open spec fn escalera(mapa: Seq<Vec<Casilla>>, p: (int, int), respaldo: (int, int)) -> (int, int)
    decreases p.0 + p.1 + 1,
{
    if p.0 < 0 || p.1 < 0 {
        respaldo
    } else if es_nodo_en(mapa, p) {
        p
    } else if p.0 > p.1 {
        escalera(mapa, (p.0 - 1, p.1), respaldo)
    } else {
        escalera(mapa, (p.0, p.1 - 1), respaldo)
    }
}

/// Pac-Man's position two cells ahead in the direction it moves (its own
/// position when it stands still).
pub open spec fn adelante(pacman: (i32, i32), direccion: Option<Direcciones>) -> (int, int) {
    match direccion {
        Some(d) => (pacman.0 + 2 * d.spec_vector().0, pacman.1 + 2 * d.spec_vector().1),
        None => (pacman.0 as int, pacman.1 as int),
    }
}

/// The grid point a ghost aims at, as (x: column, y: row): the red and the
/// orange ghost aim at Pac-Man; the pink ghost two cells ahead of it; the
/// blue ghost at the point as far beyond the cell two ahead of Pac-Man as
/// the ghost stands before it, moved down the staircase (see `escalera`) to a node.
pub open spec fn punto_objetivo(
    tipo: TipoFantasma,
    mapa: Seq<Vec<Casilla>>,
    pacman: (i32, i32),
    direccion: Option<Direcciones>,
    propia: (i32, i32),
) -> (int, int) {
    match tipo {
        TipoFantasma::Rojo => (pacman.0 as int, pacman.1 as int),
        TipoFantasma::Naranja => (pacman.0 as int, pacman.1 as int),
        TipoFantasma::Rosa => adelante(pacman, direccion),
        TipoFantasma::Azul => {
            let a = adelante(pacman, direccion);
            escalera(
                mapa,
                (2 * a.0 - propia.0, 2 * a.1 - propia.1),
                (pacman.0 as int, pacman.1 as int),
            )
        },
    }
}

/// An integer turned into a `usize` as a float is: negatives become 0 and
/// values too large become `usize::MAX`.
pub open spec fn a_usize(v: int) -> usize {
    if v < 0 {
        0
    } else if v > usize::MAX {
        usize::MAX
    } else {
        v as usize
    }
}

/// An integer turned into a `usize` as a float is (see `a_usize`).
pub fn saturar_usize(v: i64) -> (r: usize)
    ensures
        r == a_usize(v as int),
{
    if v < 0 {
        0
    } else if (v as u64) > (usize::MAX as u64) {
        usize::MAX
    } else {
        v as usize
    }
}

/// Whether the grid point (x, y) is a node of the maze (see `es_nodo_en`).
pub fn nodo_en(mapa: &Vec<Vec<Casilla>>, x: i64, y: i64) -> (r: bool)
    ensures
        r == es_nodo_en(mapa@, (x as int, y as int)),
{
    if x < 0 || y < 0 {
        return false;
    }
    if (y as u64) >= (mapa.len() as u64) {
        return false;
    }
    let fila = &mapa[y as usize];
    if (x as u64) >= (fila.len() as u64) {
        return false;
    }
    fila[x as usize].es_nodo()
}

/// The cell a ghost of kind `tipo` standing at grid point `propia` aims at,
/// as (row, column), when Pac-Man is at grid point `pacman` moving in
/// `direccion` (points are (x: column, y: row); see `punto_objetivo`).
pub fn objetivo_fantasma(
    tipo: TipoFantasma,
    mapa: &Vec<Vec<Casilla>>,
    pacman: (i32, i32),
    direccion: Option<Direcciones>,
    propia: (i32, i32),
) -> (r: (usize, usize))
    ensures
        ({
            let p = punto_objetivo(tipo, mapa@, pacman, direccion, propia);
            r == (a_usize(p.1), a_usize(p.0))
        }),
        tipo == TipoFantasma::Rojo || tipo == TipoFantasma::Naranja ==> r == (
            a_usize(pacman.1 as int),
            a_usize(pacman.0 as int),
        ),
{
    let px = pacman.0 as i64;
    let py = pacman.1 as i64;
    let (ax, ay): (i64, i64) = match direccion {
        Some(d) => {
            let v = d.vector();
            (px + 2 * (v.0 as i64), py + 2 * (v.1 as i64))
        },
        None => (px, py),
    };
    let (x, y): (i64, i64) = match tipo {
        TipoFantasma::Rojo => (px, py),
        TipoFantasma::Naranja => (px, py),
        TipoFantasma::Rosa => (ax, ay),
        TipoFantasma::Azul => {
            let x0 = 2 * ax - (propia.0 as i64);
            let y0 = 2 * ay - (propia.1 as i64);
            if x0 < 0 || y0 < 0 {
                (px, py)
            } else {
                let mut x = x0;
                let mut y = y0;
                while x >= 0 && y >= 0 && !nodo_en(mapa, x, y)
                    invariant
                        x >= -1,
                        y >= -1,
                        x <= x0,
                        y <= y0,
                        escalera(mapa@, (x as int, y as int), (px as int, py as int)) == escalera(
                            mapa@,
                            (x0 as int, y0 as int),
                            (px as int, py as int),
                        ),
                    decreases x + y + 2,
                {
                    if x > y {
                        x = x - 1;
                    } else {
                        y = y - 1;
                    }
                }
                if x < 0 || y < 0 {
                    (px, py)
                } else {
                    (x, y)
                }
            }
        },
    };
    (saturar_usize(y), saturar_usize(x))
}

/// The red and the orange ghost aim at Pac-Man's own grid point, whatever
/// direction Pac-Man moves in and wherever the ghost stands.
pub proof fn lemma_objetivo_sobre_pacman(
    tipo: TipoFantasma,
    mapa: Seq<Vec<Casilla>>,
    pacman: (i32, i32),
    direccion: Option<Direcciones>,
    propia: (i32, i32),
)
    requires
        tipo == TipoFantasma::Rojo || tipo == TipoFantasma::Naranja,
    ensures
        punto_objetivo(tipo, mapa, pacman, direccion, propia) == (pacman.0 as int, pacman.1 as int),
{
}

/// The pink ghost aims two cells ahead of Pac-Man in the direction it moves
/// (y grows downwards), or at Pac-Man when it stands still.
pub proof fn lemma_objetivo_rosa(
    mapa: Seq<Vec<Casilla>>,
    pacman: (i32, i32),
    direccion: Option<Direcciones>,
    propia: (i32, i32),
)
    ensures
        punto_objetivo(TipoFantasma::Rosa, mapa, pacman, direccion, propia) == match direccion {
            Some(Direcciones::Norte) => (pacman.0 as int, pacman.1 - 2),
            Some(Direcciones::Sur) => (pacman.0 as int, pacman.1 + 2),
            Some(Direcciones::Este) => (pacman.0 + 2, pacman.1 as int),
            Some(Direcciones::Oeste) => (pacman.0 - 2, pacman.1 as int),
            None => (pacman.0 as int, pacman.1 as int),
        },
{
}

/// The staircase from `p` ends on a node of the maze or at `respaldo`, and
/// never beyond `p`.
proof fn lemma_escalera(mapa: Seq<Vec<Casilla>>, p: (int, int), respaldo: (int, int))
    ensures
        ({
            let q = escalera(mapa, p, respaldo);
            q == respaldo || (0 <= q.1 < mapa.len() && 0 <= q.0 < mapa[q.1]@.len()
                && mapa[q.1]@[q.0] is Nodo && q.0 <= p.0 && q.1 <= p.1)
        }),
    decreases p.0 + p.1 + 1,
{
    if p.0 < 0 || p.1 < 0 {
    } else if es_nodo_en(mapa, p) {
    } else if p.0 > p.1 {
        lemma_escalera(mapa, (p.0 - 1, p.1), respaldo);
    } else {
        lemma_escalera(mapa, (p.0, p.1 - 1), respaldo);
    }
}

/// The blue ghost aims at a node of the maze, or at Pac-Man when its
/// staircase leaves the grid.
pub proof fn lemma_objetivo_azul(
    mapa: Seq<Vec<Casilla>>,
    pacman: (i32, i32),
    direccion: Option<Direcciones>,
    propia: (i32, i32),
)
    ensures
        ({
            let q = punto_objetivo(TipoFantasma::Azul, mapa, pacman, direccion, propia);
            q == (pacman.0 as int, pacman.1 as int) || (0 <= q.1 < mapa.len() && 0 <= q.0
                < mapa[q.1]@.len() && mapa[q.1]@[q.0] is Nodo)
        }),
{
    let a = adelante(pacman, direccion);
    lemma_escalera(
        mapa,
        (2 * a.0 - propia.0, 2 * a.1 - propia.1),
        (pacman.0 as int, pacman.1 as int),
    );
}

} // verus!
