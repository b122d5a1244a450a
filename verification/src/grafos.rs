//! Undirected graphs on `u32` vertices and breadth-first search.
use std::collections::VecDeque;
use infinitable::Infinitable;
use vstd::prelude::*;
use vstd::relations::injective_on;
use vstd::set_lib::*;
use crate::tabela_chave_valor::{ConjuntoIteravel, TabelaCV};

verus! {

/// Undirected graph: each vertex keeps the set of its neighbours, in the
/// order in which the edges came in; the vertices are kept in the order in
/// which they came in.
pub struct Grafo {
    tabela: TabelaCV<u32, ConjuntoIteravel<u32>>,
    d: u64,
    lista_nos: ConjuntoIteravel<u32>,
}

impl Grafo {
    /// The vertices.
    pub closed spec fn vertices(&self) -> Set<u32> {
        self.tabela@.dom()
    }

    /// The vertices in the order in which they came in.
    pub closed spec fn ordem_vertices(&self) -> Seq<u32> {
        self.lista_nos@
    }

    /// There is an edge between `x` and `y`.
    pub closed spec fn elo(&self, x: u32, y: u32) -> bool {
        self.tabela@.contains_key(x) && self.tabela@[x]@.contains(y)
    }

    pub closed spec fn wf(&self) -> bool {
        &&& self.tabela.wf()
        &&& self.lista_nos.wf()
        &&& 0 < self.d <= usize::MAX
        &&& forall|x: u32| #[trigger] self.tabela@.contains_key(x) <==> self.lista_nos@.contains(x)
        &&& forall|x: u32| #[trigger] self.tabela@.contains_key(x) ==> self.tabela@[x].wf()
        &&& forall|x: u32, y: u32|
            self.tabela@.contains_key(x) && #[trigger] self.tabela@[x]@.contains(y)
                ==> self.tabela@.contains_key(y) && self.tabela@[y]@.contains(x)
    }

    /// What every well-formed graph satisfies: the edges are symmetric and
    /// join vertices, and the vertex order lists each vertex once.
    pub proof fn lema_forma(&self)
        requires
            self.wf(),
        ensures
            self.vertices().finite(),
            forall|x: u32, y: u32| #[trigger] self.elo(x, y) ==> self.elo(y, x),
            forall|x: u32, y: u32|
                #[trigger] self.elo(x, y) ==> self.vertices().contains(x) && self.vertices().contains(
                    y,
                ),
            forall|x: u32| self.vertices().contains(x) <==> #[trigger] self.ordem_vertices().contains(x),
            self.ordem_vertices().no_duplicates(),
    {
        self.lista_nos.lema_sem_repeticao();
        assert(self.tabela.wf());
        self.tabela.lema_finito();
    }

    /// Creates a graph with no vertex; its tables have `d` buckets.
    pub fn novo(d: u64) -> (r: Self)
        requires
            0 < d <= usize::MAX,
        ensures
            r.wf(),
            r.vertices() == Set::<u32>::empty(),
            r.ordem_vertices() == Seq::<u32>::empty(),
    {
        let tabela = TabelaCV::<u32, ConjuntoIteravel<u32>>::novo(d);
        let lista_nos = ConjuntoIteravel::<u32>::novo(d);
        let r = Grafo { tabela, d, lista_nos };
        assert(r.vertices() =~= Set::<u32>::empty());
        r
    }

    /// Adds the vertex `x`, with no edge; if it is already there, nothing happens.
    pub fn inserir_vertice(&mut self, x: u32)
        requires
            old(self).wf(),
        ensures
            final(self).wf(),
            final(self).vertices() == old(self).vertices().insert(x),
            final(self).ordem_vertices() == (if old(self).vertices().contains(x) {
                old(self).ordem_vertices()
            } else {
                old(self).ordem_vertices().push(x)
            }),
            forall|a: u32, b: u32| final(self).elo(a, b) == old(self).elo(a, b),
    {
        if self.contem_vertice(x) {
            assert(self.vertices().insert(x) =~= self.vertices());
            return;
        }
        let ghost t0 = self.tabela@;
        let ghost l0 = self.lista_nos@;
        self.tabela.inserir(&x, ConjuntoIteravel::<u32>::novo(self.d));
        self.lista_nos.inserir(&x);
        proof {
            let t = self.tabela@;
            assert(t.dom() =~= t0.dom().insert(x));
            assert forall|z: u32| #[trigger] t.contains_key(z) <==> self.lista_nos@.contains(z) by {
                if z == x {
                    assert(self.lista_nos@[l0.len() as int] == x);
                } else if l0.contains(z) {
                    let i = choose|i: int| 0 <= i < l0.len() && l0[i] == z;
                    assert(self.lista_nos@[i] == z);
                } else if self.lista_nos@.contains(z) {
                    let i = choose|i: int| 0 <= i < self.lista_nos@.len() && self.lista_nos@[i] == z;
                    assert(i < l0.len());
                    assert(l0[i] == z);
                }
            }
            assert forall|a: u32, b: u32|
                t.contains_key(a) && #[trigger] t[a]@.contains(b) implies t.contains_key(b)
                && t[b]@.contains(a) by {
                if a == x {
                    assert(t[a]@.len() == 0);
                } else {
                    assert(t0[a]@.contains(b));
                    assert(b != x);
                }
            }
        }
    }

    /// Adds the edge between `x` and `y`, which must both be vertices; if it
    /// is already there, nothing happens.
    pub fn inserir_elo(&mut self, x: u32, y: u32)
        requires
            old(self).wf(),
            old(self).vertices().contains(x),
            old(self).vertices().contains(y),
        ensures
            final(self).wf(),
            final(self).vertices() == old(self).vertices(),
            final(self).ordem_vertices() == old(self).ordem_vertices(),
            forall|a: u32, b: u32|
                final(self).elo(a, b) == (old(self).elo(a, b) || (a == x && b == y) || (a == y
                    && b == x)),
    {
        let ghost t0 = self.tabela@;
        let mut viz_x = self.tabela.retirar(&x).unwrap();
        viz_x.inserir(&y);
        self.tabela.inserir(&x, viz_x);
        let ghost t1 = self.tabela@;
        let mut viz_y = self.tabela.retirar(&y).unwrap();
        viz_y.inserir(&x);
        self.tabela.inserir(&y, viz_y);
        proof {
            let t = self.tabela@;
            assert(t.dom() =~= t0.dom());
            assert forall|a: u32, b: u32|
                t.contains_key(a) && #[trigger] t[a]@.contains(b) <==> (t0.contains_key(a)
                    && t0[a]@.contains(b)) || (a == x && b == y) || (a == y && b == x) by {
                if a == x && a == y {
                    if t[a]@.contains(b) && b != x {
                        let i = choose|i: int| 0 <= i < t[a]@.len() && t[a]@[i] == b;
                        assert(i < t0[a]@.len());
                        assert(t0[a]@[i] == b);
                    }
                    if t0[a]@.contains(b) {
                        let i = choose|i: int| 0 <= i < t0[a]@.len() && t0[a]@[i] == b;
                        assert(t1[a]@[i] == b);
                        assert(t[a]@[i] == b);
                    }
                    if b == x && !t0[a]@.contains(b) {
                        assert(t1[a]@[t0[a]@.len() as int] == b);
                        assert(t[a]@[t0[a]@.len() as int] == b);
                    }
                } else if a == x {
                    if t[a]@.contains(b) && b != y {
                        let i = choose|i: int| 0 <= i < t[a]@.len() && t[a]@[i] == b;
                        assert(t0[a]@[i] == b);
                    }
                    if t0[a]@.contains(b) {
                        let i = choose|i: int| 0 <= i < t0[a]@.len() && t0[a]@[i] == b;
                        assert(t[a]@[i] == b);
                    }
                    if b == y && !t0[a]@.contains(b) {
                        assert(t[a]@[t0[a]@.len() as int] == b);
                    }
                } else if a == y {
                    if t[a]@.contains(b) && b != x {
                        let i = choose|i: int| 0 <= i < t[a]@.len() && t[a]@[i] == b;
                        assert(t0[a]@[i] == b);
                    }
                    if t0[a]@.contains(b) {
                        let i = choose|i: int| 0 <= i < t0[a]@.len() && t0[a]@[i] == b;
                        assert(t[a]@[i] == b);
                    }
                    if b == x && !t0[a]@.contains(b) {
                        assert(t[a]@[t0[a]@.len() as int] == b);
                    }
                }
            }
            assert forall|a: u32, b: u32|
                t.contains_key(a) && #[trigger] t[a]@.contains(b) implies t.contains_key(b)
                && t[b]@.contains(a) by {
                assert(t.contains_key(a) && t[a]@.contains(b));
                if (t0.contains_key(a) && t0[a]@.contains(b)) {
                    assert(t0.contains_key(b) && t0[b]@.contains(a));
                    assert(t.contains_key(b) && t[b]@.contains(a));
                } else {
                    assert(t.contains_key(b) && t[b]@.contains(a));
                }
            }
        }
    }

    /// Whether `i` is a vertex.
    pub fn contem_vertice(&self, i: u32) -> (r: bool)
        requires
            self.wf(),
        ensures
            r == self.vertices().contains(i),
    {
        self.lista_nos.contem(&i)
    }

    /// The vertices in the order in which they came in.
    pub fn lista_vertices(&self) -> (r: Vec<u32>)
        requires
            self.wf(),
        ensures
            r@ == self.ordem_vertices(),
    {
        self.lista_nos.elementos()
    }

    /// Whether there is an edge between `x` and `y` (false when either is not a vertex).
    pub fn contem_elo(&self, x: u32, y: u32) -> (r: bool)
        requires
            self.wf(),
        ensures
            r == self.elo(x, y),
    {
        match self.tabela.ler(&x) {
            None => false,
            Some(conjunto) => conjunto.contem(&y),
        }
    }

    /// Takes out the edge between `x` and `y`, if there is one.
    pub fn remover_elo(&mut self, x: u32, y: u32)
        requires
            old(self).wf(),
        ensures
            final(self).wf(),
            final(self).vertices() == old(self).vertices(),
            final(self).ordem_vertices() == old(self).ordem_vertices(),
            forall|a: u32, b: u32|
                final(self).elo(a, b) == (old(self).elo(a, b) && !(a == x && b == y) && !(a == y
                    && b == x)),
    {
        if !(self.contem_elo(x, y)) {
            return;
        }
        let ghost t0 = self.tabela@;
        let mut viz_x = self.tabela.retirar(&x).unwrap();
        viz_x.remover(&y);
        self.tabela.inserir(&x, viz_x);
        let ghost t1 = self.tabela@;
        let mut viz_y = self.tabela.retirar(&y).unwrap();
        viz_y.remover(&x);
        self.tabela.inserir(&y, viz_y);
        proof {
            let t = self.tabela@;
            assert(t.dom() =~= t0.dom());
            assert forall|a: u32, b: u32|
                t.contains_key(a) && #[trigger] t[a]@.contains(b) <==> (t0.contains_key(a)
                    && t0[a]@.contains(b)) && !(a == x && b == y) && !(a == y && b == x) by {
                if a == x || a == y {
                    assert(t0.contains_key(a));
                    t0[a].lema_sem_repeticao();
                    if a == x && a == y {
                        lema_remover_contem(t0[a]@, y, b);
                        lema_remover_contem(t0[a]@, y, x);
                    } else if a == x {
                        lema_remover_contem(t0[a]@, y, b);
                    } else {
                        assert(t1[a] == t0[a]);
                        assert(t0[y]@.contains(x));
                        lema_remover_contem(t0[a]@, x, b);
                    }
                }
            }
            assert forall|a: u32, b: u32|
                t.contains_key(a) && #[trigger] t[a]@.contains(b) implies t.contains_key(b)
                && t[b]@.contains(a) by {
                assert(t.contains_key(a) && t[a]@.contains(b));
                assert(t0.contains_key(b) && t0[b]@.contains(a));
                assert(t.contains_key(b) && t[b]@.contains(a));
            }
        }
    }

    /// Takes out the vertex `x` and all its edges; if it is not a vertex,
    /// nothing happens.
    pub fn remover_vertice(&mut self, x: u32)
        requires
            old(self).wf(),
        ensures
            final(self).wf(),
            final(self).vertices() == old(self).vertices().remove(x),
            final(self).ordem_vertices() == (if old(self).vertices().contains(x) {
                old(self).ordem_vertices().remove(old(self).ordem_vertices().index_of(x))
            } else {
                old(self).ordem_vertices()
            }),
            forall|a: u32, b: u32|
                final(self).elo(a, b) == (old(self).elo(a, b) && a != x && b != x),
    {
        if !(self.contem_vertice(x)) {
            assert(self.vertices().remove(x) =~= self.vertices());
            return;
        }
        let lista_vizinhos = {
            let viz_x = self.tabela.ler(&x).unwrap();
            viz_x.elementos()
        };
        let ghost g0 = *self;
        let mut i: usize = 0;
        while i < lista_vizinhos.len()
            invariant
                self.wf(),
                g0.wf(),
                0 <= i <= lista_vizinhos@.len(),
                lista_vizinhos@ == g0.tabela@[x]@,
                g0.tabela@.contains_key(x),
                self.vertices() == g0.vertices(),
                self.ordem_vertices() == g0.ordem_vertices(),
                forall|a: u32, b: u32|
                    self.elo(a, b) == (g0.elo(a, b) && !((a == x && lista_vizinhos@.take(
                        i as int,
                    ).contains(b)) || (b == x && lista_vizinhos@.take(i as int).contains(a)))),
            decreases lista_vizinhos@.len() - i,
        {
            let y = lista_vizinhos[i];
            self.remover_elo(x, y);
            proof {
                let p0 = lista_vizinhos@.take(i as int);
                let p1 = lista_vizinhos@.take(i + 1);
                assert(p1 =~= p0.push(y));
                assert forall|c: u32| p1.contains(c) <==> p0.contains(c) || c == y by {
                    if p1.contains(c) && c != y {
                        let j = choose|j: int| 0 <= j < p1.len() && p1[j] == c;
                        assert(p0[j] == c);
                    }
                    if p0.contains(c) {
                        let j = choose|j: int| 0 <= j < p0.len() && p0[j] == c;
                        assert(p1[j] == c);
                    }
                    if c == y {
                        assert(p1[i as int] == c);
                    }
                }
            }
            i = i + 1;
        }
        proof {
            assert(lista_vizinhos@.take(i as int) =~= lista_vizinhos@);
            assert forall|b: u32| !(#[trigger] self.elo(x, b)) by {
                if g0.elo(x, b) {
                    assert(g0.tabela@[x]@.contains(b));
                }
            }
            assert forall|a: u32| !(#[trigger] self.elo(a, x)) by {
                if g0.elo(a, x) {
                    assert(g0.tabela@[a]@.contains(x));
                    assert(g0.tabela@[x]@.contains(a));
                }
            }
        }
        let ghost t1 = self.tabela@;
        let ghost l1 = self.lista_nos@;
        self.tabela.remover(&x);
        self.lista_nos.remover(&x);
        proof {
            let t = self.tabela@;
            assert(t.dom() =~= t1.dom().remove(x));
            assert forall|z: u32| #[trigger] t.contains_key(z) <==> self.lista_nos@.contains(z) by {
                let k = l1.index_of(x);
                self.lista_nos.lema_sem_repeticao();
                g0.lista_nos.lema_sem_repeticao();
                if l1.contains(z) && z != x {
                    let j = choose|j: int| 0 <= j < l1.len() && l1[j] == z;
                    assert(j != k);
                    let jj = if j < k { j } else { j - 1 };
                    assert(self.lista_nos@[jj] == z);
                }
                if self.lista_nos@.contains(z) {
                    let j = choose|j: int| 0 <= j < self.lista_nos@.len() && self.lista_nos@[j] == z;
                    let jj = if j < k { j } else { j + 1 };
                    assert(l1[jj] == z);
                    assert(jj != k);
                }
            }
            assert forall|a: u32, b: u32|
                t.contains_key(a) && #[trigger] t[a]@.contains(b) implies t.contains_key(b)
                && t[b]@.contains(a) by {
                assert(t1[a]@.contains(b));
                assert(self.tabela@[a] == t1[a]);
                if b == x {
                    assert(g0.elo(a, x) == false) by {
                        assert(!(self.elo(a, x)) || true);
                    }
                }
            }
        }
    }
}

/// Removing one occurrence of `v` from a sequence with no repetition takes
/// exactly `v` out.
proof fn lema_remover_contem(s: Seq<u32>, v: u32, b: u32)
    requires
        s.no_duplicates(),
    ensures
        s.contains(v) ==> (s.remove(s.index_of(v)).contains(b) <==> s.contains(b) && b != v),
{
    if s.contains(v) {
        let k = s.index_of(v);
        let r = s.remove(k);
        if r.contains(b) {
            let j = choose|j: int| 0 <= j < r.len() && r[j] == b;
            let jj = if j < k { j } else { j + 1 };
            assert(s[jj] == b);
            assert(jj != k);
        }
        if s.contains(b) && b != v {
            let j = choose|j: int| 0 <= j < s.len() && s[j] == b;
            assert(j != k);
            let jj = if j < k { j } else { j - 1 };
            assert(r[jj] == b);
        }
    }
}

/// Colour of a vertex during the search: not reached, reached, finished.
#[derive(Debug, Clone, Copy, PartialEq, Eq, Structural)]
pub enum Cor {
    Branco,
    Verde,
    Laranja,
}

/// Depth of a vertex: a number of edges, or infinite (the variants of an
/// `infinitable::Infinitable<u32>`).
#[derive(Debug, Clone, Copy, PartialEq, Eq, Structural)]
pub enum Profundidade {
    Finita(u32),
    Infinita,
    InfinitaNegativa,
}

/// What the search finds out about each vertex.
#[derive(Debug, Clone, Copy, PartialEq, Eq, Structural)]
pub struct Decoracao {
    pub cor: Cor,
    pub profundidade: Profundidade,
    pub pai: Option<u32>,
}

/// The sum of two depths, following the table of `Infinitable::add`.
pub open spec fn soma_profundidades(a: Profundidade, b: Profundidade) -> Profundidade {
    match (a, b) {
        (Profundidade::Finita(x), Profundidade::Finita(y)) => Profundidade::Finita((x + y) as u32),
        (Profundidade::Infinita, _) | (_, Profundidade::Infinita) => Profundidade::Infinita,
        _ => Profundidade::InfinitaNegativa,
    }
}

/// `Infinitable::add` of the `infinitable` crate on two depths. Its
/// documentation and source give: finite plus finite is the finite sum (an
/// addition of `u32`, which overflows past `u32::MAX`), any other sum with
/// `Infinity` is `Infinity`, with `NegativeInfinity` is `NegativeInfinity`,
/// and `Infinity` plus `NegativeInfinity` panics.
#[verifier::external_body]
fn somar_profundidades(a: Profundidade, b: Profundidade) -> (r: Profundidade)
    requires
        !(a is Infinita && b is InfinitaNegativa),
        !(a is InfinitaNegativa && b is Infinita),
        a is Finita && b is Finita ==> a->Finita_0 + b->Finita_0 <= u32::MAX,
    ensures
        r == soma_profundidades(a, b),
{
    let x = match a { Profundidade::Finita(v) => Infinitable::Finite(v), Profundidade::Infinita => Infinitable::Infinity, Profundidade::InfinitaNegativa => Infinitable::NegativeInfinity };
    let y = match b { Profundidade::Finita(v) => Infinitable::Finite(v), Profundidade::Infinita => Infinitable::Infinity, Profundidade::InfinitaNegativa => Infinitable::NegativeInfinity };
    match x + y { Infinitable::Finite(v) => Profundidade::Finita(v), Infinitable::Infinity => Profundidade::Infinita, Infinitable::NegativeInfinity => Profundidade::InfinitaNegativa }
}

/// The `i`-th step of `c` is an edge of `g`.
pub open spec fn passo(g: &Grafo, c: Seq<u32>, i: int) -> bool {
    g.elo(c[i], c[i + 1])
}

/// `c` is a path of `g`: it starts at a vertex and each step is an edge.
pub open spec fn caminho(g: &Grafo, c: Seq<u32>) -> bool {
    &&& c.len() > 0
    &&& g.vertices().contains(c[0])
    &&& forall|i: int| 0 <= i < c.len() - 1 ==> #[trigger] passo(g, c, i)
}

/// Some path of `g` goes from `s` to `v`.
pub open spec fn alcancavel(g: &Grafo, s: u32, v: u32) -> bool {
    exists|c: Seq<u32>| #[trigger] caminho(g, c) && c[0] == s && c.last() == v
}

/// The number in a finite depth.
pub open spec fn prof(d: Decoracao) -> int {
    match d.profundidade {
        Profundidade::Finita(n) => n as int,
        _ => -1,
    }
}

/// The decorations of the vertices reached so far: `s` at depth 0 with no
/// parent, every other one one level below a reached neighbour, its parent.
spec fn decoracao_ok(g: &Grafo, s: u32, t: Map<u32, Decoracao>) -> bool {
    &&& t.dom().finite()
    &&& forall|v: u32| #[trigger] t.contains_key(v) ==> g.vertices().contains(v)
    &&& t.contains_key(s)
    &&& t[s].pai is None
    &&& t[s].profundidade == Profundidade::Finita(0)
    &&& forall|v: u32|
        #[trigger] t.contains_key(v) ==> t[v].cor != Cor::Branco && t[v].profundidade is Finita
            && prof(t[v]) < t.dom().len()
    &&& forall|v: u32|
        #[trigger] t.contains_key(v) && v != s ==> t[v].pai is Some && t.contains_key(
            t[v].pai->Some_0,
        ) && g.elo(t[v].pai->Some_0, v) && prof(t[v]) == prof(t[t[v].pai->Some_0]) + 1
}

/// The queue holds, once each, the reached vertices not finished yet (but
/// `atual`, being finished); a finished vertex has all its neighbours reached.
spec fn fila_ok(g: &Grafo, t: Map<u32, Decoracao>, fila: Seq<u32>, atual: Option<u32>) -> bool {
    &&& fila.no_duplicates()
    &&& forall|i: int|
        0 <= i < fila.len() ==> t.contains_key(#[trigger] fila[i]) && t[fila[i]].cor == Cor::Verde
            && atual != Some(fila[i])
    &&& forall|v: u32|
        #[trigger] t.contains_key(v) && t[v].cor == Cor::Verde ==> fila.contains(v) || atual == Some(
            v,
        )
    &&& forall|v: u32, w: u32|
        #[trigger] t.contains_key(v) && t[v].cor == Cor::Laranja && #[trigger] g.elo(v, w)
            ==> t.contains_key(w)
}

/// A finite set of `u32` that misses one value has fewer than `2^32` elements.
proof fn lema_cardinalidade_u32(d: Set<u32>, x: u32)
    requires
        d.finite(),
        !d.contains(x),
    ensures
        d.len() <= u32::MAX,
{
    let f = |v: u32| v as int;
    let m = d.map(f);
    assert(injective_on(f, d)) by {
        assert forall|a: u32, b: u32| d.contains(a) && d.contains(b) && f(a) == f(b) implies a
            == b by {}
    }
    lemma_map_size(d, m, f);
    let faixa = set_int_range(0, 0x1_0000_0000).remove(x as int);
    lemma_int_range(0, 0x1_0000_0000);
    assert(m.subset_of(faixa)) by {
        assert forall|i: int| m.contains(i) implies faixa.contains(i) by {
            let v = choose|v: u32| d.contains(v) && f(v) == i;
        }
    }
    lemma_len_subset(m, faixa);
}

/// Every reached vertex is reachable from `s`: follow the parents.
proof fn lema_alcancavel_por_pais(g: &Grafo, s: u32, t: Map<u32, Decoracao>, v: u32)
    requires
        decoracao_ok(g, s, t),
        t.contains_key(v),
    ensures
        alcancavel(g, s, v),
    decreases prof(t[v]),
{
    if v == s {
        let c = seq![s];
        assert(caminho(g, c));
    } else {
        let p = t[v].pai->Some_0;
        lema_alcancavel_por_pais(g, s, t, p);
        let c = choose|c: Seq<u32>| #[trigger] caminho(g, c) && c[0] == s && c.last() == p;
        let c2 = c.push(v);
        assert forall|i: int| 0 <= i < c2.len() - 1 implies #[trigger] passo(g, c2, i) by {
            if i < c.len() - 1 {
                assert(passo(g, c, i));
            }
        }
        assert(caminho(g, c2));
    }
}

/// A set of vertices that holds `s` and every neighbour of its members holds
/// every vertex reachable from `s`.
proof fn lema_fechado(g: &Grafo, s: u32, l: Set<u32>, c: Seq<u32>)
    requires
        l.contains(s),
        forall|v: u32, w: u32| l.contains(v) && #[trigger] g.elo(v, w) ==> l.contains(w),
        caminho(g, c),
        c[0] == s,
    ensures
        l.contains(c.last()),
    decreases c.len(),
{
    if c.len() > 1 {
        let c1 = c.drop_last();
        assert forall|i: int| 0 <= i < c1.len() - 1 implies #[trigger] passo(g, c1, i) by {
            assert(passo(g, c, i));
        }
        lema_fechado(g, s, l, c1);
        assert(passo(g, c, c.len() - 2));
    }
}

/// Taking the head `u` of the queue to finish it.
proof fn lema_tirar_da_fila(g: &Grafo, t: Map<u32, Decoracao>, f0: Seq<u32>)
    requires
        fila_ok(g, t, f0, None),
        f0.len() > 0,
    ensures
        fila_ok(g, t, f0.subrange(1, f0.len() as int), Some(f0[0])),
        t.contains_key(f0[0]),
        t[f0[0]].cor == Cor::Verde,
{
    let u = f0[0];
    let f1 = f0.subrange(1, f0.len() as int);
    assert(t.contains_key(f0[0]));
    assert forall|i: int| 0 <= i < f1.len() implies t.contains_key(#[trigger] f1[i])
        && t[f1[i]].cor == Cor::Verde && Some(u) != Some(f1[i]) by {
        assert(f1[i] == f0[i + 1]);
        assert(f0[i + 1] != f0[0]);
    }
    assert forall|v: u32|
        #[trigger] t.contains_key(v) && t[v].cor == Cor::Verde implies f1.contains(v) || Some(u)
        == Some(v) by {
        assert(f0.contains(v));
        let i = choose|i: int| 0 <= i < f0.len() && f0[i] == v;
        if i > 0 {
            assert(f1[i - 1] == v);
        }
    }
    assert forall|i: int, j: int| 0 <= i < f1.len() && 0 <= j < f1.len() && i != j implies f1[i]
        != f1[j] by {
        assert(f1[i] == f0[i + 1]);
        assert(f1[j] == f0[j + 1]);
    }
}

/// Reaching the new vertex `x` from `u`, one level below it.
proof fn lema_alcancar(
    g: &Grafo,
    s: u32,
    t0: Map<u32, Decoracao>,
    f0: Seq<u32>,
    u: u32,
    x: u32,
    dec_x: Decoracao,
)
    requires
        decoracao_ok(g, s, t0),
        fila_ok(g, t0, f0, Some(u)),
        t0.contains_key(u),
        t0[u].cor == Cor::Verde,
        !t0.contains_key(x),
        g.elo(u, x),
        g.vertices().contains(x),
        dec_x == (Decoracao { cor: Cor::Verde, profundidade: Profundidade::Finita((prof(t0[u]) + 1) as u32), pai: Some(u) }),
        prof(t0[u]) + 1 <= u32::MAX,
    ensures
        decoracao_ok(g, s, t0.insert(x, dec_x)),
        fila_ok(g, t0.insert(x, dec_x), f0.push(x), Some(u)),
        t0.insert(x, dec_x).dom().len() == t0.dom().len() + 1,
{
    let t1 = t0.insert(x, dec_x);
    let f1 = f0.push(x);
    assert(t1.dom() =~= t0.dom().insert(x));
    assert(t1.dom().len() == t0.dom().len() + 1);
    assert forall|v: u32| #[trigger] t1.contains_key(v) implies t1[v].cor != Cor::Branco
        && t1[v].profundidade is Finita && prof(t1[v]) < t1.dom().len() by {
        if v != x {
            assert(t0.contains_key(v));
        }
    }
    assert forall|v: u32| #[trigger] t1.contains_key(v) && v != s implies t1[v].pai is Some
        && t1.contains_key(t1[v].pai->Some_0) && g.elo(t1[v].pai->Some_0, v) && prof(t1[v]) == prof(
        t1[t1[v].pai->Some_0],
    ) + 1 by {
        if v != x {
            assert(t0.contains_key(v));
            assert(t0.contains_key(t0[v].pai->Some_0));
            assert(t0[v].pai->Some_0 != x);
        } else {
            assert(u != x);
        }
    }
    assert(decoracao_ok(g, s, t1));
    assert forall|i: int| 0 <= i < f1.len() implies t1.contains_key(#[trigger] f1[i])
        && t1[f1[i]].cor == Cor::Verde && Some(u) != Some(f1[i]) by {
        if i < f0.len() {
            assert(f1[i] == f0[i]);
            assert(t0.contains_key(f0[i]));
            assert(f0[i] != x);
        }
    }
    assert forall|v: u32|
        #[trigger] t1.contains_key(v) && t1[v].cor == Cor::Verde implies f1.contains(v) || Some(u)
        == Some(v) by {
        if v == x {
            assert(f1[f0.len() as int] == x);
        } else {
            assert(t0.contains_key(v));
            if f0.contains(v) {
                let i = choose|i: int| 0 <= i < f0.len() && f0[i] == v;
                assert(f1[i] == v);
            }
        }
    }
    assert forall|i: int, j: int| 0 <= i < f1.len() && 0 <= j < f1.len() && i != j implies f1[i]
        != f1[j] by {
        if i < f0.len() {
            assert(t0.contains_key(f0[i]));
        }
        if j < f0.len() {
            assert(t0.contains_key(f0[j]));
        }
    }
    assert forall|v: u32, w: u32|
        #[trigger] t1.contains_key(v) && t1[v].cor == Cor::Laranja && #[trigger] g.elo(v, w)
            implies t1.contains_key(w) by {
        if v != x {
            assert(t0.contains_key(v));
        }
    }
}

/// Finishing `u` once all its neighbours are reached.
proof fn lema_terminar(g: &Grafo, s: u32, t0: Map<u32, Decoracao>, f0: Seq<u32>, u: u32)
    requires
        decoracao_ok(g, s, t0),
        fila_ok(g, t0, f0, Some(u)),
        t0.contains_key(u),
        forall|w: u32| #[trigger] g.elo(u, w) ==> t0.contains_key(w),
    ensures
        ({
            let t1 = t0.insert(u, Decoracao { cor: Cor::Laranja, ..t0[u] });
            &&& decoracao_ok(g, s, t1)
            &&& fila_ok(g, t1, f0, None)
            &&& t1.dom() == t0.dom()
        }),
{
    let t1 = t0.insert(u, Decoracao { cor: Cor::Laranja, ..t0[u] });
    assert(t1.dom() =~= t0.dom());
    assert forall|v: u32| #[trigger] t1.contains_key(v) && v != s implies t1[v].pai is Some
        && t1.contains_key(t1[v].pai->Some_0) && g.elo(t1[v].pai->Some_0, v) && prof(t1[v]) == prof(
        t1[t1[v].pai->Some_0],
    ) + 1 by {
        assert(t0.contains_key(v));
        assert(t0.contains_key(t0[v].pai->Some_0));
    }
    assert forall|i: int| 0 <= i < f0.len() implies t1.contains_key(#[trigger] f0[i])
        && t1[f0[i]].cor == Cor::Verde && None::<u32> != Some(f0[i]) by {
        assert(t0.contains_key(f0[i]));
    }
    assert forall|v: u32|
        #[trigger] t1.contains_key(v) && t1[v].cor == Cor::Verde implies f0.contains(v) || None::<u32>
        == Some(v) by {
        assert(t0.contains_key(v));
    }
    assert forall|v: u32, w: u32|
        #[trigger] t1.contains_key(v) && t1[v].cor == Cor::Laranja && #[trigger] g.elo(v, w)
            implies t1.contains_key(w) by {
        assert(t0.contains_key(v));
    }
}

/// The levels of the search, `nivel` being the depth of the vertex being
/// finished (or of the next one): the queue goes by depth, from `nivel` to
/// at most `nivel + 1`; a finished vertex is at most at `nivel`, and each of
/// its neighbours is reached at most one level below it.
spec fn niveis_ok(g: &Grafo, t: Map<u32, Decoracao>, fila: Seq<u32>, nivel: int) -> bool {
    &&& forall|i: int| 0 <= i < fila.len() ==> nivel <= #[trigger] prof(t[fila[i]]) <= nivel + 1
    &&& forall|i: int, j: int| 0 <= i <= j < fila.len() ==> prof(t[#[trigger] fila[i]]) <= prof(t[#[trigger] fila[j]])
    &&& forall|w: u32| #[trigger] t.contains_key(w) && t[w].cor == Cor::Laranja ==> prof(t[w]) <= nivel
    &&& forall|w: u32, x: u32|
        #[trigger] t.contains_key(w) && t[w].cor == Cor::Laranja && #[trigger] g.elo(w, x) ==> t.contains_key(x)
            && prof(t[x]) <= prof(t[w]) + 1
}

/// The shortest paths of `g` from `s` to `v` have `k` edges.
pub open spec fn distancia(g: &Grafo, s: u32, v: u32, k: int) -> bool {
    &&& exists|c: Seq<u32>| #[trigger] caminho(g, c) && c[0] == s && c.last() == v && c.len() == k + 1
    &&& forall|c: Seq<u32>| #[trigger] caminho(g, c) && c[0] == s && c.last() == v ==> c.len() >= k + 1
}

/// Taking the head `u` of the queue: the level becomes the depth of `u`.
proof fn lema_niveis_tirar(g: &Grafo, t: Map<u32, Decoracao>, f0: Seq<u32>, nivel: int)
    requires
        niveis_ok(g, t, f0, nivel),
        f0.len() > 0,
    ensures
        niveis_ok(g, t, f0.subrange(1, f0.len() as int), prof(t[f0[0]])),
        nivel <= prof(t[f0[0]]),
{
    let f1 = f0.subrange(1, f0.len() as int);
    let l = prof(t[f0[0]]);
    assert(nivel <= prof(t[f0[0]]) <= nivel + 1);
    assert forall|i: int| 0 <= i < f1.len() implies l <= #[trigger] prof(t[f1[i]]) <= l + 1 by {
        assert(f1[i] == f0[i + 1]);
        assert(prof(t[f0[0]]) <= prof(t[f0[i + 1]]));
        assert(nivel <= prof(t[f0[i + 1]]) <= nivel + 1);
    }
    assert forall|i: int, j: int| 0 <= i <= j < f1.len() implies prof(t[#[trigger] f1[i]]) <= prof(t[#[trigger] f1[j]]) by {
        assert(f1[i] == f0[i + 1]);
        assert(f1[j] == f0[j + 1]);
        assert(prof(t[f0[i + 1]]) <= prof(t[f0[j + 1]]));
    }
}

/// Reaching `x` from `u`, one level below the level `prof(u)`, keeps the levels.
proof fn lema_niveis_alcancar(
    g: &Grafo,
    t0: Map<u32, Decoracao>,
    f0: Seq<u32>,
    u: u32,
    x: u32,
    dec_x: Decoracao,
)
    requires
        niveis_ok(g, t0, f0, prof(t0[u])),
        t0.contains_key(u),
        !t0.contains_key(x),
        dec_x.cor == Cor::Verde,
        prof(dec_x) == prof(t0[u]) + 1,
        forall|i: int| 0 <= i < f0.len() ==> t0.contains_key(#[trigger] f0[i]),
        t0[u].cor == Cor::Verde,
    ensures
        niveis_ok(g, t0.insert(x, dec_x), f0.push(x), prof(t0[u])),
        t0.insert(x, dec_x)[u] == t0[u],
{
    let t1 = t0.insert(x, dec_x);
    let f1 = f0.push(x);
    let l = prof(t0[u]);
    assert(t1[u] == t0[u]);
    assert forall|i: int| 0 <= i < f1.len() implies l <= #[trigger] prof(t1[f1[i]]) <= l + 1 by {
        if i < f0.len() {
            assert(f1[i] == f0[i]);
            assert(t0.contains_key(f0[i]));
            assert(f0[i] != x);
            assert(l <= prof(t0[f0[i]]) <= l + 1);
        }
    }
    assert forall|i: int, j: int| 0 <= i <= j < f1.len() implies prof(t1[#[trigger] f1[i]]) <= prof(t1[#[trigger] f1[j]]) by {
        if j < f0.len() {
            assert(f1[i] == f0[i] && f1[j] == f0[j]);
            assert(t0.contains_key(f0[i]) && t0.contains_key(f0[j]));
            assert(f0[i] != x && f0[j] != x);
            assert(prof(t0[f0[i]]) <= prof(t0[f0[j]]));
        } else if i < f0.len() {
            assert(f1[i] == f0[i]);
            assert(t0.contains_key(f0[i]));
            assert(f0[i] != x);
            assert(prof(t0[f0[i]]) <= l + 1);
        }
    }
    assert forall|w: u32| #[trigger] t1.contains_key(w) && t1[w].cor == Cor::Laranja implies prof(t1[w]) <= l by {
        assert(w != x);
        assert(t0.contains_key(w));
    }
    assert forall|w: u32, y: u32|
        #[trigger] t1.contains_key(w) && t1[w].cor == Cor::Laranja && #[trigger] g.elo(w, y) implies t1.contains_key(y)
            && prof(t1[y]) <= prof(t1[w]) + 1 by {
        assert(w != x);
        assert(t0.contains_key(w));
        assert(t0.contains_key(y));
        assert(y != x);
    }
}

/// Finishing `u`, at the level `prof(u)`, once each of its neighbours is
/// reached at most one level below it, keeps the levels.
proof fn lema_niveis_terminar(g: &Grafo, t0: Map<u32, Decoracao>, f0: Seq<u32>, u: u32)
    requires
        niveis_ok(g, t0, f0, prof(t0[u])),
        t0.contains_key(u),
        forall|w: u32| #[trigger] g.elo(u, w) ==> t0.contains_key(w) && prof(t0[w]) <= prof(t0[u]) + 1,
        forall|i: int| 0 <= i < f0.len() ==> f0[i] != u,
    ensures
        niveis_ok(g, t0.insert(u, Decoracao { cor: Cor::Laranja, ..t0[u] }), f0, prof(t0[u])),
{
    let t1 = t0.insert(u, Decoracao { cor: Cor::Laranja, ..t0[u] });
    let l = prof(t0[u]);
    assert forall|i: int| 0 <= i < f0.len() implies l <= #[trigger] prof(t1[f0[i]]) <= l + 1 by {
        assert(f0[i] != u);
        assert(l <= prof(t0[f0[i]]) <= l + 1);
    }
    assert forall|i: int, j: int| 0 <= i <= j < f0.len() implies prof(t1[#[trigger] f0[i]]) <= prof(t1[#[trigger] f0[j]]) by {
        assert(f0[i] != u && f0[j] != u);
        assert(prof(t0[f0[i]]) <= prof(t0[f0[j]]));
    }
    assert forall|w: u32| #[trigger] t1.contains_key(w) && t1[w].cor == Cor::Laranja implies prof(t1[w]) <= l by {
        if w != u {
            assert(t0.contains_key(w));
        }
    }
    assert forall|w: u32, y: u32|
        #[trigger] t1.contains_key(w) && t1[w].cor == Cor::Laranja && #[trigger] g.elo(w, y) implies t1.contains_key(y)
            && prof(t1[y]) <= prof(t1[w]) + 1 by {
        if w == u {
            assert(t0.contains_key(y));
        } else {
            assert(t0.contains_key(w));
            assert(t0.contains_key(y));
        }
    }
}

/// A path from `s` of `c.len() - 1` edges reaches its last vertex, whose
/// depth is at most that, when each finished vertex has its neighbours at
/// most one level below and every reached vertex is finished.
proof fn lema_profundidade_minima(g: &Grafo, s: u32, t: Map<u32, Decoracao>, c: Seq<u32>, nivel: int)
    requires
        niveis_ok(g, t, Seq::empty(), nivel),
        t.contains_key(s),
        prof(t[s]) == 0,
        forall|v: u32| #[trigger] t.contains_key(v) ==> t[v].cor == Cor::Laranja,
        caminho(g, c),
        c[0] == s,
    ensures
        t.contains_key(c.last()),
        prof(t[c.last()]) <= c.len() - 1,
    decreases c.len(),
{
    if c.len() > 1 {
        let c1 = c.drop_last();
        assert forall|i: int| 0 <= i < c1.len() - 1 implies #[trigger] passo(g, c1, i) by {
            assert(passo(g, c, i));
        }
        lema_profundidade_minima(g, s, t, c1, nivel);
        assert(passo(g, c, c.len() - 2));
        assert(g.elo(c[c.len() - 2], c.last()));
        assert(c1.last() == c[c.len() - 2]);
    }
}

/// Following the parents from a reached vertex gives a path from `s` with
/// as many edges as its depth.
proof fn lema_caminho_dos_pais(g: &Grafo, s: u32, t: Map<u32, Decoracao>, v: u32) -> (c: Seq<u32>)
    requires
        decoracao_ok(g, s, t),
        t.contains_key(v),
    ensures
        caminho(g, c),
        c[0] == s,
        c.last() == v,
        c.len() == prof(t[v]) + 1,
    decreases prof(t[v]),
{
    if v == s {
        let c = seq![s];
        assert(caminho(g, c));
        c
    } else {
        let p = t[v].pai->Some_0;
        let c = lema_caminho_dos_pais(g, s, t, p);
        let c2 = c.push(v);
        assert forall|i: int| 0 <= i < c2.len() - 1 implies #[trigger] passo(g, c2, i) by {
            if i < c.len() - 1 {
                assert(passo(g, c, i));
            }
        }
        assert(caminho(g, c2));
        c2
    }
}

/// Breadth-first search from `s`: colours the vertices reachable from `s`
/// (its connected component) orange, each at its depth with the neighbour it
/// was reached from as parent; the others white, at infinite depth.
pub fn busca_largura(g: &Grafo, s: u32) -> (tab: TabelaCV<u32, Decoracao>)
    requires
        g.wf(),
        g.vertices().contains(s),
    ensures
        tab.wf(),
        tab@.dom() == g.vertices(),
        tab@[s] == (Decoracao { cor: Cor::Laranja, profundidade: Profundidade::Finita(0), pai: None }),
        forall|v: u32|
            #[trigger] tab@.contains_key(v) ==> (tab@[v].cor == Cor::Laranja <==> alcancavel(g, s, v)),
        forall|v: u32|
            #[trigger] tab@.contains_key(v) && tab@[v].cor == Cor::Laranja && v != s ==> {
                let p = tab@[v].pai->Some_0;
                &&& tab@[v].pai is Some
                &&& g.elo(p, v)
                &&& tab@[p].cor == Cor::Laranja
                &&& tab@[v].profundidade is Finita
                &&& tab@[p].profundidade is Finita
                &&& prof(tab@[v]) == prof(tab@[p]) + 1
            },
        forall|v: u32|
            #[trigger] tab@.contains_key(v) && tab@[v].cor != Cor::Laranja ==> tab@[v] == (Decoracao {
                cor: Cor::Branco,
                profundidade: Profundidade::Infinita,
                pai: None,
            }),
        forall|v: u32|
            #[trigger] tab@.contains_key(v) && tab@[v].cor == Cor::Laranja ==> tab@[v].profundidade is Finita
                && distancia(g, s, v, prof(tab@[v])),
{
    proof {
        g.lema_forma();
    }
    let mut fila = VecDeque::<u32>::new();
    let mut tab = TabelaCV::<u32, Decoracao>::novo(100);
    let dec_s = Decoracao { cor: Cor::Verde, profundidade: Profundidade::Finita(0), pai: None };
    fila.push_back(s);
    tab.inserir(&s, dec_s);
    proof {
        tab.lema_finito();
        assert(tab@.dom() =~= set![s]);
        assert(fila@ =~= seq![s]);
        assert(fila@[0] == s);
        lemma_len_subset(tab@.dom(), g.vertices());
    }
    let ghost mut nivel: int = 0;
    while fila.len() > 0
        invariant
            g.wf(),
            g.vertices().finite(),
            tab.wf(),
            decoracao_ok(g, s, tab@),
            fila_ok(g, tab@, fila@, None),
            niveis_ok(g, tab@, fila@, nivel),
            tab@.dom().len() <= g.vertices().len(),
        decreases 2 * (g.vertices().len() - tab@.dom().len()) + fila@.len(),
    {
        let ghost f_antes = fila@;
        let u = fila.pop_front().unwrap();
        let ghost medida = 2 * (g.vertices().len() - tab@.dom().len()) + fila@.len();
        proof {
            lema_tirar_da_fila(g, tab@, f_antes);
            assert(fila@ == f_antes.subrange(1, f_antes.len() as int));
            lema_niveis_tirar(g, tab@, f_antes, nivel);
            nivel = prof(tab@[u]);
        }
        let prof_u = tab.ler(&u).unwrap().profundidade;
        let vizinhos = g.tabela.ler(&u).unwrap().elementos();
        let mut j: usize = 0;
        while j < vizinhos.len()
            invariant
                g.wf(),
                g.vertices().finite(),
                tab.wf(),
                decoracao_ok(g, s, tab@),
                fila_ok(g, tab@, fila@, Some(u)),
                tab@.dom().len() <= g.vertices().len(),
                tab@.contains_key(u),
                tab@[u].cor == Cor::Verde,
                prof_u == tab@[u].profundidade,
                g.tabela@.contains_key(u),
                vizinhos@ == g.tabela@[u]@,
                0 <= j <= vizinhos@.len(),
                forall|k: int| 0 <= k < j ==> tab@.contains_key(#[trigger] vizinhos@[k]) && prof(tab@[vizinhos@[k]]) <= nivel + 1,
                niveis_ok(g, tab@, fila@, nivel),
                nivel == prof(tab@[u]),
                2 * (g.vertices().len() - tab@.dom().len()) + fila@.len() <= medida,
            decreases vizinhos@.len() - j,
        {
            let x = vizinhos[j];
            if !tab.contem(&x) {
                let ghost t0 = tab@;
                let ghost f0 = fila@;
                proof {
                    lema_cardinalidade_u32(tab@.dom(), x);
                    assert(prof(tab@[u]) < tab@.dom().len());
                }
                let dec_x = Decoracao {
                    cor: Cor::Verde,
                    profundidade: somar_profundidades(prof_u, Profundidade::Finita(1)),
                    pai: Some(u),
                };
                proof {
                    assert(g.tabela@[u]@.contains(x)) by {
                        assert(g.tabela@[u]@[j as int] == x);
                    }
                    assert(g.elo(u, x));
                    lema_alcancar(g, s, t0, f0, u, x, dec_x);
                    lema_niveis_alcancar(g, t0, f0, u, x, dec_x);
                }
                tab.inserir(&x, dec_x);
                fila.push_back(x);
                proof {
                    lemma_len_subset(tab@.dom(), g.vertices());
                }
            } else {
                proof {
                    let t = tab@;
                    if t[x].cor == Cor::Laranja {
                        assert(prof(t[x]) <= nivel);
                    } else if x != u {
                        assert(fila@.contains(x));
                        let i = choose|i: int| 0 <= i < fila@.len() && fila@[i] == x;
                        assert(nivel <= prof(t[fila@[i]]) <= nivel + 1);
                    }
                }
            }
            j += 1;
        }
        proof {
            assert forall|w: u32| #[trigger] g.elo(u, w) implies tab@.contains_key(w) && prof(tab@[w]) <= prof(tab@[u]) + 1 by {
                assert(g.tabela@[u]@.contains(w));
                let k = choose|k: int| 0 <= k < vizinhos@.len() && vizinhos@[k] == w;
            }
            lema_terminar(g, s, tab@, fila@, u);
            lema_niveis_terminar(g, tab@, fila@, u);
        }
        let ghost t_antes = tab@;
        let mut dec_u = tab.retirar(&u).unwrap();
        dec_u.cor = Cor::Laranja;
        tab.inserir(&u, dec_u);
        proof {
            assert(tab@ =~= t_antes.insert(u, Decoracao { cor: Cor::Laranja, ..t_antes[u] }));
        }
    }
    let ghost visitados = tab@;
    proof {
        assert(fila@ =~= Seq::<u32>::empty());
    }
    let nos = g.lista_nos.elementos();
    let mut i: usize = 0;
    while i < nos.len()
        invariant
            g.wf(),
            tab.wf(),
            decoracao_ok(g, s, visitados),
            niveis_ok(g, visitados, Seq::<u32>::empty(), nivel),
            nos@ == g.ordem_vertices(),
            forall|v: u32| #[trigger] visitados.contains_key(v) ==> visitados[v].cor == Cor::Laranja,
            forall|v: u32, w: u32|
                #[trigger] visitados.contains_key(v) && #[trigger] g.elo(v, w) ==> visitados.contains_key(w),
            0 <= i <= nos@.len(),
            forall|v: u32|
                #[trigger] tab@.contains_key(v) <==> visitados.contains_key(v) || nos@.take(
                    i as int,
                ).contains(v),
            forall|v: u32| #[trigger] visitados.contains_key(v) ==> tab@[v] == visitados[v],
            forall|v: u32|
                #[trigger] tab@.contains_key(v) && !visitados.contains_key(v) ==> tab@[v] == (Decoracao {
                    cor: Cor::Branco,
                    profundidade: Profundidade::Infinita,
                    pai: None,
                }),
        decreases nos@.len() - i,
    {
        let y = nos[i];
        if !tab.contem(&y) {
            let dec_y = Decoracao { cor: Cor::Branco, profundidade: Profundidade::Infinita, pai: None };
            tab.inserir(&y, dec_y);
        }
        proof {
            let p0 = nos@.take(i as int);
            let p1 = nos@.take(i + 1);
            assert(p1 =~= p0.push(y));
            assert forall|c: u32| p1.contains(c) <==> p0.contains(c) || c == y by {
                if p1.contains(c) && c != y {
                    let j = choose|j: int| 0 <= j < p1.len() && p1[j] == c;
                    assert(p0[j] == c);
                }
                if p0.contains(c) {
                    let j = choose|j: int| 0 <= j < p0.len() && p0[j] == c;
                    assert(p1[j] == c);
                }
                if c == y {
                    assert(p1[i as int] == c);
                }
            }
        }
        i += 1;
    }
    proof {
        assert(nos@.take(i as int) =~= nos@);
        assert forall|v: u32| #[trigger] tab@.contains_key(v) <==> g.vertices().contains(v) by {
            if visitados.contains_key(v) {
            }
        }
        assert(tab@.dom() =~= g.vertices());
        assert forall|v: u32|
            #[trigger] tab@.contains_key(v) implies (tab@[v].cor == Cor::Laranja <==> alcancavel(
                g,
                s,
                v,
            )) && (tab@[v].cor == Cor::Laranja ==> tab@[v].profundidade is Finita && distancia(
                g,
                s,
                v,
                prof(tab@[v]),
            )) by {
            if visitados.contains_key(v) {
                lema_alcancavel_por_pais(g, s, visitados, v);
                let c = lema_caminho_dos_pais(g, s, visitados, v);
                assert forall|c2: Seq<u32>| #[trigger] caminho(g, c2) && c2[0] == s && c2.last() == v
                    implies c2.len() >= prof(tab@[v]) + 1 by {
                    lema_profundidade_minima(g, s, visitados, c2, nivel);
                }
                assert(distancia(g, s, v, prof(tab@[v])));
            } else {
                if alcancavel(g, s, v) {
                    let c = choose|c: Seq<u32>| #[trigger] caminho(g, c) && c[0] == s && c.last() == v;
                    lema_fechado(g, s, visitados.dom(), c);
                }
            }
        }
    }
    tab
}

/// Putting in an edge that was not there and then taking it out gives back
/// the edges of the graph: `g1` is `g0` after `inserir_elo(x, y)`, and `g2`
/// is `g1` after `remover_elo(x, y)`.
pub proof fn lei_inserir_e_remover_elo(g0: Grafo, g1: Grafo, g2: Grafo, x: u32, y: u32)
    requires
        !g0.elo(x, y),
        !g0.elo(y, x),
        forall|a: u32, b: u32|
            #[trigger] g1.elo(a, b) == (g0.elo(a, b) || (a == x && b == y) || (a == y && b == x)),
        forall|a: u32, b: u32|
            #[trigger] g2.elo(a, b) == (g1.elo(a, b) && !(a == x && b == y) && !(a == y && b == x)),
    ensures
        forall|a: u32, b: u32| #[trigger] g2.elo(a, b) == g0.elo(a, b),
{
    assert forall|a: u32, b: u32| #[trigger] g2.elo(a, b) == g0.elo(a, b) by {
        assert(g1.elo(a, b) == (g0.elo(a, b) || (a == x && b == y) || (a == y && b == x)));
    }
}

} // verus!
