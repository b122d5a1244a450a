//! Linked lists whose cells live in an arena.
//!
//! A cell is named by its index in the arena (its *endereço*). The address of a
//! cell stays the same while the cell is in the list, whatever is inserted or
//! deleted around it, so callers can hold on to addresses between operations.
//! Freed slots are kept on a free list and handed out again.
use vstd::prelude::*;

pub mod texto;

verus! {

/// Cell of a singly linked list.
pub struct CelulaSimples<T> {
    pub conteudo: T,
    pub proximo: Option<usize>,
}

/// Cell of a doubly linked list.
pub struct CelulaDupla<T> {
    pub conteudo: T,
    pub proximo: Option<usize>,
    pub anterior: Option<usize>,
}

/// The arena slots named in `l` are free (hold no cell) and are named once each.
pub open spec fn livres_validos<C>(l: Seq<usize>, c: Seq<Option<C>>) -> bool {
    &&& l.no_duplicates()
    &&& forall|j: int| 0 <= j < l.len() ==> (#[trigger] l[j]) < c.len() && c[l[j] as int] is None
}

/// Address after position `i` of the chain `o`, if any.
#[verifier::opaque]
pub open spec fn seguinte(o: Seq<usize>, i: int) -> Option<usize> {
    if i + 1 < o.len() {
        Some(o[i + 1])
    } else {
        None
    }
}

/// Address before position `i` of the chain `o`, if any.
#[verifier::opaque]
pub open spec fn precedente(o: Seq<usize>, i: int) -> Option<usize> {
    if i > 0 {
        Some(o[i - 1])
    } else {
        None
    }
}

/// The cells at the addresses `o`, in this order, form a doubly linked chain in `c`.
pub open spec fn encadeamento_duplo<T>(o: Seq<usize>, c: Seq<Option<CelulaDupla<T>>>) -> bool {
    &&& o.no_duplicates()
    &&& forall|i: int| 0 <= i < o.len() ==> (#[trigger] o[i]) < c.len() && c[o[i] as int] is Some
    &&& forall|i: int|
        0 <= i < o.len() ==> c[#[trigger] o[i] as int]->Some_0.proximo == seguinte(o, i)
    &&& forall|i: int|
        0 <= i < o.len() ==> c[#[trigger] o[i] as int]->Some_0.anterior == precedente(o, i)
}

/// The contents of the cells at the addresses `o`, in this order.
pub open spec fn conteudos_duplos<T>(o: Seq<usize>, c: Seq<Option<CelulaDupla<T>>>) -> Seq<T> {
    o.map_values(|a: usize| c[a as int]->Some_0.conteudo)
}

/// What the neighbours of the inserted cell must look like after the insertion.
pub open spec fn insercao_ligada<T>(
    o: Seq<usize>,
    c: Seq<Option<CelulaDupla<T>>>,
    c2: Seq<Option<CelulaDupla<T>>>,
    k: int,
    a: usize,
    x: T,
) -> bool {
    &&& encadeamento_duplo(o, c)
    &&& 0 <= k <= o.len()
    &&& !o.contains(a)
    &&& a < c2.len()
    &&& c.len() <= c2.len()
    &&& c2[a as int] == Some(
        CelulaDupla {
            conteudo: x,
            proximo: if k < o.len() {
                Some(o[k])
            } else {
                None
            },
            anterior: if k > 0 {
                Some(o[k - 1])
            } else {
                None
            },
        },
    )
    &&& k > 0 ==> c2[o[k - 1] as int] == Some(
        CelulaDupla {
            conteudo: c[o[k - 1] as int]->Some_0.conteudo,
            proximo: Some(a),
            anterior: c[o[k - 1] as int]->Some_0.anterior,
        },
    )
    &&& k < o.len() ==> c2[o[k] as int] == Some(
        CelulaDupla {
            conteudo: c[o[k] as int]->Some_0.conteudo,
            proximo: c[o[k] as int]->Some_0.proximo,
            anterior: Some(a),
        },
    )
    &&& forall|i: int|
        0 <= i < o.len() && i != k - 1 && i != k ==> c2[#[trigger] o[i] as int] == c[o[i] as int]
}

proof fn lema_inserir_indice(o: Seq<usize>, k: int, a: usize, i: int)
    requires
        0 <= k <= o.len(),
        0 <= i <= o.len(),
    ensures
        o.insert(k, a).len() == o.len() + 1,
        i < k ==> o.insert(k, a)[i] == o[i],
        i == k ==> o.insert(k, a)[i] == a,
        i > k ==> o.insert(k, a)[i] == o[i - 1],
{
}

proof fn lema_inserir_ponto<T>(
    o: Seq<usize>,
    c: Seq<Option<CelulaDupla<T>>>,
    c2: Seq<Option<CelulaDupla<T>>>,
    k: int,
    a: usize,
    x: T,
    i: int,
)
    requires
        insercao_ligada(o, c, c2, k, a, x),
        0 <= i <= o.len(),
    ensures
        ({
            let o2 = o.insert(k, a);
            &&& o2[i] < c2.len()
            &&& c2[o2[i] as int] is Some
            &&& c2[o2[i] as int]->Some_0.proximo == seguinte(o2, i)
            &&& c2[o2[i] as int]->Some_0.anterior == precedente(o2, i)
            &&& c2[o2[i] as int]->Some_0.conteudo == conteudos_duplos(o, c).insert(k, x)[i]
        }),
{
    reveal(seguinte);
    reveal(precedente);
    lema_inserir_indice(o, k, a, i);
    if i > 0 {
        lema_inserir_indice(o, k, a, i - 1);
    }
    if i + 1 <= o.len() {
        lema_inserir_indice(o, k, a, i + 1);
    }
    if i < k {
        assert(o[i] < c.len());
        if i != k - 1 {
            assert(c2[o[i] as int] == c[o[i] as int]);
        }
    } else if i > k {
        assert(o[i - 1] < c.len());
        if i - 1 != k {
            assert(c2[o[i - 1] as int] == c[o[i - 1] as int]);
        }
    }
}

/// Inserting the cell `a` at position `k` of a doubly linked chain, once the
/// neighbours have been relinked, gives the chain with `a` inserted there.
proof fn lema_inserir_duplo<T>(
    o: Seq<usize>,
    c: Seq<Option<CelulaDupla<T>>>,
    c2: Seq<Option<CelulaDupla<T>>>,
    k: int,
    a: usize,
    x: T,
)
    requires
        insercao_ligada(o, c, c2, k, a, x),
    ensures
        encadeamento_duplo(o.insert(k, a), c2),
        conteudos_duplos(o.insert(k, a), c2) == conteudos_duplos(o, c).insert(k, x),
{
    let o2 = o.insert(k, a);
    assert forall|i: int, j: int| 0 <= i < o2.len() && 0 <= j < o2.len() && i != j implies o2[i]
        != o2[j] by {
        lema_inserir_indice(o, k, a, i);
        lema_inserir_indice(o, k, a, j);
        if i != k && j != k {
        } else if i == k {
            let jj = if j < k { j } else { j - 1 };
            assert(o[jj] == o2[j]);
        } else {
            let ii = if i < k { i } else { i - 1 };
            assert(o[ii] == o2[i]);
        }
    }
    assert forall|i: int| 0 <= i < o2.len() implies (#[trigger] o2[i]) < c2.len() && c2[o2[i] as int] is Some
        && c2[o2[i] as int]->Some_0.proximo == seguinte(o2, i)
        && c2[o2[i] as int]->Some_0.anterior == precedente(o2, i) by {
        lema_inserir_ponto(o, c, c2, k, a, x, i);
    }
    let v = conteudos_duplos(o, c);
    let v2 = conteudos_duplos(o2, c2);
    assert forall|i: int| 0 <= i < v2.len() implies v2[i] == v.insert(k, x)[i] by {
        lema_inserir_ponto(o, c, c2, k, a, x, i);
    }
    assert(v2 =~= v.insert(k, x));
}

/// What the neighbours of the cell at position `k` must look like once it was
/// unlinked.
pub open spec fn remocao_ligada<T>(
    o: Seq<usize>,
    c: Seq<Option<CelulaDupla<T>>>,
    c2: Seq<Option<CelulaDupla<T>>>,
    k: int,
) -> bool {
    &&& encadeamento_duplo(o, c)
    &&& 0 <= k < o.len()
    &&& c.len() <= c2.len()
    &&& k > 0 ==> c2[o[k - 1] as int] == Some(
        CelulaDupla {
            conteudo: c[o[k - 1] as int]->Some_0.conteudo,
            proximo: if k + 1 < o.len() {
                Some(o[k + 1])
            } else {
                None
            },
            anterior: c[o[k - 1] as int]->Some_0.anterior,
        },
    )
    &&& k + 1 < o.len() ==> c2[o[k + 1] as int] == Some(
        CelulaDupla {
            conteudo: c[o[k + 1] as int]->Some_0.conteudo,
            proximo: c[o[k + 1] as int]->Some_0.proximo,
            anterior: if k > 0 {
                Some(o[k - 1])
            } else {
                None
            },
        },
    )
    &&& forall|i: int|
        0 <= i < o.len() && i != k - 1 && i != k && i != k + 1 ==> c2[#[trigger] o[i] as int]
            == c[o[i] as int]
}

proof fn lema_remover_indice(o: Seq<usize>, k: int, i: int)
    requires
        0 <= k < o.len(),
        0 <= i < o.len() - 1,
    ensures
        o.remove(k).len() == o.len() - 1,
        i < k ==> o.remove(k)[i] == o[i],
        i >= k ==> o.remove(k)[i] == o[i + 1],
{
}

proof fn lema_remover_ponto<T>(
    o: Seq<usize>,
    c: Seq<Option<CelulaDupla<T>>>,
    c2: Seq<Option<CelulaDupla<T>>>,
    k: int,
    i: int,
)
    requires
        remocao_ligada(o, c, c2, k),
        0 <= i < o.len() - 1,
    ensures
        ({
            let o2 = o.remove(k);
            &&& o2[i] < c2.len()
            &&& c2[o2[i] as int] is Some
            &&& c2[o2[i] as int]->Some_0.proximo == seguinte(o2, i)
            &&& c2[o2[i] as int]->Some_0.anterior == precedente(o2, i)
            &&& c2[o2[i] as int]->Some_0.conteudo == conteudos_duplos(o, c).remove(k)[i]
        }),
{
    reveal(seguinte);
    reveal(precedente);
    lema_remover_indice(o, k, i);
    if i > 0 {
        lema_remover_indice(o, k, i - 1);
    }
    if i + 1 < o.len() - 1 {
        lema_remover_indice(o, k, i + 1);
    }
    let ii = if i < k { i } else { i + 1 };
    assert(o[ii] < c.len());
    if ii != k - 1 && ii != k + 1 {
        assert(c2[o[ii] as int] == c[o[ii] as int]);
    }
}

/// Unlinking the cell at position `k` of a doubly linked chain, once its
/// neighbours point to each other, gives the chain without it.
proof fn lema_remover_duplo<T>(
    o: Seq<usize>,
    c: Seq<Option<CelulaDupla<T>>>,
    c2: Seq<Option<CelulaDupla<T>>>,
    k: int,
)
    requires
        remocao_ligada(o, c, c2, k),
    ensures
        encadeamento_duplo(o.remove(k), c2),
        conteudos_duplos(o.remove(k), c2) == conteudos_duplos(o, c).remove(k),
{
    let o2 = o.remove(k);
    assert forall|i: int, j: int| 0 <= i < o2.len() && 0 <= j < o2.len() && i != j implies o2[i]
        != o2[j] by {
        lema_remover_indice(o, k, i);
        lema_remover_indice(o, k, j);
        let ii = if i < k { i } else { i + 1 };
        let jj = if j < k { j } else { j + 1 };
        assert(o[ii] == o2[i]);
        assert(o[jj] == o2[j]);
    }
    assert forall|i: int| 0 <= i < o2.len() implies (#[trigger] o2[i]) < c2.len() && c2[o2[i] as int] is Some
        && c2[o2[i] as int]->Some_0.proximo == seguinte(o2, i)
        && c2[o2[i] as int]->Some_0.anterior == precedente(o2, i) by {
        lema_remover_ponto(o, c, c2, k, i);
    }
    let v = conteudos_duplos(o, c);
    let v2 = conteudos_duplos(o2, c2);
    assert forall|i: int| 0 <= i < v2.len() implies v2[i] == v.remove(k)[i] by {
        lema_remover_ponto(o, c, c2, k, i);
    }
    assert(v2 =~= v.remove(k));
}

/// Changing the content of the cell at position `k` keeps the chain and
/// changes that one element.
proof fn lema_alterar_duplo<T>(
    o: Seq<usize>,
    c: Seq<Option<CelulaDupla<T>>>,
    c2: Seq<Option<CelulaDupla<T>>>,
    k: int,
    x: T,
)
    requires
        encadeamento_duplo(o, c),
        0 <= k < o.len(),
        c2 == c.update(
            o[k] as int,
            Some(
                CelulaDupla {
                    conteudo: x,
                    proximo: c[o[k] as int]->Some_0.proximo,
                    anterior: c[o[k] as int]->Some_0.anterior,
                },
            ),
        ),
    ensures
        encadeamento_duplo(o, c2),
        conteudos_duplos(o, c2) == conteudos_duplos(o, c).update(k, x),
{
    assert forall|i: int| 0 <= i < o.len() && i != k implies c2[#[trigger] o[i] as int] == c[o[i] as int] by {
        assert(o[i] != o[k]);
    }
    assert(conteudos_duplos(o, c2) =~= conteudos_duplos(o, c).update(k, x));
}

/// Doubly linked list.
pub struct ListaDupla<T> {
    n: usize,
    cabeca: usize,
    ponta: usize,
    celulas: Vec<Option<CelulaDupla<T>>>,
    livres: Vec<usize>,
    ordem: Ghost<Seq<usize>>,
}

impl<T> View for ListaDupla<T> {
    type V = Seq<T>;

    closed spec fn view(&self) -> Seq<T> {
        conteudos_duplos(self.ordem@, self.celulas@)
    }
}

impl<T> ListaDupla<T> {
    /// The addresses of the cells, from the head to the tail.
    pub closed spec fn enderecos(&self) -> Seq<usize> {
        self.ordem@
    }

    /// `e` is the address of a cell of the list.
    pub open spec fn valido(&self, e: usize) -> bool {
        self.enderecos().contains(e)
    }

    /// Position in the list of the cell at address `e`.
    pub open spec fn posicao(&self, e: usize) -> int {
        self.enderecos().index_of(e)
    }

    pub closed spec fn spec_n(&self) -> usize {
        self.n
    }

    pub closed spec fn spec_cabeca(&self) -> usize {
        self.cabeca
    }

    pub closed spec fn spec_ponta(&self) -> usize {
        self.ponta
    }

    pub closed spec fn wf(&self) -> bool {
        &&& encadeamento_duplo(self.ordem@, self.celulas@)
        &&& livres_validos(self.livres@, self.celulas@)
        &&& self.n == self.ordem@.len()
        &&& self.n + self.livres@.len() == self.celulas@.len()
        &&& self.n > 0 ==> self.cabeca == self.ordem@[0] && self.ponta == self.ordem@.last()
    }

    /// What every well-formed list satisfies: one distinct address per element,
    /// the head and the tail at the two ends.
    pub proof fn lema_forma(&self)
        requires
            self.wf(),
        ensures
            self.enderecos().len() == self@.len(),
            self.spec_n() == self@.len(),
            self.enderecos().no_duplicates(),
            self@.len() > 0 ==> self.spec_cabeca() == self.enderecos()[0],
            self@.len() > 0 ==> self.spec_ponta() == self.enderecos().last(),
    {
    }

    /// Number of elements.
    pub fn n(&self) -> (r: usize)
        requires
            self.wf(),
        ensures
            r == self@.len(),
            r == self.spec_n(),
    {
        self.n
    }

    /// Address of the head cell (meaningful when the list is not empty).
    pub fn cabeca(&self) -> (r: usize)
        ensures
            r == self.spec_cabeca(),
    {
        self.cabeca
    }

    /// Address of the tail cell (meaningful when the list is not empty).
    pub fn ponta(&self) -> (r: usize)
        ensures
            r == self.spec_ponta(),
    {
        self.ponta
    }

    proof fn lema_posicao(&self, e: usize)
        requires
            self.wf(),
            self.valido(e),
        ensures
            0 <= self.posicao(e) < self@.len(),
            self.enderecos()[self.posicao(e)] == e,
            forall|j: int| 0 <= j < self@.len() && self.enderecos()[j] == e ==> j == self.posicao(e),
    {
    }

    fn celula(&self, a: usize) -> (r: &CelulaDupla<T>)
        requires
            a < self.celulas@.len(),
            self.celulas@[a as int] is Some,
        ensures
            *r == self.celulas@[a as int]->Some_0,
    {
        self.celulas[a].as_ref().unwrap()
    }

    fn mudar_celula(&mut self, a: usize, proximo: Option<usize>, anterior: Option<usize>)
        requires
            a < old(self).celulas@.len(),
            old(self).celulas@[a as int] is Some,
        ensures
            final(self).celulas@ == old(self).celulas@.update(
                a as int,
                Some(
                    CelulaDupla {
                        conteudo: old(self).celulas@[a as int]->Some_0.conteudo,
                        proximo,
                        anterior,
                    },
                ),
            ),
            final(self).livres == old(self).livres,
            final(self).ordem == old(self).ordem,
            final(self).n == old(self).n,
            final(self).cabeca == old(self).cabeca,
            final(self).ponta == old(self).ponta,
    {
        let mut c: Option<CelulaDupla<T>> = None;
        std::mem::swap(&mut c, &mut self.celulas[a]);
        let cel = c.unwrap();
        self.celulas.set(a, Some(CelulaDupla { conteudo: cel.conteudo, proximo, anterior }));
    }

    fn mudar_conteudo(&mut self, a: usize, conteudo: T)
        requires
            a < old(self).celulas@.len(),
            old(self).celulas@[a as int] is Some,
        ensures
            final(self).celulas@ == old(self).celulas@.update(
                a as int,
                Some(
                    CelulaDupla {
                        conteudo,
                        proximo: old(self).celulas@[a as int]->Some_0.proximo,
                        anterior: old(self).celulas@[a as int]->Some_0.anterior,
                    },
                ),
            ),
            final(self).livres == old(self).livres,
            final(self).ordem == old(self).ordem,
            final(self).n == old(self).n,
            final(self).cabeca == old(self).cabeca,
            final(self).ponta == old(self).ponta,
    {
        let mut c: Option<CelulaDupla<T>> = None;
        std::mem::swap(&mut c, &mut self.celulas[a]);
        let cel = c.unwrap();
        self.celulas.set(
            a,
            Some(CelulaDupla { conteudo, proximo: cel.proximo, anterior: cel.anterior }),
        );
    }

    /// Puts `cel` in a free slot (or a new one) and returns its address.
    fn alocar(&mut self, cel: CelulaDupla<T>) -> (a: usize)
        requires
            livres_validos(old(self).livres@, old(self).celulas@),
            old(self).n + old(self).livres@.len() == old(self).celulas@.len(),
            encadeamento_duplo(old(self).ordem@, old(self).celulas@),
        ensures
            a < final(self).celulas@.len(),
            final(self).celulas@[a as int] == Some(cel),
            !old(self).ordem@.contains(a),
            forall|j: int|
                0 <= j < old(self).celulas@.len() && j != a ==> final(self).celulas@[j]
                    == old(self).celulas@[j],
            old(self).celulas@.len() <= final(self).celulas@.len() <= usize::MAX,
            livres_validos(final(self).livres@, final(self).celulas@),
            final(self).n + 1 + final(self).livres@.len() == final(self).celulas@.len(),
            final(self).ordem == old(self).ordem,
            final(self).n == old(self).n,
            final(self).cabeca == old(self).cabeca,
            final(self).ponta == old(self).ponta,
    {
        let ghost o = self.ordem@;
        let ghost c0 = self.celulas@;
        let a = match self.livres.pop() {
            Some(a) => {
                proof {
                    assert(self.livres@ =~= old(self).livres@.drop_last());
                    assert(old(self).livres@.last() == a);
                }
                self.celulas.set(a, Some(cel));
                proof {
                    assert forall|j: int| 0 <= j < self.livres@.len() implies (#[trigger] self.livres@[j])
                        < self.celulas@.len() && self.celulas@[self.livres@[j] as int] is None by {
                        assert(old(self).livres@[j] == self.livres@[j]);
                        assert(old(self).livres@[old(self).livres@.len() - 1] == a);
                    }
                    if o.contains(a) {
                        let i = choose|i: int| 0 <= i < o.len() && o[i] == a;
                        assert(c0[o[i] as int] is Some);
                    }
                }
                a
            },
            None => {
                let a = self.celulas.len();
                self.celulas.push(Some(cel));
                proof {
                    assert forall|j: int| 0 <= j < self.livres@.len() implies (#[trigger] self.livres@[j])
                        < self.celulas@.len() && self.celulas@[self.livres@[j] as int] is None by {
                        assert(old(self).livres@[j] == self.livres@[j]);
                    }
                    if o.contains(a) {
                        let i = choose|i: int| 0 <= i < o.len() && o[i] == a;
                        assert(o[i] < c0.len());
                    }
                }
                a
            },
        };
        let _tamanho = self.celulas.len();
        a
    }

    /// Frees the slot at address `a`, dropping its cell.
    fn liberar(&mut self, a: usize)
        requires
            a < old(self).celulas@.len(),
            old(self).celulas@[a as int] is Some,
            livres_validos(old(self).livres@, old(self).celulas@),
        ensures
            final(self).celulas@ == old(self).celulas@.update(a as int, None),
            final(self).livres@ == old(self).livres@.push(a),
            livres_validos(final(self).livres@, final(self).celulas@),
            final(self).ordem == old(self).ordem,
            final(self).n == old(self).n,
            final(self).cabeca == old(self).cabeca,
            final(self).ponta == old(self).ponta,
    {
        self.celulas.set(a, None);
        self.livres.push(a);
        proof {
            let l = self.livres@;
            assert forall|j: int| 0 <= j < l.len() implies (#[trigger] l[j]) < self.celulas@.len()
                && self.celulas@[l[j] as int] is None by {
                if j < l.len() - 1 {
                    assert(old(self).livres@[j] == l[j]);
                }
            }
            assert forall|i: int, j: int| 0 <= i < l.len() && 0 <= j < l.len() && i != j implies l[i]
                != l[j] by {
                if i < l.len() - 1 && j < l.len() - 1 {
                    assert(old(self).livres@[i] == l[i]);
                    assert(old(self).livres@[j] == l[j]);
                } else if i < l.len() - 1 {
                    assert(old(self).livres@[i] == l[i]);
                } else if j < l.len() - 1 {
                    assert(old(self).livres@[j] == l[j]);
                }
            }
        }
    }

    /// Creates an empty list.
    pub fn novo() -> (r: Self)
        ensures
            r.wf(),
            r@ == Seq::<T>::empty(),
            r.enderecos() == Seq::<usize>::empty(),
    {
        let r = ListaDupla {
            n: 0,
            cabeca: 0,
            ponta: 0,
            celulas: Vec::new(),
            livres: Vec::new(),
            ordem: Ghost(Seq::empty()),
        };
        assert(r@ =~= Seq::<T>::empty());
        r
    }

    /// Puts `elemento` at the tail of the list.
    #[verifier::rlimit(50)]
    pub fn colocar(&mut self, elemento: T)
        requires
            old(self).wf(),
        ensures
            final(self).wf(),
            final(self)@ == old(self)@.push(elemento),
            final(self).enderecos() == old(self).enderecos().push(final(self).spec_ponta()),
            !old(self).enderecos().contains(final(self).spec_ponta()),
    {
        let ghost o = self.ordem@;
        let ghost c = self.celulas@;
        let ghost v = self@;
        if self.n == 0 {
            let a = self.alocar(CelulaDupla { conteudo: elemento, proximo: None, anterior: None });
            self.cabeca = a;
            self.ponta = a;
            proof {
                self.ordem@ = seq![a];
                assert(seq![a] =~= o.insert(0, a));
                lema_inserir_duplo(o, c, self.celulas@, 0, a, elemento);
            }
            self.n = 1;
        } else {
            let p = self.ponta;
            let a = self.alocar(CelulaDupla { conteudo: elemento, proximo: None, anterior: Some(p) });
            let ghost c1 = self.celulas@;
            let ant = self.celula(p).anterior;
            self.mudar_celula(p, Some(a), ant);
            self.ponta = a;
            proof {
                let c2 = self.celulas@;
                let k = o.len() - 1;
                assert(o[k] == p);
                assert forall|i: int| 0 <= i < o.len() && i != k implies c2[#[trigger] o[i] as int]
                    == c[o[i] as int] by {
                    assert(o[i] != p);
                    assert(o[i] != a);
                }
                assert(insercao_ligada(o, c, c2, o.len() as int, a, elemento));
                assert forall|j: int| 0 <= j < self.livres@.len() implies (#[trigger] self.livres@[j])
                    < c2.len() && c2[self.livres@[j] as int] is None by {
                    assert(c1[self.livres@[j] as int] is None);
                }
                self.ordem@ = o.push(a);
                assert(o.push(a) =~= o.insert(o.len() as int, a));
                assert(v.push(elemento) =~= v.insert(o.len() as int, elemento));
                lema_inserir_duplo(o, c, self.celulas@, o.len() as int, a, elemento);
            }
            self.n = self.n + 1;
        }
    }

    /// After a cell was linked in at position `k`, the list is well formed and
    /// holds `x` there.
    proof fn lema_apos_insercao(antes: &Self, depois: &Self, k: int, a: usize, x: T)
        requires
            antes.wf(),
            insercao_ligada(antes.ordem@, antes.celulas@, depois.celulas@, k, a, x),
            depois.ordem@ == antes.ordem@.insert(k, a),
            depois.n == antes.n + 1,
            livres_validos(depois.livres@, depois.celulas@),
            depois.n + depois.livres@.len() == depois.celulas@.len(),
            depois.cabeca == depois.ordem@[0],
            depois.ponta == depois.ordem@.last(),
        ensures
            depois.wf(),
            depois@ == antes@.insert(k, x),
    {
        lema_inserir_duplo(antes.ordem@, antes.celulas@, depois.celulas@, k, a, x);
    }

    /// Links `a` between positions `k - 1` and `k`, given the addresses there.
    #[verifier::rlimit(30)]
    fn ligar_celula_nova(&mut self, k: Ghost<int>, ant: Option<usize>, prox: Option<usize>, conteudo: T) -> (a: usize)
        requires
            old(self).wf(),
            0 <= k@ <= old(self).n,
            ant == precedente(old(self).ordem@.push(0), k@),
            prox == (if k@ < old(self).n { Some(old(self).ordem@[k@]) } else { None }),
        ensures
            final(self).wf(),
            final(self)@ == old(self)@.insert(k@, conteudo),
            final(self).enderecos() == old(self).enderecos().insert(k@, a),
            !old(self).enderecos().contains(a),
    {
        let ghost o = self.ordem@;
        let ghost c = self.celulas@;
        assert(ant == (if k@ > 0 { Some(o[k@ - 1]) } else { None })) by {
            reveal(precedente);
            if k@ > 0 {
                assert(o.push(0)[k@ - 1] == o[k@ - 1]);
            }
        }
        let a = self.alocar(CelulaDupla { conteudo, proximo: prox, anterior: ant });
        let ghost c1 = self.celulas@;
        match ant {
            Some(p) => {
                assert(o[k@ - 1] == p);
                let pa = self.celula(p).anterior;
                self.mudar_celula(p, Some(a), pa);
            },
            None => {},
        }
        let ghost c2 = self.celulas@;
        match prox {
            Some(s) => {
                proof {
                    assert(o[k@] == s);
                    if k@ > 0 {
                        assert(o[k@] != o[k@ - 1]);
                    }
                }
                let sp = self.celula(s).proximo;
                self.mudar_celula(s, sp, Some(a));
            },
            None => {},
        }
        if ant.is_none() {
            self.cabeca = a;
        }
        if prox.is_none() {
            self.ponta = a;
        }
        proof {
            let c3 = self.celulas@;
            assert forall|i: int| 0 <= i < o.len() && i != k@ - 1 && i != k@ implies c3[#[trigger] o[i] as int]
                == c[o[i] as int] by {
                assert(o[i] != a);
                if k@ > 0 {
                    assert(o[i] != o[k@ - 1]);
                }
                if k@ < o.len() {
                    assert(o[i] != o[k@]);
                }
            }
            if k@ > 0 && k@ < o.len() {
                assert(o[k@] != o[k@ - 1]);
            }
            assert(insercao_ligada(o, c, c3, k@, a, conteudo));
            assert forall|j: int| 0 <= j < self.livres@.len() implies (#[trigger] self.livres@[j])
                < c3.len() && c3[self.livres@[j] as int] is None by {
                assert(c1[self.livres@[j] as int] is None);
            }
            self.ordem@ = o.insert(k@, a);
            lema_inserir_indice(o, k@, a, 0);
            lema_inserir_indice(o, k@, a, o.len() as int);
        }
        self.n = self.n + 1;
        proof {
            Self::lema_apos_insercao(old(self), self, k@, a, conteudo);
        }
        a
    }

    /// Inserts `conteudo` right after the cell at address `endereco`.
    pub fn inserir_apos(&mut self, endereco: usize, conteudo: T)
        requires
            old(self).wf(),
            old(self).valido(endereco),
        ensures
            final(self).wf(),
            final(self)@ == old(self)@.insert(old(self).posicao(endereco) + 1, conteudo),
            final(self).enderecos() == old(self).enderecos().insert(
                old(self).posicao(endereco) + 1,
                final(self).enderecos()[old(self).posicao(endereco) + 1],
            ),
            !old(self).enderecos().contains(final(self).enderecos()[old(self).posicao(endereco) + 1]),
    {
        let ghost k = self.posicao(endereco) + 1;
        proof {
            self.lema_posicao(endereco);
            reveal(precedente);
            reveal(seguinte);
            assert(self.ordem@.push(0)[k - 1] == endereco);
        }
        let prox = self.celula(endereco).proximo;
        let a = self.ligar_celula_nova(Ghost(k), Some(endereco), prox, conteudo);
        proof {
            lema_inserir_indice(old(self).ordem@, k, a, k);
        }
    }

    /// Inserts `conteudo` at the head of the list.
    fn inserir_cabeca(&mut self, conteudo: T)
        requires
            old(self).wf(),
            old(self)@.len() > 0,
        ensures
            final(self).wf(),
            final(self)@ == old(self)@.insert(0, conteudo),
            final(self).enderecos() == old(self).enderecos().insert(0, final(self).enderecos()[0]),
            !old(self).enderecos().contains(final(self).enderecos()[0]),
    {
        proof {
            reveal(precedente);
        }
        let a = self.ligar_celula_nova(Ghost(0), None, Some(self.cabeca), conteudo);
        proof {
            lema_inserir_indice(old(self).ordem@, 0, a, 0);
        }
    }

    /// Inserts `conteudo` right before the cell at address `endereco`.
    pub fn inserir_antes(&mut self, endereco: usize, conteudo: T)
        requires
            old(self).wf(),
            old(self).valido(endereco),
        ensures
            final(self).wf(),
            final(self)@ == old(self)@.insert(old(self).posicao(endereco), conteudo),
            final(self).enderecos() == old(self).enderecos().insert(
                old(self).posicao(endereco),
                final(self).enderecos()[old(self).posicao(endereco)],
            ),
            !old(self).enderecos().contains(final(self).enderecos()[old(self).posicao(endereco)]),
    {
        proof {
            self.lema_posicao(endereco);
        }
        if endereco == self.cabeca {
            self.inserir_cabeca(conteudo);
        } else {
            let ghost k = self.posicao(endereco);
            let ant = self.celula(endereco).anterior;
            proof {
                reveal(precedente);
                assert(self.ordem@[k] == endereco);
                assert(k > 0);
            }
            let ant = ant.unwrap();
            let ghost kk = self.posicao(ant);
            proof {
                assert(self.ordem@[k - 1] == ant);
                self.lema_posicao(ant);
            }
            self.inserir_apos(ant, conteudo);
        }
    }

    /// After the cell at position `k` was unlinked and freed, the list is well
    /// formed and lacks that element.
    proof fn lema_apos_remocao(antes: &Self, depois: &Self, k: int)
        requires
            antes.wf(),
            remocao_ligada(antes.ordem@, antes.celulas@, depois.celulas@, k),
            depois.ordem@ == antes.ordem@.remove(k),
            depois.n + 1 == antes.n,
            livres_validos(depois.livres@, depois.celulas@),
            depois.n + depois.livres@.len() == depois.celulas@.len(),
            depois.n > 0 ==> depois.cabeca == depois.ordem@[0],
            depois.n > 0 ==> depois.ponta == depois.ordem@.last(),
        ensures
            depois.wf(),
            depois@ == antes@.remove(k),
    {
        lema_remover_duplo(antes.ordem@, antes.celulas@, depois.celulas@, k);
    }

    /// Unlinks and frees the cell at position `k`, given the addresses around it.
    #[verifier::rlimit(30)]
    fn desligar_celula(&mut self, k: Ghost<int>, ant: Option<usize>, r: usize, prox: Option<usize>)
        requires
            old(self).wf(),
            0 <= k@ < old(self).n,
            ant == (if k@ > 0 { Some(old(self).ordem@[k@ - 1]) } else { None }),
            r == old(self).ordem@[k@],
            prox == (if k@ + 1 < old(self).n { Some(old(self).ordem@[k@ + 1]) } else { None }),
        ensures
            final(self).wf(),
            final(self)@ == old(self)@.remove(k@),
            final(self).enderecos() == old(self).enderecos().remove(k@),
    {
        let ghost o = self.ordem@;
        let ghost c = self.celulas@;
        match ant {
            Some(p) => {
                let pa = self.celula(p).anterior;
                self.mudar_celula(p, prox, pa);
            },
            None => {},
        }
        match prox {
            Some(s) => {
                proof {
                    if k@ > 0 {
                        assert(o[k@ + 1] != o[k@ - 1]);
                    }
                }
                let sp = self.celula(s).proximo;
                self.mudar_celula(s, sp, ant);
            },
            None => {},
        }
        let ghost c2 = self.celulas@;
        assert(c2[r as int] is Some) by {
            if k@ > 0 {
                assert(o[k@] != o[k@ - 1]);
            }
            if k@ + 1 < o.len() {
                assert(o[k@] != o[k@ + 1]);
            }
        }
        assert forall|j: int| 0 <= j < self.livres@.len() implies (#[trigger] self.livres@[j])
            < c2.len() && c2[self.livres@[j] as int] is None by {
            assert(c[self.livres@[j] as int] is None);
        }
        self.liberar(r);
        if ant.is_none() {
            match prox {
                Some(s) => {
                    self.cabeca = s;
                },
                None => {},
            }
        }
        if prox.is_none() {
            match ant {
                Some(p) => {
                    self.ponta = p;
                },
                None => {},
            }
        }
        self.n = self.n - 1;
        proof {
            let c3 = self.celulas@;
            assert forall|i: int| 0 <= i < o.len() && i != k@ - 1 && i != k@ && i != k@ + 1 implies c3[#[trigger] o[i] as int]
                == c[o[i] as int] by {
                assert(o[i] != o[k@]);
                if k@ > 0 {
                    assert(o[i] != o[k@ - 1]);
                }
                if k@ + 1 < o.len() {
                    assert(o[i] != o[k@ + 1]);
                }
            }
            if k@ > 0 {
                assert(o[k@ - 1] != o[k@]);
            }
            if k@ + 1 < o.len() {
                assert(o[k@ + 1] != o[k@]);
            }
            assert(remocao_ligada(o, c, c3, k@));
            self.ordem@ = o.remove(k@);
            Self::lema_apos_remocao(old(self), self, k@);
        }
    }

    /// Deletes the cell right after the one at address `endereco`.
    pub fn deletar_apos(&mut self, endereco: usize)
        requires
            old(self).wf(),
            old(self).valido(endereco),
            endereco != old(self).spec_ponta(),
        ensures
            final(self).wf(),
            final(self)@ == old(self)@.remove(old(self).posicao(endereco) + 1),
            final(self).enderecos() == old(self).enderecos().remove(old(self).posicao(endereco) + 1),
    {
        let ghost k = self.posicao(endereco) + 1;
        proof {
            self.lema_posicao(endereco);
            reveal(seguinte);
        }
        let r = self.celula(endereco).proximo;
        let r = r.unwrap();
        let prox = self.celula(r).proximo;
        self.desligar_celula(Ghost(k), Some(endereco), r, prox);
    }

    /// Deletes the head cell.
    pub fn deletar_cabeca(&mut self)
        requires
            old(self).wf(),
            old(self)@.len() > 0,
        ensures
            final(self).wf(),
            final(self)@ == old(self)@.remove(0),
            final(self).enderecos() == old(self).enderecos().remove(0),
    {
        proof {
            reveal(seguinte);
        }
        let r = self.cabeca;
        let prox = self.celula(r).proximo;
        self.desligar_celula(Ghost(0), None, r, prox);
    }

    /// Deletes the cell at address `endereco`.
    pub fn deletar(&mut self, endereco: usize)
        requires
            old(self).wf(),
            old(self).valido(endereco),
        ensures
            final(self).wf(),
            final(self)@ == old(self)@.remove(old(self).posicao(endereco)),
            final(self).enderecos() == old(self).enderecos().remove(old(self).posicao(endereco)),
    {
        proof {
            self.lema_posicao(endereco);
            reveal(seguinte);
            reveal(precedente);
        }
        let ghost k = self.posicao(endereco);
        let ant = self.celula(endereco).anterior;
        let prox = self.celula(endereco).proximo;
        self.desligar_celula(Ghost(k), ant, endereco, prox);
    }

    /// Replaces the content of the cell at address `endereco`.
    pub fn alterar(&mut self, endereco: usize, conteudo: T)
        requires
            old(self).wf(),
            old(self).valido(endereco),
        ensures
            final(self).wf(),
            final(self)@ == old(self)@.update(old(self).posicao(endereco), conteudo),
            final(self).enderecos() == old(self).enderecos(),
    {
        proof {
            self.lema_posicao(endereco);
        }
        let ghost k = self.posicao(endereco);
        self.mudar_conteudo(endereco, conteudo);
        proof {
            lema_alterar_duplo(old(self).ordem@, old(self).celulas@, self.celulas@, k, conteudo);
            assert forall|j: int| 0 <= j < self.livres@.len() implies (#[trigger] self.livres@[j])
                < self.celulas@.len() && self.celulas@[self.livres@[j] as int] is None by {
                assert(old(self).celulas@[self.livres@[j] as int] is None);
            }
        }
    }
}

impl<T: Copy> ListaDupla<T> {
    /// The element after the cell at address `endereco`, with its address, or
    /// `None` at the tail.
    pub fn proxima(&self, endereco: usize) -> (r: Option<(T, usize)>)
        requires
            self.wf(),
            self.valido(endereco),
        ensures
            r == (if self.posicao(endereco) + 1 < self@.len() {
                Some(
                    (
                        self@[self.posicao(endereco) + 1],
                        self.enderecos()[self.posicao(endereco) + 1],
                    ),
                )
            } else {
                None
            }),
    {
        proof {
            self.lema_posicao(endereco);
            reveal(seguinte);
        }
        match self.celula(endereco).proximo {
            None => None,
            Some(p) => Some((self.celula(p).conteudo, p)),
        }
    }

    /// Same as `proxima`.
    pub fn proxima_mut(&mut self, endereco: usize) -> (r: Option<(T, usize)>)
        requires
            old(self).wf(),
            old(self).valido(endereco),
        ensures
            *final(self) == *old(self),
            r == (if old(self).posicao(endereco) + 1 < old(self)@.len() {
                Some(
                    (
                        old(self)@[old(self).posicao(endereco) + 1],
                        old(self).enderecos()[old(self).posicao(endereco) + 1],
                    ),
                )
            } else {
                None
            }),
    {
        self.proxima(endereco)
    }

    /// The element before the cell at address `endereco`, with its address, or
    /// `None` at the head.
    pub fn anterior_mut(&self, endereco: usize) -> (r: Option<(T, usize)>)
        requires
            self.wf(),
            self.valido(endereco) || endereco == self.spec_cabeca(),
        ensures
            r == (if endereco == self.spec_cabeca() {
                None
            } else {
                Some(
                    (
                        self@[self.posicao(endereco) - 1],
                        self.enderecos()[self.posicao(endereco) - 1],
                    ),
                )
            }),
    {
        if endereco == self.cabeca {
            return None;
        }
        proof {
            self.lema_posicao(endereco);
            reveal(precedente);
        }
        let a = self.celula(endereco).anterior.unwrap();
        Some((self.celula(a).conteudo, a))
    }

    /// Same as `anterior_mut`.
    pub fn anterior(&self, endereco: usize) -> (r: Option<(T, usize)>)
        requires
            self.wf(),
            self.valido(endereco) || endereco == self.spec_cabeca(),
        ensures
            r == (if endereco == self.spec_cabeca() {
                None
            } else {
                Some(
                    (
                        self@[self.posicao(endereco) - 1],
                        self.enderecos()[self.posicao(endereco) - 1],
                    ),
                )
            }),
    {
        self.anterior_mut(endereco)
    }

    /// The element at address `endereco`.
    pub fn ler(&self, endereco: usize) -> (r: T)
        requires
            self.wf(),
            self.valido(endereco),
        ensures
            r == self@[self.posicao(endereco)],
    {
        proof {
            self.lema_posicao(endereco);
        }
        self.celula(endereco).conteudo
    }

    /// The head element, with the address of the next cell if there is one.
    pub fn ler_cabeca(&self) -> (r: (T, Option<usize>))
        requires
            self.wf(),
            self@.len() > 0,
        ensures
            r.0 == self@[0],
            r.1 == (if self@.len() > 1 {
                Some(self.enderecos()[1])
            } else {
                None
            }),
    {
        proof {
            reveal(seguinte);
        }
        let c = self.celula(self.cabeca);
        (c.conteudo, c.proximo)
    }

    /// All the elements, from the head to the tail.
    pub fn elementos(&self) -> (r: Vec<T>)
        requires
            self.wf(),
        ensures
            r@ == self@,
    {
        let mut r: Vec<T> = Vec::new();
        if self.n == 0 {
            assert(r@ =~= self@);
            return r;
        }
        let mut atual = self.cabeca;
        let mut i: usize = 0;
        while i < self.n
            invariant
                self.wf(),
                0 <= i <= self.n,
                r@ == self@.take(i as int),
                i < self.n ==> atual == self.ordem@[i as int],
            decreases self.n - i,
        {
            let c = self.celula(atual);
            r.push(c.conteudo);
            proof {
                reveal(seguinte);
                assert(self@.take(i + 1) =~= self@.take(i as int).push(self@[i as int]));
            }
            i = i + 1;
            if i < self.n {
                atual = c.proximo.unwrap();
            }
        }
        assert(self@.take(self.n as int) =~= self@);
        r
    }

    /// An iterator over the elements, from the head to the tail.
    pub fn into_iter(&self) -> (r: IteradorListaDupla<'_, T>)
        requires
            self.wf(),
        ensures
            r.wf(),
            r.elementos() == self@,
            r.enderecos() == self.enderecos(),
            r.vistos() == 0,
    {
        IteradorListaDupla { lista: self, endereco_atual: self.cabeca, contagem: 0 }
    }
}

/// Walks a doubly linked list from the head to the tail.
pub struct IteradorListaDupla<'a, T> {
    lista: &'a ListaDupla<T>,
    endereco_atual: usize,
    contagem: usize,
}

impl<'a, T: Copy> IteradorListaDupla<'a, T> {
    /// The elements of the list being walked.
    pub closed spec fn elementos(&self) -> Seq<T> {
        self.lista@
    }

    /// The addresses of the cells of the list being walked.
    pub closed spec fn enderecos(&self) -> Seq<usize> {
        self.lista.enderecos()
    }

    /// How many elements were handed out so far.
    pub closed spec fn vistos(&self) -> nat {
        self.contagem as nat
    }

    /// Address of the last element handed out (the head before the first one).
    pub closed spec fn spec_endereco_atual(&self) -> usize {
        self.endereco_atual
    }

    pub closed spec fn wf(&self) -> bool {
        &&& self.lista.wf()
        &&& self.contagem <= self.lista.n
        &&& self.contagem > 0 ==> self.endereco_atual == self.lista.ordem@[self.contagem - 1]
        &&& self.contagem == 0 ==> self.endereco_atual == self.lista.cabeca
    }

    /// Address of the last element handed out (the head before the first one).
    pub fn endereco_atual(&self) -> (r: usize)
        requires
            self.wf(),
        ensures
            r == self.spec_endereco_atual(),
            self.vistos() > 0 ==> r == self.enderecos()[self.vistos() - 1],
    {
        self.endereco_atual
    }

    /// The next element, if any is left.
    pub fn next(&mut self) -> (r: Option<T>)
        requires
            old(self).wf(),
        ensures
            final(self).wf(),
            final(self).elementos() == old(self).elementos(),
            final(self).enderecos() == old(self).enderecos(),
            final(self).vistos() <= final(self).elementos().len(),
            old(self).vistos() < old(self).elementos().len() ==> r == Some(
                old(self).elementos()[old(self).vistos() as int],
            ) && final(self).vistos() == old(self).vistos() + 1,
            old(self).vistos() == old(self).elementos().len() ==> r is None && final(self).vistos()
                == old(self).vistos(),
    {
        if self.contagem == self.lista.n {
            None
        } else if self.contagem == 0 {
            self.contagem = 1;
            Some(self.lista.ler_cabeca().0)
        } else {
            proof {
                self.lista.lema_posicao(self.endereco_atual);
                assert(self.lista.ordem@[self.contagem - 1] == self.endereco_atual);
                assert(self.lista.valido(self.endereco_atual));
            }
            match self.lista.proxima(self.endereco_atual) {
                Some((conteudo, proximo_endereco)) => {
                    self.endereco_atual = proximo_endereco;
                    self.contagem = self.contagem + 1;
                    Some(conteudo)
                },
                None => None,
            }
        }
    }
}

/// The cells at the addresses `o`, in this order, form a singly linked chain in `c`.
pub open spec fn encadeamento_simples<T>(o: Seq<usize>, c: Seq<Option<CelulaSimples<T>>>) -> bool {
    &&& o.no_duplicates()
    &&& forall|i: int| 0 <= i < o.len() ==> (#[trigger] o[i]) < c.len() && c[o[i] as int] is Some
    &&& forall|i: int|
        0 <= i < o.len() ==> c[#[trigger] o[i] as int]->Some_0.proximo == seguinte(o, i)
}

/// The contents of the cells at the addresses `o`, in this order.
pub open spec fn conteudos_simples<T>(o: Seq<usize>, c: Seq<Option<CelulaSimples<T>>>) -> Seq<T> {
    o.map_values(|a: usize| c[a as int]->Some_0.conteudo)
}

/// What the cells around position `k` must look like once the cell `a` was
/// linked in there.
pub open spec fn insercao_ligada_simples<T>(
    o: Seq<usize>,
    c: Seq<Option<CelulaSimples<T>>>,
    c2: Seq<Option<CelulaSimples<T>>>,
    k: int,
    a: usize,
    x: T,
) -> bool {
    &&& encadeamento_simples(o, c)
    &&& 0 <= k <= o.len()
    &&& !o.contains(a)
    &&& a < c2.len()
    &&& c.len() <= c2.len()
    &&& c2[a as int] == Some(
        CelulaSimples {
            conteudo: x,
            proximo: if k < o.len() {
                Some(o[k])
            } else {
                None
            },
        },
    )
    &&& k > 0 ==> c2[o[k - 1] as int] == Some(
        CelulaSimples { conteudo: c[o[k - 1] as int]->Some_0.conteudo, proximo: Some(a) },
    )
    &&& forall|i: int|
        0 <= i < o.len() && i != k - 1 ==> c2[#[trigger] o[i] as int] == c[o[i] as int]
}

proof fn lema_inserir_ponto_simples<T>(
    o: Seq<usize>,
    c: Seq<Option<CelulaSimples<T>>>,
    c2: Seq<Option<CelulaSimples<T>>>,
    k: int,
    a: usize,
    x: T,
    i: int,
)
    requires
        insercao_ligada_simples(o, c, c2, k, a, x),
        0 <= i <= o.len(),
    ensures
        ({
            let o2 = o.insert(k, a);
            &&& o2[i] < c2.len()
            &&& c2[o2[i] as int] is Some
            &&& c2[o2[i] as int]->Some_0.proximo == seguinte(o2, i)
            &&& c2[o2[i] as int]->Some_0.conteudo == conteudos_simples(o, c).insert(k, x)[i]
        }),
{
    reveal(seguinte);
    lema_inserir_indice(o, k, a, i);
    if i + 1 <= o.len() {
        lema_inserir_indice(o, k, a, i + 1);
    }
    if i < k {
        assert(o[i] < c.len());
        if i != k - 1 {
            assert(c2[o[i] as int] == c[o[i] as int]);
        }
    } else if i > k {
        assert(o[i - 1] < c.len());
        assert(c2[o[i - 1] as int] == c[o[i - 1] as int]);
    }
}

/// Inserting the cell `a` at position `k` of a singly linked chain, once its
/// predecessor points to it, gives the chain with `a` inserted there.
proof fn lema_inserir_simples<T>(
    o: Seq<usize>,
    c: Seq<Option<CelulaSimples<T>>>,
    c2: Seq<Option<CelulaSimples<T>>>,
    k: int,
    a: usize,
    x: T,
)
    requires
        insercao_ligada_simples(o, c, c2, k, a, x),
    ensures
        encadeamento_simples(o.insert(k, a), c2),
        conteudos_simples(o.insert(k, a), c2) == conteudos_simples(o, c).insert(k, x),
{
    let o2 = o.insert(k, a);
    assert forall|i: int, j: int| 0 <= i < o2.len() && 0 <= j < o2.len() && i != j implies o2[i]
        != o2[j] by {
        lema_inserir_indice(o, k, a, i);
        lema_inserir_indice(o, k, a, j);
        if i != k && j != k {
        } else if i == k {
            let jj = if j < k { j } else { j - 1 };
            assert(o[jj] == o2[j]);
        } else {
            let ii = if i < k { i } else { i - 1 };
            assert(o[ii] == o2[i]);
        }
    }
    assert forall|i: int| 0 <= i < o2.len() implies (#[trigger] o2[i]) < c2.len() && c2[o2[i] as int] is Some
        && c2[o2[i] as int]->Some_0.proximo == seguinte(o2, i) by {
        lema_inserir_ponto_simples(o, c, c2, k, a, x, i);
    }
    let v = conteudos_simples(o, c);
    let v2 = conteudos_simples(o2, c2);
    assert forall|i: int| 0 <= i < v2.len() implies v2[i] == v.insert(k, x)[i] by {
        lema_inserir_ponto_simples(o, c, c2, k, a, x, i);
    }
    assert(v2 =~= v.insert(k, x));
}

/// What the predecessor of the cell at position `k` must look like once that
/// cell was unlinked.
pub open spec fn remocao_ligada_simples<T>(
    o: Seq<usize>,
    c: Seq<Option<CelulaSimples<T>>>,
    c2: Seq<Option<CelulaSimples<T>>>,
    k: int,
) -> bool {
    &&& encadeamento_simples(o, c)
    &&& 0 <= k < o.len()
    &&& c.len() <= c2.len()
    &&& k > 0 ==> c2[o[k - 1] as int] == Some(
        CelulaSimples {
            conteudo: c[o[k - 1] as int]->Some_0.conteudo,
            proximo: if k + 1 < o.len() {
                Some(o[k + 1])
            } else {
                None
            },
        },
    )
    &&& forall|i: int|
        0 <= i < o.len() && i != k - 1 && i != k ==> c2[#[trigger] o[i] as int] == c[o[i] as int]
}

proof fn lema_remover_ponto_simples<T>(
    o: Seq<usize>,
    c: Seq<Option<CelulaSimples<T>>>,
    c2: Seq<Option<CelulaSimples<T>>>,
    k: int,
    i: int,
)
    requires
        remocao_ligada_simples(o, c, c2, k),
        0 <= i < o.len() - 1,
    ensures
        ({
            let o2 = o.remove(k);
            &&& o2[i] < c2.len()
            &&& c2[o2[i] as int] is Some
            &&& c2[o2[i] as int]->Some_0.proximo == seguinte(o2, i)
            &&& c2[o2[i] as int]->Some_0.conteudo == conteudos_simples(o, c).remove(k)[i]
        }),
{
    reveal(seguinte);
    lema_remover_indice(o, k, i);
    if i + 1 < o.len() - 1 {
        lema_remover_indice(o, k, i + 1);
    }
    let ii = if i < k { i } else { i + 1 };
    assert(o[ii] < c.len());
    if ii != k - 1 {
        assert(c2[o[ii] as int] == c[o[ii] as int]);
    }
}

/// Unlinking the cell at position `k` of a singly linked chain, once its
/// predecessor points past it, gives the chain without it.
proof fn lema_remover_simples<T>(
    o: Seq<usize>,
    c: Seq<Option<CelulaSimples<T>>>,
    c2: Seq<Option<CelulaSimples<T>>>,
    k: int,
)
    requires
        remocao_ligada_simples(o, c, c2, k),
    ensures
        encadeamento_simples(o.remove(k), c2),
        conteudos_simples(o.remove(k), c2) == conteudos_simples(o, c).remove(k),
{
    let o2 = o.remove(k);
    assert forall|i: int, j: int| 0 <= i < o2.len() && 0 <= j < o2.len() && i != j implies o2[i]
        != o2[j] by {
        lema_remover_indice(o, k, i);
        lema_remover_indice(o, k, j);
        let ii = if i < k { i } else { i + 1 };
        let jj = if j < k { j } else { j + 1 };
        assert(o[ii] == o2[i]);
        assert(o[jj] == o2[j]);
    }
    assert forall|i: int| 0 <= i < o2.len() implies (#[trigger] o2[i]) < c2.len() && c2[o2[i] as int] is Some
        && c2[o2[i] as int]->Some_0.proximo == seguinte(o2, i) by {
        lema_remover_ponto_simples(o, c, c2, k, i);
    }
    let v = conteudos_simples(o, c);
    let v2 = conteudos_simples(o2, c2);
    assert forall|i: int| 0 <= i < v2.len() implies v2[i] == v.remove(k)[i] by {
        lema_remover_ponto_simples(o, c, c2, k, i);
    }
    assert(v2 =~= v.remove(k));
}

/// Singly linked list.
pub struct ListaEncadeada<T> {
    n: usize,
    cabeca: usize,
    ponta: usize,
    celulas: Vec<Option<CelulaSimples<T>>>,
    livres: Vec<usize>,
    ordem: Ghost<Seq<usize>>,
}

impl<T> View for ListaEncadeada<T> {
    type V = Seq<T>;

    closed spec fn view(&self) -> Seq<T> {
        conteudos_simples(self.ordem@, self.celulas@)
    }
}

impl<T> ListaEncadeada<T> {
    /// The addresses of the cells, from the head to the tail.
    pub closed spec fn enderecos(&self) -> Seq<usize> {
        self.ordem@
    }

    /// `e` is the address of a cell of the list.
    pub open spec fn valido(&self, e: usize) -> bool {
        self.enderecos().contains(e)
    }

    /// Position in the list of the cell at address `e`.
    pub open spec fn posicao(&self, e: usize) -> int {
        self.enderecos().index_of(e)
    }

    pub closed spec fn spec_cabeca(&self) -> usize {
        self.cabeca
    }

    pub closed spec fn spec_ponta(&self) -> usize {
        self.ponta
    }

    pub closed spec fn wf(&self) -> bool {
        &&& encadeamento_simples(self.ordem@, self.celulas@)
        &&& livres_validos(self.livres@, self.celulas@)
        &&& self.n == self.ordem@.len()
        &&& self.n + self.livres@.len() == self.celulas@.len()
        &&& self.n > 0 ==> self.cabeca == self.ordem@[0] && self.ponta == self.ordem@.last()
    }

    /// What every well-formed list satisfies: one distinct address per element,
    /// the head and the tail at the two ends.
    pub proof fn lema_forma(&self)
        requires
            self.wf(),
        ensures
            self.enderecos().len() == self@.len(),
            self.enderecos().no_duplicates(),
            self@.len() > 0 ==> self.spec_cabeca() == self.enderecos()[0],
            self@.len() > 0 ==> self.spec_ponta() == self.enderecos().last(),
    {
    }

    /// Number of elements.
    pub fn n(&self) -> (r: usize)
        requires
            self.wf(),
        ensures
            r == self@.len(),
    {
        self.n
    }

    /// Address of the head cell (meaningful when the list is not empty).
    pub fn cabeca(&self) -> (r: usize)
        ensures
            r == self.spec_cabeca(),
    {
        self.cabeca
    }

    /// Address of the tail cell (meaningful when the list is not empty).
    pub fn ponta(&self) -> (r: usize)
        ensures
            r == self.spec_ponta(),
    {
        self.ponta
    }

    proof fn lema_posicao(&self, e: usize)
        requires
            self.wf(),
            self.valido(e),
        ensures
            0 <= self.posicao(e) < self@.len(),
            self.enderecos()[self.posicao(e)] == e,
            forall|j: int| 0 <= j < self@.len() && self.enderecos()[j] == e ==> j == self.posicao(e),
    {
    }

    fn celula(&self, a: usize) -> (r: &CelulaSimples<T>)
        requires
            a < self.celulas@.len(),
            self.celulas@[a as int] is Some,
        ensures
            *r == self.celulas@[a as int]->Some_0,
    {
        self.celulas[a].as_ref().unwrap()
    }

    fn mudar_proximo(&mut self, a: usize, proximo: Option<usize>)
        requires
            a < old(self).celulas@.len(),
            old(self).celulas@[a as int] is Some,
        ensures
            final(self).celulas@ == old(self).celulas@.update(
                a as int,
                Some(CelulaSimples { conteudo: old(self).celulas@[a as int]->Some_0.conteudo, proximo }),
            ),
            final(self).livres == old(self).livres,
            final(self).ordem == old(self).ordem,
            final(self).n == old(self).n,
            final(self).cabeca == old(self).cabeca,
            final(self).ponta == old(self).ponta,
    {
        let mut c: Option<CelulaSimples<T>> = None;
        std::mem::swap(&mut c, &mut self.celulas[a]);
        let cel = c.unwrap();
        self.celulas.set(a, Some(CelulaSimples { conteudo: cel.conteudo, proximo }));
    }

    fn mudar_conteudo(&mut self, a: usize, conteudo: T)
        requires
            a < old(self).celulas@.len(),
            old(self).celulas@[a as int] is Some,
        ensures
            final(self).celulas@ == old(self).celulas@.update(
                a as int,
                Some(CelulaSimples { conteudo, proximo: old(self).celulas@[a as int]->Some_0.proximo }),
            ),
            final(self).livres == old(self).livres,
            final(self).ordem == old(self).ordem,
            final(self).n == old(self).n,
            final(self).cabeca == old(self).cabeca,
            final(self).ponta == old(self).ponta,
    {
        let mut c: Option<CelulaSimples<T>> = None;
        std::mem::swap(&mut c, &mut self.celulas[a]);
        let cel = c.unwrap();
        self.celulas.set(a, Some(CelulaSimples { conteudo, proximo: cel.proximo }));
    }

    /// Puts `cel` in a free slot (or a new one) and returns its address.
    fn alocar(&mut self, cel: CelulaSimples<T>) -> (a: usize)
        requires
            livres_validos(old(self).livres@, old(self).celulas@),
            old(self).n + old(self).livres@.len() == old(self).celulas@.len(),
            encadeamento_simples(old(self).ordem@, old(self).celulas@),
        ensures
            a < final(self).celulas@.len(),
            final(self).celulas@[a as int] == Some(cel),
            !old(self).ordem@.contains(a),
            forall|j: int|
                0 <= j < old(self).celulas@.len() && j != a ==> final(self).celulas@[j]
                    == old(self).celulas@[j],
            old(self).celulas@.len() <= final(self).celulas@.len() <= usize::MAX,
            livres_validos(final(self).livres@, final(self).celulas@),
            final(self).n + 1 + final(self).livres@.len() == final(self).celulas@.len(),
            final(self).ordem == old(self).ordem,
            final(self).n == old(self).n,
            final(self).cabeca == old(self).cabeca,
            final(self).ponta == old(self).ponta,
    {
        let ghost o = self.ordem@;
        let ghost c0 = self.celulas@;
        let a = match self.livres.pop() {
            Some(a) => {
                proof {
                    assert(self.livres@ =~= old(self).livres@.drop_last());
                    assert(old(self).livres@.last() == a);
                }
                self.celulas.set(a, Some(cel));
                proof {
                    assert forall|j: int| 0 <= j < self.livres@.len() implies (#[trigger] self.livres@[j])
                        < self.celulas@.len() && self.celulas@[self.livres@[j] as int] is None by {
                        assert(old(self).livres@[j] == self.livres@[j]);
                        assert(old(self).livres@[old(self).livres@.len() - 1] == a);
                    }
                    if o.contains(a) {
                        let i = choose|i: int| 0 <= i < o.len() && o[i] == a;
                        assert(c0[o[i] as int] is Some);
                    }
                }
                a
            },
            None => {
                let a = self.celulas.len();
                self.celulas.push(Some(cel));
                proof {
                    assert forall|j: int| 0 <= j < self.livres@.len() implies (#[trigger] self.livres@[j])
                        < self.celulas@.len() && self.celulas@[self.livres@[j] as int] is None by {
                        assert(old(self).livres@[j] == self.livres@[j]);
                    }
                    if o.contains(a) {
                        let i = choose|i: int| 0 <= i < o.len() && o[i] == a;
                        assert(o[i] < c0.len());
                    }
                }
                a
            },
        };
        let _tamanho = self.celulas.len();
        a
    }

    /// Frees the slot at address `a`, dropping its cell.
    fn liberar(&mut self, a: usize)
        requires
            a < old(self).celulas@.len(),
            old(self).celulas@[a as int] is Some,
            livres_validos(old(self).livres@, old(self).celulas@),
        ensures
            final(self).celulas@ == old(self).celulas@.update(a as int, None),
            final(self).livres@ == old(self).livres@.push(a),
            livres_validos(final(self).livres@, final(self).celulas@),
            final(self).ordem == old(self).ordem,
            final(self).n == old(self).n,
            final(self).cabeca == old(self).cabeca,
            final(self).ponta == old(self).ponta,
    {
        self.celulas.set(a, None);
        self.livres.push(a);
        proof {
            let l = self.livres@;
            assert forall|j: int| 0 <= j < l.len() implies (#[trigger] l[j]) < self.celulas@.len()
                && self.celulas@[l[j] as int] is None by {
                if j < l.len() - 1 {
                    assert(old(self).livres@[j] == l[j]);
                }
            }
            assert forall|i: int, j: int| 0 <= i < l.len() && 0 <= j < l.len() && i != j implies l[i]
                != l[j] by {
                if i < l.len() - 1 && j < l.len() - 1 {
                    assert(old(self).livres@[i] == l[i]);
                    assert(old(self).livres@[j] == l[j]);
                } else if i < l.len() - 1 {
                    assert(old(self).livres@[i] == l[i]);
                } else if j < l.len() - 1 {
                    assert(old(self).livres@[j] == l[j]);
                }
            }
        }
    }

    /// Creates an empty list.
    pub fn novo() -> (r: Self)
        ensures
            r.wf(),
            r@ == Seq::<T>::empty(),
            r.enderecos() == Seq::<usize>::empty(),
    {
        let r = ListaEncadeada {
            n: 0,
            cabeca: 0,
            ponta: 0,
            celulas: Vec::new(),
            livres: Vec::new(),
            ordem: Ghost(Seq::empty()),
        };
        assert(r@ =~= Seq::<T>::empty());
        r
    }

    /// Links a new cell holding `conteudo` at position `k`, right after the
    /// cell at address `ant` (if `k > 0`); `prox` is the address now at `k`.
    #[verifier::rlimit(30)]
    fn ligar_celula_nova(&mut self, k: Ghost<int>, ant: Option<usize>, prox: Option<usize>, conteudo: T) -> (a: usize)
        requires
            old(self).wf(),
            0 <= k@ <= old(self).n,
            ant == (if k@ > 0 { Some(old(self).ordem@[k@ - 1]) } else { None }),
            prox == (if k@ < old(self).n { Some(old(self).ordem@[k@]) } else { None }),
        ensures
            final(self).wf(),
            final(self)@ == old(self)@.insert(k@, conteudo),
            final(self).enderecos() == old(self).enderecos().insert(k@, a),
            !old(self).enderecos().contains(a),
    {
        let ghost o = self.ordem@;
        let ghost c = self.celulas@;
        let a = self.alocar(CelulaSimples { conteudo, proximo: prox });
        let ghost c1 = self.celulas@;
        match ant {
            Some(p) => {
                self.mudar_proximo(p, Some(a));
            },
            None => {},
        }
        if ant.is_none() {
            self.cabeca = a;
        }
        if prox.is_none() {
            self.ponta = a;
        }
        proof {
            let c3 = self.celulas@;
            assert forall|i: int| 0 <= i < o.len() && i != k@ - 1 implies c3[#[trigger] o[i] as int]
                == c[o[i] as int] by {
                assert(o[i] != a);
                if k@ > 0 {
                    assert(o[i] != o[k@ - 1]);
                }
            }
            assert(insercao_ligada_simples(o, c, c3, k@, a, conteudo));
            assert forall|j: int| 0 <= j < self.livres@.len() implies (#[trigger] self.livres@[j])
                < c3.len() && c3[self.livres@[j] as int] is None by {
                assert(c1[self.livres@[j] as int] is None);
            }
            lema_inserir_simples(o, c, c3, k@, a, conteudo);
            self.ordem@ = o.insert(k@, a);
            lema_inserir_indice(o, k@, a, 0);
            lema_inserir_indice(o, k@, a, o.len() as int);
        }
        self.n = self.n + 1;
        a
    }

    /// Puts `elemento` at the tail of the list.
    pub fn colocar(&mut self, elemento: T)
        requires
            old(self).wf(),
        ensures
            final(self).wf(),
            final(self)@ == old(self)@.push(elemento),
            final(self).enderecos() == old(self).enderecos().push(final(self).spec_ponta()),
            !old(self).enderecos().contains(final(self).spec_ponta()),
    {
        let ghost o = self.ordem@;
        let ant = if self.n == 0 { None } else { Some(self.ponta) };
        let a = self.ligar_celula_nova(Ghost(o.len() as int), ant, None, elemento);
        proof {
            assert(o.push(a) =~= o.insert(o.len() as int, a));
            assert(old(self)@.push(elemento) =~= old(self)@.insert(o.len() as int, elemento));
        }
    }

    /// Inserts `conteudo` right after the cell at address `endereco`.
    pub fn inserir_apos(&mut self, endereco: usize, conteudo: T)
        requires
            old(self).wf(),
            old(self).valido(endereco),
        ensures
            final(self).wf(),
            final(self)@ == old(self)@.insert(old(self).posicao(endereco) + 1, conteudo),
            final(self).enderecos() == old(self).enderecos().insert(
                old(self).posicao(endereco) + 1,
                final(self).enderecos()[old(self).posicao(endereco) + 1],
            ),
            !old(self).enderecos().contains(final(self).enderecos()[old(self).posicao(endereco) + 1]),
    {
        let ghost k = self.posicao(endereco) + 1;
        proof {
            self.lema_posicao(endereco);
            reveal(seguinte);
        }
        let prox = self.celula(endereco).proximo;
        let a = self.ligar_celula_nova(Ghost(k), Some(endereco), prox, conteudo);
        proof {
            lema_inserir_indice(old(self).ordem@, k, a, k);
        }
    }

    /// Unlinks and frees the cell at position `k`, whose predecessor (if any)
    /// is at address `ant`.
    #[verifier::rlimit(30)]
    fn desligar_celula(&mut self, k: Ghost<int>, ant: Option<usize>, r: usize, prox: Option<usize>)
        requires
            old(self).wf(),
            0 <= k@ < old(self).n,
            ant == (if k@ > 0 { Some(old(self).ordem@[k@ - 1]) } else { None }),
            r == old(self).ordem@[k@],
            prox == (if k@ + 1 < old(self).n { Some(old(self).ordem@[k@ + 1]) } else { None }),
        ensures
            final(self).wf(),
            final(self)@ == old(self)@.remove(k@),
            final(self).enderecos() == old(self).enderecos().remove(k@),
    {
        let ghost o = self.ordem@;
        let ghost c = self.celulas@;
        match ant {
            Some(p) => {
                self.mudar_proximo(p, prox);
            },
            None => {},
        }
        let ghost c2 = self.celulas@;
        assert(c2[r as int] is Some) by {
            if k@ > 0 {
                assert(o[k@] != o[k@ - 1]);
            }
        }
        assert forall|j: int| 0 <= j < self.livres@.len() implies (#[trigger] self.livres@[j])
            < c2.len() && c2[self.livres@[j] as int] is None by {
            assert(c[self.livres@[j] as int] is None);
        }
        self.liberar(r);
        if ant.is_none() {
            match prox {
                Some(s) => {
                    self.cabeca = s;
                },
                None => {},
            }
        }
        if prox.is_none() {
            match ant {
                Some(p) => {
                    self.ponta = p;
                },
                None => {},
            }
        }
        self.n = self.n - 1;
        proof {
            let c3 = self.celulas@;
            assert forall|i: int| 0 <= i < o.len() && i != k@ - 1 && i != k@ implies c3[#[trigger] o[i] as int]
                == c[o[i] as int] by {
                assert(o[i] != o[k@]);
                if k@ > 0 {
                    assert(o[i] != o[k@ - 1]);
                }
            }
            if k@ > 0 {
                assert(o[k@ - 1] != o[k@]);
            }
            assert(remocao_ligada_simples(o, c, c3, k@));
            lema_remover_simples(o, c, c3, k@);
            self.ordem@ = o.remove(k@);
        }
    }

    /// Deletes the cell right after the one at address `endereco`.
    pub fn deletar_apos(&mut self, endereco: usize)
        requires
            old(self).wf(),
            old(self).valido(endereco),
            endereco != old(self).spec_ponta(),
        ensures
            final(self).wf(),
            final(self)@ == old(self)@.remove(old(self).posicao(endereco) + 1),
            final(self).enderecos() == old(self).enderecos().remove(old(self).posicao(endereco) + 1),
    {
        let ghost k = self.posicao(endereco) + 1;
        proof {
            self.lema_posicao(endereco);
            reveal(seguinte);
        }
        let r = self.celula(endereco).proximo;
        let r = r.unwrap();
        let prox = self.celula(r).proximo;
        self.desligar_celula(Ghost(k), Some(endereco), r, prox);
    }

    /// Deletes the head cell.
    pub fn deletar_cabeca(&mut self)
        requires
            old(self).wf(),
            old(self)@.len() > 0,
        ensures
            final(self).wf(),
            final(self)@ == old(self)@.remove(0),
            final(self).enderecos() == old(self).enderecos().remove(0),
    {
        proof {
            reveal(seguinte);
        }
        let r = self.cabeca;
        let prox = self.celula(r).proximo;
        self.desligar_celula(Ghost(0), None, r, prox);
    }

    /// Replaces the content of the cell at address `endereco`.
    pub fn alterar(&mut self, endereco: usize, conteudo: T)
        requires
            old(self).wf(),
            old(self).valido(endereco),
        ensures
            final(self).wf(),
            final(self)@ == old(self)@.update(old(self).posicao(endereco), conteudo),
            final(self).enderecos() == old(self).enderecos(),
    {
        proof {
            self.lema_posicao(endereco);
        }
        let ghost k = self.posicao(endereco);
        let ghost o = self.ordem@;
        self.mudar_conteudo(endereco, conteudo);
        proof {
            let c = old(self).celulas@;
            let c2 = self.celulas@;
            assert forall|i: int| 0 <= i < o.len() && i != k implies c2[#[trigger] o[i] as int] == c[o[i] as int] by {
                assert(o[i] != o[k]);
            }
            assert(encadeamento_simples(o, c2));
            assert(self@ =~= old(self)@.update(k, conteudo));
            assert forall|j: int| 0 <= j < self.livres@.len() implies (#[trigger] self.livres@[j])
                < self.celulas@.len() && self.celulas@[self.livres@[j] as int] is None by {
                assert(old(self).celulas@[self.livres@[j] as int] is None);
            }
        }
    }
}

impl<T: Copy> ListaEncadeada<T> {
    /// The element after the cell at address `endereco`, with its address.
    /// The tail has no next element: asking for it there is refused.
    pub fn proxima(&self, endereco: usize) -> (r: Option<(T, usize)>)
        requires
            self.wf(),
            self.valido(endereco),
            endereco != self.spec_ponta(),
        ensures
            r == Some(
                (
                    self@[self.posicao(endereco) + 1],
                    self.enderecos()[self.posicao(endereco) + 1],
                ),
            ),
    {
        proof {
            self.lema_posicao(endereco);
            reveal(seguinte);
        }
        match self.celula(endereco).proximo {
            None => None,
            Some(p) => Some((self.celula(p).conteudo, p)),
        }
    }

    /// Same as `proxima`.
    pub fn proxima_mut(&mut self, endereco: usize) -> (r: Option<(T, usize)>)
        requires
            old(self).wf(),
            old(self).valido(endereco),
            endereco != old(self).spec_ponta(),
        ensures
            *final(self) == *old(self),
            r == Some(
                (
                    old(self)@[old(self).posicao(endereco) + 1],
                    old(self).enderecos()[old(self).posicao(endereco) + 1],
                ),
            ),
    {
        self.proxima(endereco)
    }

    /// The element at address `endereco`.
    pub fn ler(&self, endereco: usize) -> (r: T)
        requires
            self.wf(),
            self.valido(endereco),
        ensures
            r == self@[self.posicao(endereco)],
    {
        proof {
            self.lema_posicao(endereco);
        }
        self.celula(endereco).conteudo
    }

    /// The head element, with the address of the next cell if there is one.
    pub fn ler_cabeca(&self) -> (r: (T, Option<usize>))
        requires
            self.wf(),
            self@.len() > 0,
        ensures
            r.0 == self@[0],
            r.1 == (if self@.len() > 1 {
                Some(self.enderecos()[1])
            } else {
                None
            }),
    {
        proof {
            reveal(seguinte);
        }
        let c = self.celula(self.cabeca);
        (c.conteudo, c.proximo)
    }

    /// All the elements, from the head to the tail.
    pub fn elementos(&self) -> (r: Vec<T>)
        requires
            self.wf(),
        ensures
            r@ == self@,
    {
        let mut r: Vec<T> = Vec::new();
        if self.n == 0 {
            assert(r@ =~= self@);
            return r;
        }
        let mut atual = self.cabeca;
        let mut i: usize = 0;
        while i < self.n
            invariant
                self.wf(),
                0 <= i <= self.n,
                r@ == self@.take(i as int),
                i < self.n ==> atual == self.ordem@[i as int],
            decreases self.n - i,
        {
            let c = self.celula(atual);
            r.push(c.conteudo);
            proof {
                reveal(seguinte);
                assert(self@.take(i + 1) =~= self@.take(i as int).push(self@[i as int]));
            }
            i = i + 1;
            if i < self.n {
                atual = c.proximo.unwrap();
            }
        }
        assert(self@.take(self.n as int) =~= self@);
        r
    }

    /// An iterator over the elements, from the head to the tail.
    pub fn into_iter(&self) -> (r: IteradorLista<'_, T>)
        requires
            self.wf(),
        ensures
            r.wf(),
            r.elementos() == self@,
            r.vistos() == 0,
    {
        IteradorLista { lista: self, endereco_atual: self.cabeca, contagem: 0 }
    }
}

/// Walks a singly linked list from the head to the tail.
pub struct IteradorLista<'a, T> {
    lista: &'a ListaEncadeada<T>,
    endereco_atual: usize,
    contagem: usize,
}

impl<'a, T: Copy> IteradorLista<'a, T> {
    /// The elements of the list being walked.
    pub closed spec fn elementos(&self) -> Seq<T> {
        self.lista@
    }

    /// How many elements were handed out so far.
    pub closed spec fn vistos(&self) -> nat {
        self.contagem as nat
    }

    pub closed spec fn wf(&self) -> bool {
        &&& self.lista.wf()
        &&& self.contagem <= self.lista.n
        &&& self.contagem > 0 ==> self.endereco_atual == self.lista.ordem@[self.contagem - 1]
        &&& self.contagem == 0 ==> self.endereco_atual == self.lista.cabeca
    }

    /// The next element, if any is left.
    pub fn next(&mut self) -> (r: Option<T>)
        requires
            old(self).wf(),
        ensures
            final(self).wf(),
            final(self).elementos() == old(self).elementos(),
            old(self).vistos() < old(self).elementos().len() ==> r == Some(
                old(self).elementos()[old(self).vistos() as int],
            ) && final(self).vistos() == old(self).vistos() + 1,
            old(self).vistos() == old(self).elementos().len() ==> r is None && final(self).vistos()
                == old(self).vistos(),
    {
        if self.contagem == self.lista.n {
            None
        } else if self.contagem == 0 {
            self.contagem = 1;
            Some(self.lista.ler_cabeca().0)
        } else {
            proof {
                self.lista.lema_posicao(self.endereco_atual);
                assert(self.lista.ordem@[self.contagem - 1] == self.endereco_atual);
                assert(self.lista.valido(self.endereco_atual));
                assert(self.lista.ordem@.no_duplicates());
                assert(self.lista.ordem@[self.lista.n - 1] == self.lista.ponta);
            }
            match self.lista.proxima(self.endereco_atual) {
                Some((conteudo, proximo_endereco)) => {
                    self.endereco_atual = proximo_endereco;
                    self.contagem = self.contagem + 1;
                    Some(conteudo)
                },
                None => None,
            }
        }
    }
}

/// Inserting an element after position `k` and then deleting the element
/// after position `k` gives back the list; so does inserting before
/// position `k` and then deleting at position `k`.
pub proof fn lei_inserir_e_deletar<T>(s: Seq<T>, k: int, x: T)
    requires
        0 <= k < s.len(),
    ensures
        s.insert(k + 1, x).remove(k + 1) == s,
        s.insert(k, x).remove(k) == s,
{
    assert(s.insert(k + 1, x).remove(k + 1) =~= s);
    assert(s.insert(k, x).remove(k) =~= s);
}

/// The cells of a list keep their addresses when a cell is put in or taken
/// out elsewhere: an address of the list stays an address of it, one place
/// further when the new cell came before it, one place nearer when the cell
/// taken out was before it.
pub proof fn lei_enderecos_estaveis(e: Seq<usize>, k: int, a: usize, x: usize)
    requires
        e.no_duplicates(),
        e.contains(x),
    ensures
        !e.contains(a) && 0 <= k <= e.len() ==> e.insert(k, a).contains(x) && e.insert(k, a).index_of(x)
            == (if e.index_of(x) < k {
            e.index_of(x)
        } else {
            e.index_of(x) + 1
        }),
        0 <= k < e.len() && e[k] != x ==> e.remove(k).contains(x) && e.remove(k).index_of(x) == (if e.index_of(x)
            < k {
            e.index_of(x)
        } else {
            e.index_of(x) - 1
        }),
{
    let j = e.index_of(x);
    assert(0 <= j < e.len() && e[j] == x);
    if !e.contains(a) && 0 <= k <= e.len() {
        let e2 = e.insert(k, a);
        let j2 = if j < k { j } else { j + 1 };
        assert(e2[j2] == x);
        assert(e2.contains(x));
        let c = e2.index_of(x);
        assert(0 <= c < e2.len() && e2[c] == x);
        if c != j2 {
            let c0 = if c < k { c } else if c == k { -1 } else { c - 1 };
            if c == k {
                assert(e2[c] == a);
            } else {
                assert(e[c0] == x);
            }
        }
    }
    if 0 <= k < e.len() && e[k] != x {
        let e3 = e.remove(k);
        assert(j != k);
        let j3 = if j < k { j } else { j - 1 };
        assert(e3[j3] == x);
        assert(e3.contains(x));
        let c = e3.index_of(x);
        assert(0 <= c < e3.len() && e3[c] == x);
        let c0 = if c < k { c } else { c + 1 };
        assert(e[c0] == x);
    }
}

} // verus!
