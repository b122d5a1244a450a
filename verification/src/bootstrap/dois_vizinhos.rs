//! The modified two-neighbour process solved by divide and conquer: the
//! infected part of the final configuration is a set of rectangles, found
//! for each quarter of a square and then merged.
use vstd::prelude::*;
use crate::bootstrap::expansao::{bloco_infectado, fechado, lema_crescer};
use crate::bootstrap::{
    FamiliaUpdate, ProcessoBootstrap, Tabuleiro, estavel, maior_int, menor_int, celulas_tabuleiro, forma_tabuleiro,
};

verus! {

/// The cell at row `x`, column `y` lies in the rectangle `r = [x1, x2, y1, y2]`
/// (rows `x1..x2`, columns `y1..y2`).
pub open spec fn dentro(r: [usize; 4], x: int, y: int) -> bool {
    r[0] <= x < r[1] && r[2] <= y < r[3]
}

/// The rectangles `a` and `b` overlap or touch, by a side or by a corner.
pub open spec fn tocam(a: [usize; 4], b: [usize; 4]) -> bool {
    b[0] <= a[1] && b[1] >= a[0] && b[2] <= a[3] && b[3] >= a[2]
}

/// The rectangle `m` holds the rectangle `q`.
pub open spec fn engloba(m: [usize; 4], q: [usize; 4]) -> bool {
    m[0] <= q[0] && q[1] <= m[1] && m[2] <= q[2] && q[3] <= m[3]
}

/// The rectangle `r` is not empty and lies within the area `lim`.
pub open spec fn valido(r: [usize; 4], lim: [usize; 4]) -> bool {
    r[0] < r[1] && r[2] < r[3] && engloba(lim, r)
}

/// Some rectangle of `s` holds the cell at row `x`, column `y`.
pub open spec fn cobre(s: Seq<[usize; 4]>, x: int, y: int) -> bool {
    exists|q: [usize; 4]| s.contains(q) && #[trigger] dentro(q, x, y)
}

/// Every rectangle of `s` is valid within `lim`.
pub open spec fn todos_validos(s: Seq<[usize; 4]>, lim: [usize; 4]) -> bool {
    forall|q: [usize; 4]| #[trigger] s.contains(q) ==> valido(q, lim)
}

/// No two rectangles of `s` touch.
pub open spec fn sem_toques(s: Seq<[usize; 4]>) -> bool {
    forall|p: [usize; 4], q: [usize; 4]|
        #[trigger] s.contains(p) && #[trigger] s.contains(q) && p != q ==> !tocam(p, q)
}

/// Whether the rectangles `ret1` and `ret2` overlap or touch.
pub fn retangulos_tocam(ret1: [usize; 4], ret2: [usize; 4]) -> (r: bool)
    ensures
        r == tocam(ret1, ret2),
{
    let (x1a, x2a, y1a, y2a) = (ret1[0], ret1[1], ret1[2], ret1[3]);
    let (x1b, x2b, y1b, y2b) = (ret2[0], ret2[1], ret2[2], ret2[3]);
    x1b <= x2a && x2b >= x1a && y1b <= y2a && y2b >= y1a
}

/// The smallest rectangle that holds `a` and `b`.
fn caixa(a: [usize; 4], b: [usize; 4]) -> (m: [usize; 4])
    ensures
        m[0] == menor_int(a[0] as int, b[0] as int),
        m[1] == maior_int(a[1] as int, b[1] as int),
        m[2] == menor_int(a[2] as int, b[2] as int),
        m[3] == maior_int(a[3] as int, b[3] as int),
        engloba(m, a),
        engloba(m, b),
{
    let x1 = if a[0] < b[0] {
        a[0]
    } else {
        b[0]
    };
    let x2 = if a[1] > b[1] {
        a[1]
    } else {
        b[1]
    };
    let y1 = if a[2] < b[2] {
        a[2]
    } else {
        b[2]
    };
    let y2 = if a[3] > b[3] {
        a[3]
    } else {
        b[3]
    };
    [x1, x2, y1, y2]
}

/// Whether the rectangles `a` and `b` are the same.
fn iguais(a: &[usize; 4], b: &[usize; 4]) -> (r: bool)
    ensures
        r == (*a == *b),
{
    let r = a[0] == b[0] && a[1] == b[1] && a[2] == b[2] && a[3] == b[3];
    proof {
        if r {
            assert(*a =~= *b);
        }
    }
    r
}

/// Whether `v` holds the rectangle `r`.
fn contem(v: &Vec<[usize; 4]>, r: &[usize; 4]) -> (b: bool)
    ensures
        b == v@.contains(*r),
{
    let mut k: usize = 0;
    while k < v.len()
        invariant
            0 <= k <= v@.len(),
            forall|q: int| 0 <= q < k ==> v@[q] != *r,
        decreases v@.len() - k,
    {
        if iguais(&v[k], r) {
            return true;
        }
        k += 1;
    }
    false
}

/// Adds `r` to the rectangles of `v`, unless it is there already.
fn inserir_unico(v: &mut Vec<[usize; 4]>, r: [usize; 4])
    requires
        old(v)@.no_duplicates(),
    ensures
        final(v)@.no_duplicates(),
        forall|q: [usize; 4]| #[trigger] final(v)@.contains(q) <==> old(v)@.contains(q) || q == r,
        final(v)@.len() == old(v)@.len() + (if old(v)@.contains(r) {
            0int
        } else {
            1int
        }),
{
    if !contem(v, &r) {
        v.push(r);
        proof {
            assert forall|q: [usize; 4]| #[trigger] v@.contains(q) <==> old(v)@.contains(q) || q == r by {
                if v@.contains(q) {
                    let k = choose|k: int| 0 <= k < v@.len() && v@[k] == q;
                    if k < old(v)@.len() {
                        assert(old(v)@[k] == q);
                    }
                }
                if old(v)@.contains(q) {
                    let k = choose|k: int| 0 <= k < old(v)@.len() && old(v)@[k] == q;
                    assert(v@[k] == q);
                }
                if q == r {
                    assert(v@[v@.len() - 1] == r);
                }
            }
        }
    }
}

/// Takes `r` out of the rectangles of `v`, if it is there.
fn remover_de(v: &mut Vec<[usize; 4]>, r: &[usize; 4])
    requires
        old(v)@.no_duplicates(),
    ensures
        final(v)@.no_duplicates(),
        forall|q: [usize; 4]| #[trigger] final(v)@.contains(q) <==> old(v)@.contains(q) && q != *r,
        final(v)@.len() == old(v)@.len() - (if old(v)@.contains(*r) {
            1int
        } else {
            0int
        }),
{
    let mut k: usize = 0;
    while k < v.len()
        invariant
            0 <= k <= v@.len(),
            v@ == old(v)@,
            v@.no_duplicates(),
            forall|q: int| 0 <= q < k ==> v@[q] != *r,
        decreases v@.len() - k,
    {
        if iguais(&v[k], r) {
            let ghost antes = v@;
            v.remove(k);
            proof {
                assert(v@ =~= antes.remove(k as int));
                assert forall|a: int, b: int| 0 <= a < b < v@.len() implies v@[a] != v@[b] by {
                    let a2 = if a < k { a } else { a + 1 };
                    let b2 = if b < k { b } else { b + 1 };
                    assert(v@[a] == antes[a2]);
                    assert(v@[b] == antes[b2]);
                }
                assert forall|q: [usize; 4]| #[trigger] v@.contains(q) <==> antes.contains(q) && q != *r by {
                    if v@.contains(q) {
                        let j = choose|j: int| 0 <= j < v@.len() && v@[j] == q;
                        let j2 = if j < k { j } else { j + 1 };
                        assert(antes[j2] == q);
                        assert(j2 != k);
                    }
                    if antes.contains(q) && q != *r {
                        let j = choose|j: int| 0 <= j < antes.len() && antes[j] == q;
                        assert(j != k);
                        let j2 = if j < k { j } else { j - 1 };
                        assert(v@[j2] == q);
                    }
                }
            }
            return ;
        }
        k += 1;
    }
}

/// A sequence with `x` pushed holds `q` when the sequence held it or `q` is `x`.
proof fn lema_contem_push(s: Seq<[usize; 4]>, x: [usize; 4], q: [usize; 4])
    ensures
        s.push(x).contains(q) <==> s.contains(q) || q == x,
{
    let t = s.push(x);
    if t.contains(q) {
        let j = choose|j: int| 0 <= j < t.len() && t[j] == q;
        if j < s.len() {
            assert(s[j] == q);
        }
    }
    if s.contains(q) {
        let j = choose|j: int| 0 <= j < s.len() && s[j] == q;
        assert(t[j] == q);
    }
    if q == x {
        assert(t[s.len() as int] == x);
    }
}

/// Takes every rectangle of `itens` out of `v`.
fn remover_todos(v: &mut Vec<[usize; 4]>, itens: &Vec<[usize; 4]>)
    requires
        old(v)@.no_duplicates(),
        itens@.no_duplicates(),
    ensures
        final(v)@.no_duplicates(),
        forall|q: [usize; 4]| #[trigger] final(v)@.contains(q) <==> old(v)@.contains(q) && !itens@.contains(q),
        (forall|q: [usize; 4]| #[trigger] itens@.contains(q) ==> old(v)@.contains(q)) ==> final(v)@.len()
            == old(v)@.len() - itens@.len(),
{
    let ghost v0 = v@;
    let ghost dentro_de_v = forall|q: [usize; 4]| #[trigger] itens@.contains(q) ==> v0.contains(q);
    let mut k: usize = 0;
    while k < itens.len()
        invariant
            0 <= k <= itens@.len(),
            itens@.no_duplicates(),
            v@.no_duplicates(),
            v0 == old(v)@,
            dentro_de_v == (forall|q: [usize; 4]| #[trigger] itens@.contains(q) ==> v0.contains(q)),
            forall|q: [usize; 4]| #[trigger] v@.contains(q) <==> v0.contains(q) && !itens@.take(k as int).contains(q),
            dentro_de_v ==> v@.len() == v0.len() - k,
        decreases itens@.len() - k,
    {
        let ghost antes = v@;
        let ghost item = itens@[k as int];
        proof {
            if dentro_de_v {
                assert(itens@.contains(item));
                assert(v0.contains(item));
                assert(!itens@.take(k as int).contains(item)) by {
                    if itens@.take(k as int).contains(item) {
                        let j = choose|j: int| 0 <= j < k && itens@.take(k as int)[j] == item;
                        assert(itens@[j] == item);
                    }
                }
                assert(antes.contains(item));
            }
        }
        remover_de(v, &itens[k]);
        proof {
            let t0 = itens@.take(k as int);
            let t1 = itens@.take(k + 1);
            assert(t1 =~= t0.push(item));
            assert forall|q: [usize; 4]| #[trigger] v@.contains(q) <==> v0.contains(q) && !t1.contains(q) by {
                lema_contem_push(t0, item, q);
            }
        }
        k += 1;
    }
    proof {
        assert(itens@.take(itens@.len() as int) =~= itens@);
    }
}

/// Puts every rectangle of `itens` into `v`, none twice.
fn inserir_todos(v: &mut Vec<[usize; 4]>, itens: &Vec<[usize; 4]>)
    requires
        old(v)@.no_duplicates(),
    ensures
        final(v)@.no_duplicates(),
        forall|q: [usize; 4]| #[trigger] final(v)@.contains(q) <==> old(v)@.contains(q) || itens@.contains(q),
        final(v)@.len() <= old(v)@.len() + itens@.len(),
{
    let ghost v0 = v@;
    let mut k: usize = 0;
    while k < itens.len()
        invariant
            0 <= k <= itens@.len(),
            v@.no_duplicates(),
            v0 == old(v)@,
            forall|q: [usize; 4]| #[trigger] v@.contains(q) <==> v0.contains(q) || itens@.take(k as int).contains(q),
            v@.len() <= v0.len() + k,
        decreases itens@.len() - k,
    {
        let ghost item = itens@[k as int];
        inserir_unico(v, itens[k]);
        proof {
            let t0 = itens@.take(k as int);
            let t1 = itens@.take(k + 1);
            assert(t1 =~= t0.push(item));
            assert forall|q: [usize; 4]| #[trigger] v@.contains(q) <==> v0.contains(q) || t1.contains(q) by {
                lema_contem_push(t0, item, q);
            }
        }
        k += 1;
    }
    proof {
        assert(itens@.take(itens@.len() as int) =~= itens@);
    }
}

/// The rectangles infected in the final configuration of a part of the
/// board, none twice, and the area `[x1, x2, y1, y2]` of that part.
///
/// The rectangles are kept in a `Vec` with no repetition: vstd specifies
/// `HashSet` only for keys that obey its hashing model, and it states that
/// of primitive types alone, not of arrays such as `[usize; 4]`.
pub struct ColecaoRetangulos {
    conjunto: Vec<[usize; 4]>,
    limites: [usize; 4],
}

impl ColecaoRetangulos {
    /// The rectangles.
    pub closed spec fn retangulos(&self) -> Seq<[usize; 4]> {
        self.conjunto@
    }

    /// The area of the part of the board.
    pub closed spec fn area(&self) -> [usize; 4] {
        self.limites
    }

    /// No rectangle is there twice.
    pub closed spec fn wf(&self) -> bool {
        self.conjunto@.no_duplicates()
    }

    /// An empty collection for the area `limites`.
    pub fn nova(limites: [usize; 4]) -> (r: Self)
        ensures
            r.wf(),
            r.retangulos() == Seq::<[usize; 4]>::empty(),
            r.area() == limites,
    {
        ColecaoRetangulos { conjunto: Vec::new(), limites }
    }

    /// Adds `retangulo`, unless it is there already.
    pub fn inserir(&mut self, retangulo: [usize; 4])
        requires
            old(self).wf(),
        ensures
            final(self).wf(),
            final(self).area() == old(self).area(),
            forall|q: [usize; 4]| #[trigger] final(self).retangulos().contains(q) <==> old(self).retangulos().contains(q)
                || q == retangulo,
    {
        inserir_unico(&mut self.conjunto, retangulo);
    }

    /// Takes `retangulo` out, if it is there.
    pub fn remover(&mut self, retangulo: &[usize; 4])
        requires
            old(self).wf(),
        ensures
            final(self).wf(),
            final(self).area() == old(self).area(),
            forall|q: [usize; 4]| #[trigger] final(self).retangulos().contains(q) <==> old(self).retangulos().contains(q)
                && q != *retangulo,
    {
        remover_de(&mut self.conjunto, retangulo);
    }

    /// The rectangles.
    pub fn lista(&self) -> (r: Vec<[usize; 4]>)
        ensures
            r@ == self.retangulos(),
    {
        let mut r: Vec<[usize; 4]> = Vec::new();
        let mut k: usize = 0;
        while k < self.conjunto.len()
            invariant
                0 <= k <= self.conjunto@.len(),
                r@ == self.conjunto@.take(k as int),
            decreases self.conjunto@.len() - k,
        {
            r.push(self.conjunto[k]);
            proof {
                assert(self.conjunto@.take(k + 1) =~= self.conjunto@.take(k as int).push(self.conjunto@[k as int]));
            }
            k += 1;
        }
        proof {
            assert(self.conjunto@.take(k as int) =~= self.conjunto@);
        }
        r
    }

    /// The area of the part of the board.
    pub fn limites(&self) -> (r: [usize; 4])
        ensures
            r == self.area(),
    {
        self.limites
    }
}

/// Every rectangle recorded to leave the new ones (`nd`), `self` (`sd`) or
/// `other` (`od`) lies in some rectangle recorded to join the new ones (`na`).
pub open spec fn justificados(
    nd: Seq<[usize; 4]>,
    na: Seq<[usize; 4]>,
    sd: Seq<[usize; 4]>,
    od: Seq<[usize; 4]>,
) -> bool {
    forall|q: [usize; 4]|
        #![trigger nd.contains(q)]
        #![trigger sd.contains(q)]
        #![trigger od.contains(q)]
        nd.contains(q) || sd.contains(q) || od.contains(q) ==> exists|m: [usize; 4]|
            na.contains(m) && #[trigger] engloba(m, q)
}

/// `m` is the smallest rectangle holding the rectangles `p` and `q`.
pub open spec fn eh_caixa(m: [usize; 4], p: [usize; 4], q: [usize; 4]) -> bool {
    &&& m[0] == menor_int(p[0] as int, q[0] as int)
    &&& m[1] == maior_int(p[1] as int, q[1] as int)
    &&& m[2] == menor_int(p[2] as int, q[2] as int)
    &&& m[3] == maior_int(p[3] as int, q[3] as int)
}

/// Each rectangle recorded to join the new ones is the smallest rectangle
/// holding a new rectangle and one that it touches.
pub open spec fn origens(
    novos: Seq<[usize; 4]>,
    este: Seq<[usize; 4]>,
    outro: Seq<[usize; 4]>,
    na: Seq<[usize; 4]>,
) -> bool {
    forall|m: [usize; 4]| #[trigger] na.contains(m) ==> exists|p: [usize; 4], q: [usize; 4]|
        novos.contains(p) && (novos.contains(q) || este.contains(q) || outro.contains(q)) && tocam(p, q)
            && #[trigger] eh_caixa(m, p, q)
}

/// Recording one more rectangle `m`, the smallest holding `p` and `q`, keeps
/// the origins of those to join known.
proof fn lema_origens(
    novos: Seq<[usize; 4]>,
    este: Seq<[usize; 4]>,
    outro: Seq<[usize; 4]>,
    na: Seq<[usize; 4]>,
    na2: Seq<[usize; 4]>,
    m: [usize; 4],
    p: [usize; 4],
    q: [usize; 4],
)
    requires
        origens(novos, este, outro, na),
        forall|x: [usize; 4]| #[trigger] na2.contains(x) ==> na.contains(x) || x == m,
        novos.contains(p),
        novos.contains(q) || este.contains(q) || outro.contains(q),
        tocam(p, q),
        eh_caixa(m, p, q),
    ensures
        origens(novos, este, outro, na2),
{
    assert forall|x: [usize; 4]| #[trigger] na2.contains(x) implies exists|p2: [usize; 4], q2: [usize; 4]|
        novos.contains(p2) && (novos.contains(q2) || este.contains(q2) || outro.contains(q2)) && tocam(p2, q2)
            && #[trigger] eh_caixa(x, p2, q2) by {
        if x == m {
            assert(eh_caixa(m, p, q));
        } else {
            assert(na.contains(x));
        }
    }
}

/// What one pass of the merge has recorded so far is consistent: no
/// rectangle twice, the ones to leave taken from where they leave, each of
/// them held by one to join, and those to join valid within `lim` when all
/// the rectangles are.
pub open spec fn registro(
    novos: Seq<[usize; 4]>,
    este: Seq<[usize; 4]>,
    outro: Seq<[usize; 4]>,
    lim: [usize; 4],
    nd: Seq<[usize; 4]>,
    na: Seq<[usize; 4]>,
    sd: Seq<[usize; 4]>,
    od: Seq<[usize; 4]>,
) -> bool {
    &&& nd.no_duplicates()
    &&& na.no_duplicates()
    &&& sd.no_duplicates()
    &&& od.no_duplicates()
    &&& forall|q: [usize; 4]| #[trigger] nd.contains(q) ==> novos.contains(q)
    &&& forall|q: [usize; 4]| #[trigger] sd.contains(q) ==> este.contains(q)
    &&& forall|q: [usize; 4]| #[trigger] od.contains(q) ==> outro.contains(q)
    &&& justificados(nd, na, sd, od)
    &&& origens(novos, este, outro, na)
    &&& todos_validos(novos, lim) && todos_validos(este, lim) && todos_validos(outro, lim)
        ==> todos_validos(na, lim)
}

/// The new rectangle `novos[i]` touches no rectangle of `este` or of
/// `outro`, nor any new rectangle after it.
pub open spec fn isolado(novos: Seq<[usize; 4]>, este: Seq<[usize; 4]>, outro: Seq<[usize; 4]>, i: int) -> bool {
    &&& forall|a: int| 0 <= a < este.len() ==> !tocam(novos[i], #[trigger] este[a])
    &&& forall|b: int| 0 <= b < outro.len() ==> !tocam(novos[i], #[trigger] outro[b])
    &&& forall|j: int| i < j < novos.len() ==> !tocam(novos[i], #[trigger] novos[j])
}

/// No new rectangle touches another one, nor a rectangle of `este` or of `outro`.
pub open spec fn isolados(novos: Seq<[usize; 4]>, este: Seq<[usize; 4]>, outro: Seq<[usize; 4]>) -> bool {
    &&& forall|p: [usize; 4], a: [usize; 4]|
        #[trigger] novos.contains(p) && #[trigger] este.contains(a) ==> !tocam(p, a)
    &&& forall|p: [usize; 4], b: [usize; 4]|
        #[trigger] novos.contains(p) && #[trigger] outro.contains(b) ==> !tocam(p, b)
    &&& forall|p: [usize; 4], q: [usize; 4]|
        #[trigger] novos.contains(p) && #[trigger] novos.contains(q) && p != q ==> !tocam(p, q)
}

/// Recording `q` to leave (it joins one of the lists) and `m`, which holds
/// it, to join keeps every recorded rectangle held by one to join.
proof fn lema_justificados(
    nd: Seq<[usize; 4]>,
    na: Seq<[usize; 4]>,
    sd: Seq<[usize; 4]>,
    od: Seq<[usize; 4]>,
    nd2: Seq<[usize; 4]>,
    na2: Seq<[usize; 4]>,
    sd2: Seq<[usize; 4]>,
    od2: Seq<[usize; 4]>,
    q: [usize; 4],
    m: [usize; 4],
)
    requires
        justificados(nd, na, sd, od),
        forall|x: [usize; 4]| #[trigger] nd2.contains(x) ==> nd.contains(x) || x == q,
        forall|x: [usize; 4]| #[trigger] sd2.contains(x) ==> sd.contains(x) || x == q,
        forall|x: [usize; 4]| #[trigger] od2.contains(x) ==> od.contains(x) || x == q,
        forall|x: [usize; 4]| #[trigger] na.contains(x) ==> na2.contains(x),
        na2.contains(m),
        engloba(m, q),
    ensures
        justificados(nd2, na2, sd2, od2),
{
    assert forall|x: [usize; 4]| nd2.contains(x) || sd2.contains(x) || od2.contains(x) implies exists|
        w: [usize; 4],
    | na2.contains(w) && #[trigger] engloba(w, x) by {
        if x == q {
            assert(na2.contains(m) && engloba(m, x));
        } else {
            assert(nd.contains(x) || sd.contains(x) || od.contains(x));
            let w = choose|w: [usize; 4]| na.contains(w) && #[trigger] engloba(w, x);
            assert(na2.contains(w));
        }
    }
}

/// One pass of the merge over the new rectangles: for each new rectangle,
/// records the merge with every rectangle of `este` and of `outro` that it
/// touches, and stops at the first later new rectangle that it touches,
/// recording that merge. Returns the rectangles to leave the new ones, to
/// join them, to leave `este`, to leave `outro`, and whether nothing was
/// recorded.
fn varrer(novos: &Vec<[usize; 4]>, este: &Vec<[usize; 4]>, outro: &Vec<[usize; 4]>, Ghost(lim): Ghost<
    [usize; 4],
>) -> (r: (Vec<[usize; 4]>, Vec<[usize; 4]>, Vec<[usize; 4]>, Vec<[usize; 4]>, bool))
    requires
        novos@.no_duplicates(),
    ensures
        registro(novos@, este@, outro@, lim, r.0@, r.1@, r.2@, r.3@),
        r.4 ==> r.0@.len() == 0 && r.1@.len() == 0 && r.2@.len() == 0 && r.3@.len() == 0 && isolados(
            novos@,
            este@,
            outro@,
        ),
        !r.4 ==> r.2@.len() + r.3@.len() > 0 || (r.0@.len() == 2 && r.1@.len() == 1),
{
    let mut nd: Vec<[usize; 4]> = Vec::new();
    let mut na: Vec<[usize; 4]> = Vec::new();
    let mut sd: Vec<[usize; 4]> = Vec::new();
    let mut od: Vec<[usize; 4]> = Vec::new();
    let mut terminar = true;
    let mut quebrou = false;
    let mut i: usize = 0;
    while i < novos.len() && !quebrou
        invariant
            novos@.no_duplicates(),
            0 <= i <= novos@.len(),
            registro(novos@, este@, outro@, lim, nd@, na@, sd@, od@),
            terminar ==> nd@.len() == 0 && na@.len() == 0 && sd@.len() == 0 && od@.len() == 0
                && !quebrou,
            terminar ==> forall|i2: int| 0 <= i2 < i ==> #[trigger] isolado(novos@, este@, outro@, i2),
            !terminar && sd@.len() + od@.len() == 0 ==> quebrou && nd@.len() == 2 && na@.len() == 1,
            sd@.len() + od@.len() == 0 && !quebrou ==> nd@.len() == 0 && na@.len() == 0,
        decreases novos@.len() - i + (if quebrou {
            0int
        } else {
            1int
        }),
    {
        let r = novos[i];
        let mut a: usize = 0;
        while a < este.len()
            invariant
                novos@.no_duplicates(),
                0 <= i < novos@.len(),
                r == novos@[i as int],
                !quebrou,
                0 <= a <= este@.len(),
                registro(novos@, este@, outro@, lim, nd@, na@, sd@, od@),
                terminar ==> nd@.len() == 0 && na@.len() == 0 && sd@.len() == 0 && od@.len() == 0,
                terminar ==> forall|i2: int| 0 <= i2 < i ==> #[trigger] isolado(novos@, este@, outro@, i2),
                terminar ==> forall|a2: int| 0 <= a2 < a ==> !tocam(r, #[trigger] este@[a2]),
                sd@.len() + od@.len() == 0 ==> nd@.len() == 0 && na@.len() == 0 && terminar,
            decreases este@.len() - a,
        {
            let ra = este[a];
            if retangulos_tocam(r, ra) {
                terminar = false;
                let novo_ret = caixa(r, ra);
                let ghost (nd0, na0, sd0, od0) = (nd@, na@, sd@, od@);
                proof {
                    assert(novos@.contains(r));
                    assert(este@.contains(ra));
                }
                inserir_unico(&mut nd, r);
                inserir_unico(&mut sd, ra);
                inserir_unico(&mut na, novo_ret);
                proof {
                    lema_justificados(nd0, na0, sd0, od0, nd@, na@, sd0, od0, r, novo_ret);
                    lema_justificados(nd@, na@, sd0, od0, nd@, na@, sd@, od0, ra, novo_ret);
                    lema_origens(novos@, este@, outro@, na0, na@, novo_ret, r, ra);
                    assert(sd@.contains(ra));
                }
            }
            a += 1;
        }
        let mut b: usize = 0;
        while b < outro.len()
            invariant
                novos@.no_duplicates(),
                0 <= i < novos@.len(),
                r == novos@[i as int],
                !quebrou,
                0 <= b <= outro@.len(),
                registro(novos@, este@, outro@, lim, nd@, na@, sd@, od@),
                terminar ==> nd@.len() == 0 && na@.len() == 0 && sd@.len() == 0 && od@.len() == 0,
                terminar ==> forall|i2: int| 0 <= i2 < i ==> #[trigger] isolado(novos@, este@, outro@, i2),
                terminar ==> forall|a2: int| 0 <= a2 < este@.len() ==> !tocam(r, #[trigger] este@[a2]),
                terminar ==> forall|b2: int| 0 <= b2 < b ==> !tocam(r, #[trigger] outro@[b2]),
                sd@.len() + od@.len() == 0 ==> nd@.len() == 0 && na@.len() == 0 && terminar,
            decreases outro@.len() - b,
        {
            let rb = outro[b];
            if retangulos_tocam(r, rb) {
                terminar = false;
                let novo_ret = caixa(r, rb);
                let ghost (nd0, na0, sd0, od0) = (nd@, na@, sd@, od@);
                proof {
                    assert(novos@.contains(r));
                    assert(outro@.contains(rb));
                }
                inserir_unico(&mut nd, r);
                inserir_unico(&mut od, rb);
                inserir_unico(&mut na, novo_ret);
                proof {
                    lema_justificados(nd0, na0, sd0, od0, nd@, na@, sd0, od0, r, novo_ret);
                    lema_justificados(nd@, na@, sd0, od0, nd@, na@, sd0, od@, rb, novo_ret);
                    lema_origens(novos@, este@, outro@, na0, na@, novo_ret, r, rb);
                    assert(od@.contains(rb));
                }
            }
            b += 1;
        }
        let mut j: usize = i + 1;
        while j < novos.len() && !quebrou
            invariant
                novos@.no_duplicates(),
                0 <= i < novos@.len(),
                i < j <= novos@.len(),
                r == novos@[i as int],
                registro(novos@, este@, outro@, lim, nd@, na@, sd@, od@),
                terminar ==> nd@.len() == 0 && na@.len() == 0 && sd@.len() == 0 && od@.len() == 0
                    && !quebrou,
                terminar ==> forall|i2: int| 0 <= i2 < i ==> #[trigger] isolado(novos@, este@, outro@, i2),
                terminar ==> forall|a2: int| 0 <= a2 < este@.len() ==> !tocam(r, #[trigger] este@[a2]),
                terminar ==> forall|b2: int| 0 <= b2 < outro@.len() ==> !tocam(r, #[trigger] outro@[b2]),
                terminar ==> forall|j2: int| i < j2 < j ==> !tocam(r, #[trigger] novos@[j2]),
                !terminar && sd@.len() + od@.len() == 0 ==> quebrou && nd@.len() == 2 && na@.len() == 1,
                sd@.len() + od@.len() == 0 && !quebrou ==> nd@.len() == 0 && na@.len() == 0 && terminar,
            decreases novos@.len() - j + (if quebrou {
                0int
            } else {
                1int
            }),
        {
            let c = novos[j];
            if retangulos_tocam(r, c) && i != j {
                terminar = false;
                let novo_ret = caixa(r, c);
                let ghost (nd0, na0, sd0, od0) = (nd@, na@, sd@, od@);
                proof {
                    assert(novos@.contains(r));
                    assert(novos@.contains(c));
                }
                inserir_unico(&mut nd, r);
                let ghost nd1 = nd@;
                inserir_unico(&mut nd, c);
                inserir_unico(&mut na, novo_ret);
                proof {
                    assert(r != c);
                    lema_justificados(nd0, na0, sd0, od0, nd1, na@, sd0, od0, r, novo_ret);
                    lema_justificados(nd1, na@, sd0, od0, nd@, na@, sd0, od0, c, novo_ret);
                    lema_origens(novos@, este@, outro@, na0, na@, novo_ret, r, c);
                    assert(novos@.contains(c));
                }
                quebrou = true;
            } else {
                j += 1;
            }
        }
        if !quebrou {
            proof {
                if terminar {
                    assert(isolado(novos@, este@, outro@, i as int));
                }
            }
            i += 1;
        }
    }
    proof {
        if terminar {
            let n = novos@;
            let e = este@;
            let o = outro@;
            assert forall|p: [usize; 4], q: [usize; 4]|
                #[trigger] n.contains(p) && #[trigger] e.contains(q) implies !tocam(p, q) by {
                let x = choose|x: int| 0 <= x < n.len() && n[x] == p;
                let y = choose|y: int| 0 <= y < e.len() && e[y] == q;
                assert(isolado(n, e, o, x));
                assert(!tocam(n[x], e[y]));
            }
            assert forall|p: [usize; 4], q: [usize; 4]|
                #[trigger] n.contains(p) && #[trigger] o.contains(q) implies !tocam(p, q) by {
                let x = choose|x: int| 0 <= x < n.len() && n[x] == p;
                let y = choose|y: int| 0 <= y < o.len() && o[y] == q;
                assert(isolado(n, e, o, x));
                assert(!tocam(n[x], o[y]));
            }
            assert forall|p: [usize; 4], q: [usize; 4]|
                #[trigger] n.contains(p) && #[trigger] n.contains(q) && p != q implies !tocam(p, q) by {
                let x = choose|x: int| 0 <= x < n.len() && n[x] == p;
                let y = choose|y: int| 0 <= y < n.len() && n[y] == q;
                if x < y {
                    assert(isolado(n, e, o, x));
                    assert(!tocam(n[x], n[y]));
                } else {
                    assert(isolado(n, e, o, y));
                    assert(!tocam(n[y], n[x]));
                }
            }
        }
    }
    (nd, na, sd, od, terminar)
}

/// Every rectangle of `s` is infected in `f`.
pub open spec fn retangulos_infectados(s: Seq<[usize; 4]>, f: spec_fn(int, int) -> bool) -> bool {
    forall|q: [usize; 4]|
        #[trigger] s.contains(q) ==> bloco_infectado(f, q[0] as int, q[1] as int, q[2] as int, q[3] as int)
}

/// Every rectangle of `s` is not empty and lies on the `n` by `n` board.
pub open spec fn no_tabuleiro(s: Seq<[usize; 4]>, n: int) -> bool {
    forall|q: [usize; 4]| #[trigger] s.contains(q) ==> q[0] < q[1] <= n && q[2] < q[3] <= n
}

/// In a board that no step changes, the smallest rectangle holding two
/// infected rectangles that touch is infected.
proof fn lema_caixa_infectada(f: spec_fn(int, int) -> bool, n: int, p: [usize; 4], q: [usize; 4], m: [usize; 4])
    requires
        fechado(f, n),
        p[0] < p[1] <= n,
        p[2] < p[3] <= n,
        q[0] < q[1] <= n,
        q[2] < q[3] <= n,
        bloco_infectado(f, p[0] as int, p[1] as int, p[2] as int, p[3] as int),
        bloco_infectado(f, q[0] as int, q[1] as int, q[2] as int, q[3] as int),
        tocam(p, q),
        eh_caixa(m, p, q),
    ensures
        bloco_infectado(f, m[0] as int, m[1] as int, m[2] as int, m[3] as int),
        m[0] < m[1] <= n,
        m[2] < m[3] <= n,
{
    lema_crescer(
        f,
        n,
        p[0] as int,
        p[1] as int,
        p[2] as int,
        p[3] as int,
        q[0] as int,
        q[1] as int,
        q[2] as int,
        q[3] as int,
    );
}

/// `r` is the smallest area that holds the areas `a` and `b`.
pub open spec fn area_uniao(a: [usize; 4], b: [usize; 4], r: [usize; 4]) -> bool {
    &&& r[0] == menor_int(a[0] as int, b[0] as int)
    &&& r[1] == maior_int(a[1] as int, b[1] as int)
    &&& r[2] == menor_int(a[2] as int, b[2] as int)
    &&& r[3] == maior_int(a[3] as int, b[3] as int)
}

/// The rectangle `r` reaches the last row or the last column of the area `lim`.
pub open spec fn na_fronteira(r: [usize; 4], lim: [usize; 4]) -> bool {
    r[1] >= lim[1] || r[3] >= lim[3]
}

/// The area `b` lies past the area `a`: below its last row or right of its
/// last column.
pub open spec fn adjacentes(a: [usize; 4], b: [usize; 4]) -> bool {
    b[0] >= a[1] || b[2] >= a[3]
}

/// Some rectangle of `n`, of `e` or of `o` holds the cell (`x`, `y`).
pub open spec fn cobre3(n: Seq<[usize; 4]>, e: Seq<[usize; 4]>, o: Seq<[usize; 4]>, x: int, y: int) -> bool {
    cobre(n, x, y) || cobre(e, x, y) || cobre(o, x, y)
}

/// Applying what a pass recorded loses no cell: a cell held by a rectangle
/// that leaves is held by one that joins.
proof fn lema_aplicar(
    n: Seq<[usize; 4]>,
    e: Seq<[usize; 4]>,
    o: Seq<[usize; 4]>,
    nd: Seq<[usize; 4]>,
    na: Seq<[usize; 4]>,
    sd: Seq<[usize; 4]>,
    od: Seq<[usize; 4]>,
    n2: Seq<[usize; 4]>,
    e2: Seq<[usize; 4]>,
    o2: Seq<[usize; 4]>,
)
    requires
        justificados(nd, na, sd, od),
        forall|q: [usize; 4]| #[trigger] n2.contains(q) <==> (n.contains(q) && !nd.contains(q)) || na.contains(q),
        forall|q: [usize; 4]| #[trigger] e2.contains(q) <==> e.contains(q) && !sd.contains(q),
        forall|q: [usize; 4]| #[trigger] o2.contains(q) <==> o.contains(q) && !od.contains(q),
    ensures
        forall|x: int, y: int| #[trigger] cobre(n, x, y) ==> cobre(n2, x, y),
        forall|x: int, y: int| #[trigger] cobre3(n, e, o, x, y) ==> cobre3(n2, e2, o2, x, y),
{
    assert forall|x: int, y: int| #[trigger] cobre3(n, e, o, x, y) implies cobre3(n2, e2, o2, x, y) && (cobre(n, x, y) ==> cobre(n2, x, y)) by {
        if cobre(n, x, y) {
            let q = choose|q: [usize; 4]| n.contains(q) && #[trigger] dentro(q, x, y);
            if nd.contains(q) {
                let m = choose|m: [usize; 4]| na.contains(m) && #[trigger] engloba(m, q);
                assert(n2.contains(m) && dentro(m, x, y));
            } else {
                assert(n2.contains(q));
            }
        }
        if cobre(e, x, y) {
            let q = choose|q: [usize; 4]| e.contains(q) && #[trigger] dentro(q, x, y);
            if sd.contains(q) {
                let m = choose|m: [usize; 4]| na.contains(m) && #[trigger] engloba(m, q);
                assert(n2.contains(m) && dentro(m, x, y));
            } else {
                assert(e2.contains(q));
            }
        }
        if cobre(o, x, y) {
            let q = choose|q: [usize; 4]| o.contains(q) && #[trigger] dentro(q, x, y);
            if od.contains(q) {
                let m = choose|m: [usize; 4]| na.contains(m) && #[trigger] engloba(m, q);
                assert(n2.contains(m) && dentro(m, x, y));
            } else {
                assert(o2.contains(q));
            }
        }
    }
    assert forall|x: int, y: int| #[trigger] cobre(n, x, y) implies cobre(n2, x, y) by {
        assert(cobre3(n, e, o, x, y));
    }
}

/// The rectangles left after the merge touch no other: the new ones touch
/// nothing, those left of `self` are away from its last row and column
/// (else a new one would touch them), and `other` lies past `self`.
proof fn lema_sem_toques(
    n: Seq<[usize; 4]>,
    e: Seq<[usize; 4]>,
    o: Seq<[usize; 4]>,
    s0: Seq<[usize; 4]>,
    o0: Seq<[usize; 4]>,
    c0: Seq<[usize; 4]>,
    sa: [usize; 4],
    oa: [usize; 4],
    r: Seq<[usize; 4]>,
)
    requires
        isolados(n, e, o),
        todos_validos(s0, sa),
        todos_validos(o0, oa),
        sem_toques(s0),
        sem_toques(o0),
        adjacentes(sa, oa),
        forall|q: [usize; 4]| #[trigger] e.contains(q) ==> s0.contains(q),
        forall|q: [usize; 4]| #[trigger] o.contains(q) ==> o0.contains(q),
        forall|q: [usize; 4]| #[trigger] c0.contains(q) <==> s0.contains(q) && na_fronteira(q, sa),
        forall|x: int, y: int| #[trigger] cobre(c0, x, y) ==> cobre(n, x, y),
        forall|q: [usize; 4]| #[trigger] r.contains(q) <==> n.contains(q) || e.contains(q) || o.contains(q),
    ensures
        sem_toques(r),
{
    assert forall|q: [usize; 4]| #[trigger] e.contains(q) implies !na_fronteira(q, sa) by {
        if na_fronteira(q, sa) {
            assert(s0.contains(q));
            assert(c0.contains(q));
            assert(dentro(q, q[0] as int, q[2] as int));
            assert(cobre(c0, q[0] as int, q[2] as int));
            let p = choose|p: [usize; 4]| n.contains(p) && #[trigger] dentro(p, q[0] as int, q[2] as int);
            assert(tocam(p, q));
        }
    }
    assert forall|p: [usize; 4], q: [usize; 4]|
        #[trigger] r.contains(p) && #[trigger] r.contains(q) && p != q implies !tocam(p, q) by {
        if n.contains(p) || n.contains(q) {
            if n.contains(p) && n.contains(q) {
            } else if n.contains(p) && e.contains(q) {
            } else if n.contains(p) && o.contains(q) {
            } else if n.contains(q) && e.contains(p) {
                assert(!tocam(q, p));
            } else {
                assert(!tocam(q, p));
            }
        } else if e.contains(p) && e.contains(q) {
            assert(s0.contains(p) && s0.contains(q));
        } else if o.contains(p) && o.contains(q) {
            assert(o0.contains(p) && o0.contains(q));
        } else if e.contains(p) {
            assert(o.contains(q));
            assert(valido(q, oa));
            assert(!na_fronteira(p, sa));
        } else {
            assert(e.contains(q) && o.contains(p));
            assert(valido(p, oa));
            assert(!na_fronteira(q, sa));
        }
    }
}

/// The smallest area that holds the areas `a` and `b`.
fn area_de(a: [usize; 4], b: [usize; 4]) -> (r: [usize; 4])
    ensures
        area_uniao(a, b, r),
{
    let x1 = if a[0] < b[0] {
        a[0]
    } else {
        b[0]
    };
    let x2 = if a[1] > b[1] {
        a[1]
    } else {
        b[1]
    };
    let y1 = if a[2] < b[2] {
        a[2]
    } else {
        b[2]
    };
    let y2 = if a[3] > b[3] {
        a[3]
    } else {
        b[3]
    };
    [x1, x2, y1, y2]
}

impl ColecaoRetangulos {
    /// Merges the rectangles of two parts of the board, `other` lying past
    /// `self` (below it or to its right): the rectangles of `self` that reach
    /// its last row or column, merged again and again with every rectangle
    /// they touch (from `self`, from `other`, or merged before) into the
    /// smallest rectangle holding both, until none touches another; then the
    /// rectangles left of `self` and `other`. The area is the smallest one
    /// holding both. No cell is lost; when both collections hold valid
    /// rectangles of their areas, so does the result; and when, besides,
    /// neither has two rectangles that touch and `other` lies past `self`,
    /// no two rectangles of the result touch.
    pub fn merge(self, other: ColecaoRetangulos) -> (r: ColecaoRetangulos)
        requires
            self.wf(),
            other.wf(),
        ensures
            r.wf(),
            area_uniao(self.area(), other.area(), r.area()),
            forall|x: int, y: int|
                cobre(self.retangulos(), x, y) || cobre(other.retangulos(), x, y) ==> #[trigger] cobre(
                    r.retangulos(),
                    x,
                    y,
                ),
            todos_validos(self.retangulos(), self.area()) && todos_validos(other.retangulos(), other.area())
                ==> todos_validos(r.retangulos(), r.area()),
            todos_validos(self.retangulos(), self.area()) && todos_validos(other.retangulos(), other.area())
                && sem_toques(self.retangulos()) && sem_toques(other.retangulos()) && adjacentes(
                self.area(),
                other.area(),
            ) ==> sem_toques(r.retangulos()),
            forall|f: spec_fn(int, int) -> bool, n: int|
                #[trigger] fechado(f, n) && retangulos_infectados(self.retangulos(), f) && retangulos_infectados(
                    other.retangulos(),
                    f,
                ) && no_tabuleiro(self.retangulos(), n) && no_tabuleiro(other.retangulos(), n)
                    ==> retangulos_infectados(r.retangulos(), f) && no_tabuleiro(r.retangulos(), n),
    {
        let mut este = self;
        let mut outro = other;
        let ghost s0 = este.conjunto@;
        let ghost o0 = outro.conjunto@;
        let ghost sa = este.limites;
        let ghost oa = outro.limites;
        let x_fronteira = este.limites[1];
        let y_fronteira = este.limites[3];
        let lim = area_de(este.limites, outro.limites);
        let mut novos = ColecaoRetangulos::nova(lim);
        let mut k: usize = 0;
        while k < este.conjunto.len()
            invariant
                0 <= k <= s0.len(),
                este.conjunto@ == s0,
                este.limites == sa,
                x_fronteira == sa[1],
                y_fronteira == sa[3],
                novos.wf(),
                novos.limites == lim,
                forall|q: [usize; 4]| #[trigger] novos.conjunto@.contains(q) <==> s0.take(k as int).contains(q)
                    && na_fronteira(q, sa),
            decreases s0.len() - k,
        {
            let ret = este.conjunto[k];
            if ret[1] >= x_fronteira || ret[3] >= y_fronteira {
                inserir_unico(&mut novos.conjunto, ret);
            }
            proof {
                let t0 = s0.take(k as int);
                let t1 = s0.take(k + 1);
                assert(t1 =~= t0.push(ret));
                assert forall|q: [usize; 4]| #[trigger] novos.conjunto@.contains(q) <==> t1.contains(q)
                    && na_fronteira(q, sa) by {
                    lema_contem_push(t0, ret, q);
                }
            }
            k += 1;
        }
        proof {
            assert(s0.take(s0.len() as int) =~= s0);
        }
        let ghost c0 = novos.conjunto@;
        let ghost vals = todos_validos(s0, sa) && todos_validos(o0, oa);
        proof {
            assert forall|x: int, y: int| cobre(s0, x, y) || cobre(o0, x, y) implies #[trigger] cobre3(
                novos.conjunto@,
                este.conjunto@,
                outro.conjunto@,
                x,
                y,
            ) by {}
        }
        let mut terminar_processo = false;
        while !terminar_processo
            invariant
                novos.wf(),
                este.wf(),
                outro.wf(),
                novos.limites == lim,
                este.limites == sa,
                outro.limites == oa,
                area_uniao(sa, oa, lim),
                forall|q: [usize; 4]| #[trigger] este.conjunto@.contains(q) ==> s0.contains(q),
                forall|q: [usize; 4]| #[trigger] outro.conjunto@.contains(q) ==> o0.contains(q),
                forall|q: [usize; 4]| #[trigger] c0.contains(q) <==> s0.contains(q) && na_fronteira(q, sa),
                forall|x: int, y: int|
                    cobre(s0, x, y) || cobre(o0, x, y) ==> #[trigger] cobre3(
                        novos.conjunto@,
                        este.conjunto@,
                        outro.conjunto@,
                        x,
                        y,
                    ),
                forall|x: int, y: int| #[trigger] cobre(c0, x, y) ==> cobre(novos.conjunto@, x, y),
                vals == (todos_validos(s0, sa) && todos_validos(o0, oa)),
                vals ==> todos_validos(novos.conjunto@, lim),
                terminar_processo ==> isolados(novos.conjunto@, este.conjunto@, outro.conjunto@),
                forall|f: spec_fn(int, int) -> bool, n: int|
                    #[trigger] fechado(f, n) && retangulos_infectados(s0, f) && retangulos_infectados(o0, f)
                        && no_tabuleiro(s0, n) && no_tabuleiro(o0, n) ==> retangulos_infectados(
                        novos.conjunto@,
                        f,
                    ) && no_tabuleiro(novos.conjunto@, n),
            decreases este.conjunto@.len() + outro.conjunto@.len(), novos.conjunto@.len(), (if terminar_processo {
                0int
            } else {
                1int
            }),
        {
            let ghost n0 = novos.conjunto@;
            let ghost e0 = este.conjunto@;
            let ghost p0 = outro.conjunto@;
            proof {
                if vals {
                    assert forall|q: [usize; 4]| #[trigger] e0.contains(q) implies valido(q, lim) by {
                        assert(valido(q, sa));
                    }
                    assert forall|q: [usize; 4]| #[trigger] p0.contains(q) implies valido(q, lim) by {
                        assert(valido(q, oa));
                    }
                }
            }
            let (nd, na, sd, od, terminar) = varrer(
                &novos.conjunto,
                &este.conjunto,
                &outro.conjunto,
                Ghost(lim),
            );
            remover_todos(&mut novos.conjunto, &nd);
            inserir_todos(&mut novos.conjunto, &na);
            remover_todos(&mut este.conjunto, &sd);
            remover_todos(&mut outro.conjunto, &od);
            terminar_processo = terminar;
            proof {
                let n2 = novos.conjunto@;
                let e2 = este.conjunto@;
                let p2 = outro.conjunto@;
                lema_aplicar(n0, e0, p0, nd@, na@, sd@, od@, n2, e2, p2);
                assert forall|x: int, y: int|
                    cobre(s0, x, y) || cobre(o0, x, y) implies #[trigger] cobre3(n2, e2, p2, x, y) by {
                    assert(cobre3(n0, e0, p0, x, y));
                }
                assert forall|x: int, y: int| #[trigger] cobre(c0, x, y) implies cobre(n2, x, y) by {
                    assert(cobre(n0, x, y));
                }
                if vals {
                    assert forall|q: [usize; 4]| #[trigger] n2.contains(q) implies valido(q, lim) by {
                        if na@.contains(q) {
                        } else {
                            assert(n0.contains(q));
                        }
                    }
                }
                if terminar {
                    assert forall|q: [usize; 4]| #[trigger] n2.contains(q) <==> n0.contains(q) by {}
                    assert forall|q: [usize; 4]| #[trigger] e2.contains(q) <==> e0.contains(q) by {}
                    assert forall|q: [usize; 4]| #[trigger] p2.contains(q) <==> p0.contains(q) by {}
                    assert(isolados(n2, e2, p2));
                }
                assert forall|f: spec_fn(int, int) -> bool, n: int|
                    #[trigger] fechado(f, n) && retangulos_infectados(s0, f) && retangulos_infectados(o0, f)
                        && no_tabuleiro(s0, n) && no_tabuleiro(o0, n) implies retangulos_infectados(n2, f)
                    && no_tabuleiro(n2, n) by {
                    assert(retangulos_infectados(n0, f) && no_tabuleiro(n0, n));
                    assert forall|m: [usize; 4]| #[trigger] n2.contains(m) implies bloco_infectado(
                        f,
                        m[0] as int,
                        m[1] as int,
                        m[2] as int,
                        m[3] as int,
                    ) && m[0] < m[1] <= n && m[2] < m[3] <= n by {
                        if na@.contains(m) {
                            let (p, q) = choose|p: [usize; 4], q: [usize; 4]|
                                n0.contains(p) && (n0.contains(q) || e0.contains(q) || p0.contains(q)) && tocam(p, q)
                                    && #[trigger] eh_caixa(m, p, q);
                            if e0.contains(q) {
                                assert(s0.contains(q));
                            } else if p0.contains(q) {
                                assert(o0.contains(q));
                            }
                            lema_caixa_infectada(f, n, p, q, m);
                        } else {
                            assert(n0.contains(m));
                        }
                    }
                }
            }
        }
        let ghost n_fim = novos.conjunto@;
        inserir_todos(&mut novos.conjunto, &este.conjunto);
        inserir_todos(&mut novos.conjunto, &outro.conjunto);
        proof {
            let r = novos.conjunto@;
            let e = este.conjunto@;
            let o = outro.conjunto@;
            assert forall|x: int, y: int| cobre(s0, x, y) || cobre(o0, x, y) implies #[trigger] cobre(r, x, y) by {
                assert(cobre3(n_fim, e, o, x, y));
                if cobre(n_fim, x, y) {
                    let q = choose|q: [usize; 4]| n_fim.contains(q) && #[trigger] dentro(q, x, y);
                    assert(r.contains(q));
                } else if cobre(e, x, y) {
                    let q = choose|q: [usize; 4]| e.contains(q) && #[trigger] dentro(q, x, y);
                    assert(r.contains(q));
                } else {
                    let q = choose|q: [usize; 4]| o.contains(q) && #[trigger] dentro(q, x, y);
                    assert(r.contains(q));
                }
            }
            if vals {
                assert forall|q: [usize; 4]| #[trigger] r.contains(q) implies valido(q, lim) by {
                    if n_fim.contains(q) {
                    } else if e.contains(q) {
                        assert(valido(q, sa));
                    } else {
                        assert(valido(q, oa));
                    }
                }
                if sem_toques(s0) && sem_toques(o0) && adjacentes(sa, oa) {
                    lema_sem_toques(n_fim, e, o, s0, o0, c0, sa, oa, r);
                }
            }
            assert forall|f: spec_fn(int, int) -> bool, n: int|
                #[trigger] fechado(f, n) && retangulos_infectados(s0, f) && retangulos_infectados(o0, f)
                    && no_tabuleiro(s0, n) && no_tabuleiro(o0, n) implies retangulos_infectados(r, f)
                && no_tabuleiro(r, n) by {
                assert(retangulos_infectados(n_fim, f) && no_tabuleiro(n_fim, n));
                assert forall|m: [usize; 4]| #[trigger] r.contains(m) implies bloco_infectado(
                    f,
                    m[0] as int,
                    m[1] as int,
                    m[2] as int,
                    m[3] as int,
                ) && m[0] < m[1] <= n && m[2] < m[3] <= n by {
                    if n_fim.contains(m) {
                    } else if e.contains(m) {
                        assert(s0.contains(m));
                    } else {
                        assert(o0.contains(m));
                    }
                }
            }
        }
        novos
    }
}

/// `l` is a power of two.
pub open spec fn potencia_de_2(l: int) -> bool
    decreases l,
{
    if l <= 0 {
        false
    } else if l == 1 {
        true
    } else {
        l % 2 == 0 && potencia_de_2(l / 2)
    }
}

/// `a` is the area of rows `i0..i0 + l`, columns `j0..j0 + l`.
pub open spec fn quadrado(a: [usize; 4], i0: int, j0: int, l: int) -> bool {
    a[0] == i0 && a[1] == i0 + l && a[2] == j0 && a[3] == j0 + l
}

/// The modified two-neighbour update family: a clean cell gets infected
/// when two of its neighbours at a right angle are infected.
pub open spec fn familia_dois_vizinhos_modificada() -> Seq<Seq<[i32; 2]>> {
    seq![
        seq![[1i32, 0i32], [0i32, 1i32]],
        seq![[0i32, 1i32], [-1i32, 0i32]],
        seq![[-1i32, 0i32], [0i32, -1i32]],
        seq![[0i32, -1i32], [1i32, 0i32]],
    ]
}

/// A bootstrap process of the modified two-neighbour kind, solved by divide
/// and conquer.
pub struct BootstrapMod2Neighbor {
    processo_bootstrap: ProcessoBootstrap,
}

impl BootstrapMod2Neighbor {
    /// The process.
    pub closed spec fn processo(&self) -> ProcessoBootstrap {
        self.processo_bootstrap
    }

    /// The process has the modified two-neighbour family.
    pub closed spec fn wf(&self) -> bool {
        &&& self.processo_bootstrap.wf()
        &&& self.processo_bootstrap.familia() == familia_dois_vizinhos_modificada()
    }

    /// What a well-formed solver holds: a well-formed process, whose board is
    /// `lado` by `lado`, with the modified two-neighbour family.
    pub proof fn lema_processo(&self)
        requires
            self.wf(),
        ensures
            self.processo().wf(),
            self.processo().tabuleiro_atual().linhas() == self.processo().lado(),
            self.processo().tabuleiro_atual().colunas() == self.processo().lado(),
            self.processo().familia() == familia_dois_vizinhos_modificada(),
    {
        self.processo_bootstrap.lema_forma();
    }

    /// The process of the modified two-neighbour kind on the `n` by `n`
    /// board `tabuleiro`, at step 0; `None` when the board is not `n` by `n`.
    pub fn novo(n: usize, tabuleiro: Tabuleiro) -> (r: Option<BootstrapMod2Neighbor>)
        ensures
            r is Some <==> tabuleiro.linhas() == n && tabuleiro.colunas() == n,
            r matches Some(b) ==> {
                &&& b.wf()
                &&& b.processo().tabuleiro_atual() == tabuleiro
                &&& b.processo().familia() == familia_dois_vizinhos_modificada()
                &&& b.processo().lado() == n
                &&& b.processo().passos() == 0
                &&& !b.processo().terminado()
            },
    {
        let familia_update = FamiliaUpdate {
            v: vec![
                vec![[1, 0], [0, 1]],
                vec![[0, 1], [-1, 0]],
                vec![[-1, 0], [0, -1]],
                vec![[0, -1], [1, 0]],
            ],
        };
        proof {
            assert(familia_update.conjuntos() =~= familia_dois_vizinhos_modificada()) by {
                let f = familia_update.conjuntos();
                let g = familia_dois_vizinhos_modificada();
                assert(f[0] =~= g[0]);
                assert(f[1] =~= g[1]);
                assert(f[2] =~= g[2]);
                assert(f[3] =~= g[3]);
            }
        }
        match ProcessoBootstrap::novo(n, tabuleiro, familia_update) {
            Some(processo_bootstrap) => Some(BootstrapMod2Neighbor { processo_bootstrap }),
            None => None,
        }
    }

    /// The process.
    pub fn processo_bootstrap(&self) -> (r: &ProcessoBootstrap)
        ensures
            *r == self.processo(),
    {
        &self.processo_bootstrap
    }

    /// The rectangles infected in the final configuration of the square of
    /// rows `i0..i0 + largura`, columns `j0..j0 + largura`, taken on its
    /// own: a single cell gives itself when infected; a larger square gives
    /// the merge of its four quarters. The rectangles are valid within the
    /// square, no two of them touch, and they hold every infected cell of it.
    pub fn resolver_sub(&self, i0: usize, j0: usize, largura: usize) -> (r: ColecaoRetangulos)
        requires
            self.wf(),
            potencia_de_2(largura as int),
            i0 + largura <= self.processo().lado(),
            j0 + largura <= self.processo().lado(),
        ensures
            r.wf(),
            quadrado(r.area(), i0 as int, j0 as int, largura as int),
            todos_validos(r.retangulos(), r.area()),
            sem_toques(r.retangulos()),
            forall|x: int, y: int|
                i0 <= x < i0 + largura && j0 <= y < j0 + largura && self.processo().tabuleiro_atual().celula(
                    x,
                    y,
                ) ==> #[trigger] cobre(r.retangulos(), x, y),
            no_tabuleiro(r.retangulos(), self.processo().lado()),
            forall|f: spec_fn(int, int) -> bool|
                #[trigger] fechado(f, self.processo().lado()) && (forall|x: int, y: int|
                    i0 <= x < i0 + largura && j0 <= y < j0 + largura
                        && self.processo().tabuleiro_atual().celula(x, y) ==> #[trigger] f(x, y))
                    ==> retangulos_infectados(r.retangulos(), f),
        decreases largura,
    {
        proof {
            self.processo_bootstrap.lema_forma();
        }
        if largura == 1 {
            let limites = [i0, i0 + 1, j0, j0 + 1];
            let mut conjunto = ColecaoRetangulos::nova(limites);
            if self.processo_bootstrap.tabuleiro().ler(i0, j0) {
                conjunto.inserir([i0, i0 + 1, j0, j0 + 1]);
            }
            proof {
                let rs = conjunto.retangulos();
                assert forall|x: int, y: int|
                    i0 <= x < i0 + 1 && j0 <= y < j0 + 1 && self.processo().tabuleiro_atual().celula(x, y)
                        implies #[trigger] cobre(rs, x, y) by {
                    assert(rs.contains(limites));
                    assert(dentro(limites, x, y));
                }
                let n = self.processo().lado();
                assert forall|f: spec_fn(int, int) -> bool|
                    #[trigger] fechado(f, n) && (forall|x: int, y: int|
                        i0 <= x < i0 + 1 && j0 <= y < j0 + 1 && self.processo().tabuleiro_atual().celula(x, y)
                            ==> #[trigger] f(x, y)) implies retangulos_infectados(rs, f) by {
                    assert forall|q: [usize; 4]| #[trigger] rs.contains(q) implies bloco_infectado(
                        f,
                        q[0] as int,
                        q[1] as int,
                        q[2] as int,
                        q[3] as int,
                    ) by {
                        assert(q == limites);
                        assert forall|x: int, y: int| q[0] <= x < q[1] && q[2] <= y < q[3] implies #[trigger] f(x, y) by {
                            assert(x == i0 && y == j0);
                        }
                    }
                }
            }
            return conjunto;
        }
        let h = largura / 2;
        let a_11 = self.resolver_sub(i0, j0, h);
        let a_12 = self.resolver_sub(i0, j0 + h, h);
        let a_21 = self.resolver_sub(i0 + h, j0, h);
        let a_22 = self.resolver_sub(i0 + h, j0 + h, h);
        let ghost (r11, r12, r21, r22) = (a_11.retangulos(), a_12.retangulos(), a_21.retangulos(), a_22.retangulos());
        let b_1 = a_11.merge(a_12);
        let b_2 = a_21.merge(a_22);
        let ghost (s1, s2) = (b_1.retangulos(), b_2.retangulos());
        let r = b_1.merge(b_2);
        proof {
            let t = self.processo().tabuleiro_atual();
            assert forall|x: int, y: int|
                i0 <= x < i0 + largura && j0 <= y < j0 + largura && t.celula(x, y) implies #[trigger] cobre(
                r.retangulos(),
                x,
                y,
            ) by {
                if x < i0 + h {
                    if y < j0 + h {
                        assert(cobre(r11, x, y));
                    } else {
                        assert(cobre(r12, x, y));
                    }
                    assert(cobre(s1, x, y));
                } else {
                    if y < j0 + h {
                        assert(cobre(r21, x, y));
                    } else {
                        assert(cobre(r22, x, y));
                    }
                    assert(cobre(s2, x, y));
                }
            }
            let n = self.processo().lado();
            assert forall|f: spec_fn(int, int) -> bool|
                #[trigger] fechado(f, n) && (forall|x: int, y: int|
                    i0 <= x < i0 + largura && j0 <= y < j0 + largura && t.celula(x, y) ==> #[trigger] f(x, y))
                    implies retangulos_infectados(r.retangulos(), f) by {
                assert(retangulos_infectados(r11, f));
                assert(retangulos_infectados(r12, f));
                assert(retangulos_infectados(r21, f));
                assert(retangulos_infectados(r22, f));
                assert(retangulos_infectados(s1, f) && no_tabuleiro(s1, n));
                assert(retangulos_infectados(s2, f) && no_tabuleiro(s2, n));
            }
            assert(no_tabuleiro(r.retangulos(), n)) by {
                assert forall|q: [usize; 4]| #[trigger] r.retangulos().contains(q) implies q[0] < q[1] <= n
                    && q[2] < q[3] <= n by {
                    assert(valido(q, r.area()));
                }
            }
        }
        r
    }
}

/// A clean cell next to two infected cells at a right angle lies in a
/// rectangle with them, or the rectangles holding them touch.
proof fn lema_canto(rs: Seq<[usize; 4]>, i: int, j: int, a: int, b: int)
    requires
        a == 1 || a == -1,
        b == 1 || b == -1,
        cobre(rs, i + a, j),
        cobre(rs, i, j + b),
        sem_toques(rs),
    ensures
        cobre(rs, i, j),
{
    let r1 = choose|q: [usize; 4]| rs.contains(q) && #[trigger] dentro(q, i + a, j);
    let r2 = choose|q: [usize; 4]| rs.contains(q) && #[trigger] dentro(q, i, j + b);
    if r1 == r2 {
        assert(dentro(r1, i, j));
    } else {
        assert(tocam(r1, r2));
    }
}

/// A board whose infected cells are those of valid rectangles of which no
/// two touch does not change under the modified two-neighbour rule.
pub proof fn lema_estavel_retangulos(c: spec_fn(int, int) -> bool, n: int, rs: Seq<[usize; 4]>)
    requires
        forall|x: int, y: int| 0 <= x < n && 0 <= y < n ==> #[trigger] c(x, y) == cobre(rs, x, y),
        sem_toques(rs),
    ensures
        estavel(c, n, n, familia_dois_vizinhos_modificada(), 0, n, 0, n),
{
    let fam = familia_dois_vizinhos_modificada();
    assert forall|i: int, j: int| 0 <= i < n && 0 <= j < n implies #[trigger] crate::bootstrap::proximo_estado(
        c,
        n,
        n,
        fam,
        i,
        j,
    ) == c(i, j) by {
        if !c(i, j) {
            assert(!cobre(rs, i, j));
            assert forall|k: int| 0 <= k < fam.len() implies !#[trigger] crate::bootstrap::conjunto_infectado(
                c,
                n,
                n,
                fam[k],
                i,
                j,
            ) by {
                let s = fam[k];
                if crate::bootstrap::conjunto_infectado(c, n, n, s, i, j) {
                    assert(crate::bootstrap::infectada(c, n, n, i + s[0][0], j + s[0][1]));
                    assert(crate::bootstrap::infectada(c, n, n, i + s[1][0], j + s[1][1]));
                    if k == 0 {
                        assert(s[0][0] == 1 && s[0][1] == 0 && s[1][0] == 0 && s[1][1] == 1);
                        lema_canto(rs, i, j, 1, 1);
                    } else if k == 1 {
                        assert(s[0][0] == 0 && s[0][1] == 1 && s[1][0] == -1 && s[1][1] == 0);
                        lema_canto(rs, i, j, -1, 1);
                    } else if k == 2 {
                        assert(s[0][0] == -1 && s[0][1] == 0 && s[1][0] == 0 && s[1][1] == -1);
                        lema_canto(rs, i, j, -1, -1);
                    } else {
                        assert(s[0][0] == 0 && s[0][1] == -1 && s[1][0] == 1 && s[1][1] == 0);
                        lema_canto(rs, i, j, 1, -1);
                    }
                }
            }
        }
    }
}

impl BootstrapMod2Neighbor {
    /// Solves the process at once: infects every cell of the rectangles of
    /// the whole board, and records one step, after which the process is
    /// final. No infected cell gets clean, the infected cells are then
    /// exactly those of rectangles of which no two touch, and no step of the
    /// modified two-neighbour rule changes the board any more.
    pub fn resolver_total(&mut self)
        requires
            old(self).wf(),
            potencia_de_2(old(self).processo().lado()),
            old(self).processo().passos() < u32::MAX,
        ensures
            final(self).wf(),
            final(self).processo().lado() == old(self).processo().lado(),
            final(self).processo().terminado(),
            final(self).processo().passos() == old(self).processo().passos() + 1,
            forall|x: int, y: int|
                0 <= x < old(self).processo().lado() && 0 <= y < old(self).processo().lado()
                    && old(self).processo().tabuleiro_atual().celula(x, y) ==> #[trigger] final(self).processo().tabuleiro_atual().celula(x, y),
            exists|rs: Seq<[usize; 4]>|
                sem_toques(rs) && forall|x: int, y: int|
                    0 <= x < old(self).processo().lado() && 0 <= y < old(self).processo().lado() ==> #[trigger] final(self).processo().tabuleiro_atual().celula(x, y) == cobre(rs, x, y),
            estavel(
                final(self).processo().celulas(),
                old(self).processo().lado(),
                old(self).processo().lado(),
                familia_dois_vizinhos_modificada(),
                0,
                old(self).processo().lado(),
                0,
                old(self).processo().lado(),
            ),
            forall|f: spec_fn(int, int) -> bool|
                #[trigger] fechado(f, old(self).processo().lado()) && crate::bootstrap::contido_em(
                    old(self).processo().celulas(),
                    f,
                    old(self).processo().lado(),
                    old(self).processo().lado(),
                ) ==> crate::bootstrap::contido_em(
                    final(self).processo().celulas(),
                    f,
                    old(self).processo().lado(),
                    old(self).processo().lado(),
                ),
    {
        proof {
            self.processo_bootstrap.lema_forma();
        }
        let n = self.processo_bootstrap.n();
        let ghost t0 = self.processo_bootstrap.tabuleiro_atual();
        let retangulos = self.resolver_sub(0, 0, n);
        let lista = retangulos.lista();
        let ghost rs = lista@;
        let mut k: usize = 0;
        while k < lista.len()
            invariant
                self.wf(),
                n == self.processo().lado(),
                n == old(self).processo().lado(),
                self.processo().passos() == old(self).processo().passos(),
                t0 == old(self).processo().tabuleiro_atual(),
                rs == lista@,
                todos_validos(rs, [0usize, n, 0usize, n]),
                0 <= k <= rs.len(),
                forall|x: int, y: int|
                    0 <= x < n && 0 <= y < n ==> #[trigger] self.processo().tabuleiro_atual().celula(x, y)
                        == (t0.celula(x, y) || cobre(rs.take(k as int), x, y)),
            decreases rs.len() - k,
        {
            let ret = lista[k];
            proof {
                assert(rs.contains(ret));
                assert(crate::bootstrap::dois_vizinhos::valido(ret, [0usize, n, 0usize, n]));
            }
            let ghost antes = rs.take(k as int);
            let mut i = ret[0];
            while i < ret[1]
                invariant
                    self.wf(),
                    n == self.processo().lado(),
                    self.processo().passos() == old(self).processo().passos(),
                    ret[0] <= i <= ret[1] <= n,
                    ret[2] < ret[3] <= n,
                    forall|x: int, y: int|
                        0 <= x < n && 0 <= y < n ==> #[trigger] self.processo().tabuleiro_atual().celula(x, y)
                            == (t0.celula(x, y) || cobre(antes, x, y) || (ret[0] <= x < i && ret[2] <= y
                            < ret[3])),
                decreases ret[1] - i,
            {
                let mut j = ret[2];
                while j < ret[3]
                    invariant
                        self.wf(),
                        n == self.processo().lado(),
                        self.processo().passos() == old(self).processo().passos(),
                        ret[0] <= i < ret[1] <= n,
                        ret[2] <= j <= ret[3] <= n,
                        forall|x: int, y: int|
                            0 <= x < n && 0 <= y < n ==> #[trigger] self.processo().tabuleiro_atual().celula(
                                x,
                                y,
                            ) == (t0.celula(x, y) || cobre(antes, x, y) || (ret[0] <= x < i && ret[2] <= y
                                < ret[3]) || (x == i && ret[2] <= y < j)),
                    decreases ret[3] - j,
                {
                    let ghost velho = self.processo().tabuleiro_atual();
                    self.processo_bootstrap.infectar(i, j);
                    proof {
                        assert forall|x: int, y: int|
                            0 <= x < n && 0 <= y < n implies #[trigger] self.processo().tabuleiro_atual().celula(
                            x,
                            y,
                        ) == (t0.celula(x, y) || cobre(antes, x, y) || (ret[0] <= x < i && ret[2] <= y
                            < ret[3]) || (x == i && ret[2] <= y < j + 1)) by {
                            if !(x == i && y == j) {
                                assert(self.processo().tabuleiro_atual().celula(x, y) == velho.celula(x, y));
                            }
                        }
                    }
                    j += 1;
                }
                i += 1;
            }
            proof {
                let depois = rs.take(k + 1);
                assert(depois =~= antes.push(ret));
                assert forall|x: int, y: int|
                    0 <= x < n && 0 <= y < n implies #[trigger] self.processo().tabuleiro_atual().celula(x, y)
                    == (t0.celula(x, y) || cobre(depois, x, y)) by {
                    if cobre(depois, x, y) {
                        let q = choose|q: [usize; 4]| depois.contains(q) && #[trigger] dentro(q, x, y);
                        crate::bootstrap::dois_vizinhos::lema_contem_push(antes, ret, q);
                        if q != ret {
                            assert(cobre(antes, x, y));
                        }
                    }
                    if cobre(antes, x, y) {
                        let q = choose|q: [usize; 4]| antes.contains(q) && #[trigger] dentro(q, x, y);
                        crate::bootstrap::dois_vizinhos::lema_contem_push(antes, ret, q);
                        assert(cobre(depois, x, y));
                    }
                    if ret[0] <= x < ret[1] && ret[2] <= y < ret[3] {
                        crate::bootstrap::dois_vizinhos::lema_contem_push(antes, ret, ret);
                        assert(dentro(ret, x, y));
                        assert(cobre(depois, x, y));
                    }
                }
            }
            k += 1;
        }
        self.processo_bootstrap.concluir();
        proof {
            assert(rs.take(rs.len() as int) =~= rs);
            let t1 = self.processo().tabuleiro_atual();
            assert forall|x: int, y: int| 0 <= x < n && 0 <= y < n implies #[trigger] t1.celula(x, y) == cobre(rs, x, y) by {
                if t0.celula(x, y) {
                    assert(cobre(rs, x, y));
                }
            }
            assert forall|x: int, y: int| 0 <= x < n && 0 <= y < n implies #[trigger] self.processo().celulas()(x, y) == cobre(rs, x, y) by {
                assert(t1.celula(x, y) == cobre(rs, x, y));
            }
            lema_estavel_retangulos(self.processo().celulas(), n as int, rs);
            let c0 = old(self).processo().celulas();
            let c1 = self.processo().celulas();
            assert forall|f: spec_fn(int, int) -> bool|
                #[trigger] fechado(f, n as int) && crate::bootstrap::contido_em(c0, f, n as int, n as int)
                    implies crate::bootstrap::contido_em(c1, f, n as int, n as int) by {
                assert forall|x: int, y: int|
                    0 <= x < n && 0 <= y < n && t0.celula(x, y) implies #[trigger] f(x, y) by {
                    assert(c0(x, y));
                }
                assert(retangulos_infectados(rs, f));
                assert forall|x: int, y: int| 0 <= x < n && 0 <= y < n && #[trigger] c1(x, y) implies f(x, y) by {
                    assert(t1.celula(x, y) == cobre(rs, x, y));
                    let q = choose|q: [usize; 4]| rs.contains(q) && #[trigger] dentro(q, x, y);
                    assert(bloco_infectado(f, q[0] as int, q[1] as int, q[2] as int, q[3] as int));
                }
            }
        }
    }
}

/// The board where the serial process ends lies within the board that the
/// divide-and-conquer solver gives for the same start: `s` is the board
/// reached after `k` steps from `c0`, and `d` holds `c0` and does not change
/// under the modified two-neighbour rule.
pub proof fn lei_serial_dentro_do_dc(
    c0: spec_fn(int, int) -> bool,
    s: spec_fn(int, int) -> bool,
    d: spec_fn(int, int) -> bool,
    n: int,
    k: nat,
)
    requires
        crate::bootstrap::iguais_em(s, crate::bootstrap::iterar(c0, n, n, familia_dois_vizinhos_modificada(), k), n, n),
        crate::bootstrap::contido_em(c0, d, n, n),
        estavel(d, n, n, familia_dois_vizinhos_modificada(), 0, n, 0, n),
    ensures
        crate::bootstrap::contido_em(s, d, n, n),
{
    crate::bootstrap::lei_contido_em_estavel(c0, d, n, n, familia_dois_vizinhos_modificada(), k);
    let it = crate::bootstrap::iterar(c0, n, n, familia_dois_vizinhos_modificada(), k);
    assert forall|i: int, j: int| 0 <= i < n && 0 <= j < n && #[trigger] s(i, j) implies d(i, j) by {
        assert(it(i, j));
    }
}

/// Every board reached by steps holds the cells of the start.
proof fn lema_inicio_contido(c0: spec_fn(int, int) -> bool, n: int, fam: Seq<Seq<[i32; 2]>>, k: nat)
    ensures
        crate::bootstrap::contido_em(c0, crate::bootstrap::iterar(c0, n, n, fam, k), n, n),
    decreases k,
{
    if k > 0 {
        lema_inicio_contido(c0, n, fam, (k - 1) as nat);
        let anterior = crate::bootstrap::iterar(c0, n, n, fam, (k - 1) as nat);
        crate::bootstrap::lei_passo_monotono(anterior, anterior, n, n, fam);
        assert forall|i: int, j: int| 0 <= i < n && 0 <= j < n && #[trigger] c0(i, j) implies crate::bootstrap::iterar(
            c0,
            n,
            n,
            fam,
            k,
        )(i, j) by {
            assert(anterior(i, j));
            assert(crate::bootstrap::passo(anterior, n, n, fam)(i, j));
        }
    }
}

/// The serial process and the divide-and-conquer solver end on the same
/// board: `s` is the board reached after `k` steps from `c0` and no step
/// changes it; `d` holds `c0`, no step changes it, and it lies within every
/// board that holds `c0` and that no step changes (all of which the solver
/// states of its result).
pub proof fn lei_metodos_iguais(
    c0: spec_fn(int, int) -> bool,
    s: spec_fn(int, int) -> bool,
    d: spec_fn(int, int) -> bool,
    n: int,
    k: nat,
)
    requires
        crate::bootstrap::iguais_em(s, crate::bootstrap::iterar(c0, n, n, familia_dois_vizinhos_modificada(), k), n, n),
        estavel(s, n, n, familia_dois_vizinhos_modificada(), 0, n, 0, n),
        crate::bootstrap::contido_em(c0, d, n, n),
        estavel(d, n, n, familia_dois_vizinhos_modificada(), 0, n, 0, n),
        forall|f: spec_fn(int, int) -> bool|
            #[trigger] fechado(f, n) && crate::bootstrap::contido_em(c0, f, n, n) ==> crate::bootstrap::contido_em(
                d,
                f,
                n,
                n,
            ),
    ensures
        crate::bootstrap::iguais_em(s, d, n, n),
{
    let fam = familia_dois_vizinhos_modificada();
    lei_serial_dentro_do_dc(c0, s, d, n, k);
    lema_inicio_contido(c0, n, fam, k);
    let it = crate::bootstrap::iterar(c0, n, n, fam, k);
    assert forall|i: int, j: int| 0 <= i < n && 0 <= j < n && #[trigger] c0(i, j) implies s(i, j) by {
        assert(it(i, j));
    }
    assert(fechado(s, n));
    assert(crate::bootstrap::contido_em(d, s, n, n));
    assert forall|i: int, j: int| 0 <= i < n && 0 <= j < n implies #[trigger] s(i, j) == d(i, j) by {
        if s(i, j) {
            assert(d(i, j));
        }
        if d(i, j) {
            assert(s(i, j));
        }
    }
}

} // verus!
