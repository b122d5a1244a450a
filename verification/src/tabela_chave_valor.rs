//! Hash table with separate chaining, and the two sets built on it.
use std::collections::hash_map::DefaultHasher;
use std::hash::Hasher;
use vstd::prelude::*;
use vstd::std_specs::hash::DefaultHasherAdditionalSpecFns;
use crate::lista_encadeada::{IteradorListaDupla, ListaDupla};

verus! {

/// A type whose values can be keys of a `TabelaCV`. Keys with the same
/// model are the same key; a key's bucket is chosen by hashing the bytes of
/// its model.
pub trait Chave: Sized {
    /// What tells keys apart.
    type Modelo;

    spec fn modelo(&self) -> Self::Modelo;

    /// The bytes hashed for a key whose model is `m`.
    spec fn bytes(m: Self::Modelo) -> Seq<u8>;

    fn codificar(&self) -> (r: Vec<u8>)
        ensures
            r@ == Self::bytes(self.modelo()),
    ;

    fn igual(&self, outro: &Self) -> (r: bool)
        ensures
            r == (self.modelo() == outro.modelo()),
    ;

    fn clonar(&self) -> (r: Self)
        ensures
            r.modelo() == self.modelo(),
    ;
}

/// A key that is its own model: two such keys are the same key exactly
/// when they are equal.
pub trait ChaveSimples: Chave<Modelo = Self> + Copy {
    proof fn lema_modelo()
        ensures
            forall|x: Self| #[trigger] x.modelo() == x,
    ;
}

/// The eight bytes of `x`, least significant first.
pub open spec fn bytes_le(x: u64) -> Seq<u8> {
    seq![
        x as u8,
        (x >> 8u64) as u8,
        (x >> 16u64) as u8,
        (x >> 24u64) as u8,
        (x >> 32u64) as u8,
        (x >> 40u64) as u8,
        (x >> 48u64) as u8,
        (x >> 56u64) as u8,
    ]
}

/// The eight bytes of `x`, least significant first, in a vector.
fn bytes_le_vec(x: u64) -> (r: Vec<u8>)
    ensures
        r@ == bytes_le(x),
{
    let mut r: Vec<u8> = Vec::new();
    r.push(x as u8);
    r.push((x >> 8u64) as u8);
    r.push((x >> 16u64) as u8);
    r.push((x >> 24u64) as u8);
    r.push((x >> 32u64) as u8);
    r.push((x >> 40u64) as u8);
    r.push((x >> 48u64) as u8);
    r.push((x >> 56u64) as u8);
    assert(r@ =~= bytes_le(x));
    r
}

/// The bytes of the characters of `s`, eight for each, one after the other.
pub open spec fn bytes_de_texto(s: Seq<char>) -> Seq<u8>
    decreases s.len(),
{
    if s.len() == 0 {
        Seq::empty()
    } else {
        bytes_de_texto(s.drop_last()) + bytes_le((s.last() as u32) as u64)
    }
}

impl Chave for char {
    type Modelo = char;

    open spec fn modelo(&self) -> char {
        *self
    }

    open spec fn bytes(m: char) -> Seq<u8> {
        bytes_le((m as u32) as u64)
    }

    fn codificar(&self) -> (r: Vec<u8>) {
        bytes_le_vec((*self as u32) as u64)
    }

    fn igual(&self, outro: &Self) -> (r: bool) {
        *self == *outro
    }

    fn clonar(&self) -> (r: Self) {
        *self
    }
}

impl Chave for u32 {
    type Modelo = u32;

    open spec fn modelo(&self) -> u32 {
        *self
    }

    open spec fn bytes(m: u32) -> Seq<u8> {
        bytes_le(m as u64)
    }

    fn codificar(&self) -> (r: Vec<u8>) {
        bytes_le_vec(*self as u64)
    }

    fn igual(&self, outro: &Self) -> (r: bool) {
        *self == *outro
    }

    fn clonar(&self) -> (r: Self) {
        *self
    }
}

impl Chave for u64 {
    type Modelo = u64;

    open spec fn modelo(&self) -> u64 {
        *self
    }

    open spec fn bytes(m: u64) -> Seq<u8> {
        bytes_le(m)
    }

    fn codificar(&self) -> (r: Vec<u8>) {
        bytes_le_vec(*self)
    }

    fn igual(&self, outro: &Self) -> (r: bool) {
        *self == *outro
    }

    fn clonar(&self) -> (r: Self) {
        *self
    }
}

impl Chave for i32 {
    type Modelo = i32;

    open spec fn modelo(&self) -> i32 {
        *self
    }

    open spec fn bytes(m: i32) -> Seq<u8> {
        bytes_le(m as u64)
    }

    fn codificar(&self) -> (r: Vec<u8>) {
        bytes_le_vec(*self as u64)
    }

    fn igual(&self, outro: &Self) -> (r: bool) {
        *self == *outro
    }

    fn clonar(&self) -> (r: Self) {
        *self
    }
}

impl Chave for i64 {
    type Modelo = i64;

    open spec fn modelo(&self) -> i64 {
        *self
    }

    open spec fn bytes(m: i64) -> Seq<u8> {
        bytes_le(m as u64)
    }

    fn codificar(&self) -> (r: Vec<u8>) {
        bytes_le_vec(*self as u64)
    }

    fn igual(&self, outro: &Self) -> (r: bool) {
        *self == *outro
    }

    fn clonar(&self) -> (r: Self) {
        *self
    }
}

impl Chave for String {
    type Modelo = Seq<char>;

    open spec fn modelo(&self) -> Seq<char> {
        self@
    }

    open spec fn bytes(m: Seq<char>) -> Seq<u8> {
        bytes_de_texto(m)
    }

    fn codificar(&self) -> (r: Vec<u8>) {
        let texto = self.as_str();
        let n = texto.unicode_len();
        let mut r: Vec<u8> = Vec::new();
        let mut i: usize = 0;
        proof {
            assert(self@.take(0) =~= Seq::<char>::empty());
        }
        while i < n
            invariant
                texto@ == self@,
                n == self@.len(),
                0 <= i <= n,
                r@ == bytes_de_texto(self@.take(i as int)),
            decreases n - i,
        {
            let c = texto.get_char(i);
            let mut b = bytes_le_vec((c as u32) as u64);
            r.append(&mut b);
            proof {
                assert(self@.take(i + 1).drop_last() =~= self@.take(i as int));
            }
            i = i + 1;
        }
        proof {
            assert(self@.take(n as int) =~= self@);
        }
        r
    }

    fn igual(&self, outro: &Self) -> (r: bool) {
        *self == *outro
    }

    fn clonar(&self) -> (r: Self) {
        self.clone()
    }
}

impl ChaveSimples for char {
    proof fn lema_modelo() {
    }
}

impl ChaveSimples for u32 {
    proof fn lema_modelo() {
    }
}

impl ChaveSimples for u64 {
    proof fn lema_modelo() {
    }
}

impl ChaveSimples for i32 {
    proof fn lema_modelo() {
    }
}

impl ChaveSimples for i64 {
    proof fn lema_modelo() {
    }
}

/// The digest of the standard hasher for the bytes `b`.
pub open spec fn espalhar(b: Seq<u8>) -> u64 {
    DefaultHasher::spec_finish(seq![b])
}

/// Total number of pairs in the buckets `v`.
pub open spec fn soma_tamanhos<Tc, Tv>(v: Seq<Vec<(Tc, Tv)>>) -> nat
    decreases v.len(),
{
    if v.len() == 0 {
        0
    } else {
        soma_tamanhos(v.drop_last()) + v.last()@.len()
    }
}

/// Replacing one bucket changes the total by the difference of the lengths.
proof fn lema_soma_trocar<Tc, Tv>(v: Seq<Vec<(Tc, Tv)>>, h: int, x: Vec<(Tc, Tv)>)
    requires
        0 <= h < v.len(),
    ensures
        soma_tamanhos(v.update(h, x)) == soma_tamanhos(v) - v[h]@.len() + x@.len(),
    decreases v.len(),
{
    if h == v.len() - 1 {
        assert(v.update(h, x).drop_last() =~= v.drop_last());
    } else {
        lema_soma_trocar(v.drop_last(), h, x);
        assert(v.update(h, x).drop_last() =~= v.drop_last().update(h, x));
    }
}

/// Buckets that are all empty hold no pair.
proof fn lema_soma_vazios<Tc, Tv>(v: Seq<Vec<(Tc, Tv)>>)
    requires
        forall|b: int| 0 <= b < v.len() ==> (#[trigger] v[b])@.len() == 0,
    ensures
        soma_tamanhos(v) == 0,
    decreases v.len(),
{
    if v.len() > 0 {
        lema_soma_vazios(v.drop_last());
    }
}

/// Key-value table with keys of type `Tc` and values of type `Tv`, kept in
/// `d` buckets chosen by hashing the key.
#[verifier::reject_recursive_types(Tc)]
pub struct TabelaCV<Tc: Chave, Tv> {
    d: u64,
    v: Vec<Vec<(Tc, Tv)>>,
    mapa: Ghost<Map<Tc::Modelo, Tv>>,
}

impl<Tc: Chave, Tv> View for TabelaCV<Tc, Tv> {
    type V = Map<Tc::Modelo, Tv>;

    closed spec fn view(&self) -> Map<Tc::Modelo, Tv> {
        self.mapa@
    }
}

impl<Tc: Chave, Tv> TabelaCV<Tc, Tv> {
    /// Number of buckets.
    pub closed spec fn spec_d(&self) -> u64 {
        self.d
    }

    /// The bucket where the key whose model is `k` is kept.
    pub open spec fn balde(&self, k: Tc::Modelo) -> u64 {
        (espalhar(Tc::bytes(k)) % self.spec_d()) as u64
    }

    pub closed spec fn wf(&self) -> bool {
        &&& self.d > 0
        &&& self.d <= usize::MAX
        &&& self.v@.len() == self.d
        &&& self.mapa@.dom().finite()
        &&& soma_tamanhos(self.v@) == self.mapa@.dom().len()
        &&& forall|b: int, i: int|
            0 <= b < self.v@.len() && 0 <= i < self.v@[b]@.len() ==> {
                let (ck, x) = #[trigger] self.v@[b]@[i];
                &&& self.balde(ck.modelo()) == b
                &&& self.mapa@.contains_key(ck.modelo())
                &&& self.mapa@[ck.modelo()] == x
            }
        &&& forall|b: int, i: int, j: int|
            0 <= b < self.v@.len() && 0 <= i < self.v@[b]@.len() && 0 <= j < self.v@[b]@.len()
                && (#[trigger] self.v@[b]@[i]).0.modelo() == (#[trigger] self.v@[b]@[j]).0.modelo() ==> i == j
        &&& forall|k: Tc::Modelo|
            #[trigger] self.mapa@.contains_key(k) ==> exists|i: int|
                0 <= i < self.v@[self.balde(k) as int]@.len() && (#[trigger] self.v@[self.balde(
                    k,
                ) as int]@[i]).0.modelo() == k
    }

    /// Number of pairs stored in the buckets.
    pub closed spec fn pares(&self) -> nat {
        soma_tamanhos(self.v@)
    }

    /// A well-formed table holds finitely many keys, and one pair per key.
    pub proof fn lema_finito(&self)
        requires
            self.wf(),
        ensures
            self@.dom().finite(),
            self.pares() == self@.dom().len(),
    {
    }

    /// Creates an empty table with `d` buckets.
    pub fn novo(d: u64) -> (r: Self)
        requires
            d > 0,
            d <= usize::MAX,
        ensures
            r.wf(),
            r@ == Map::<Tc::Modelo, Tv>::empty(),
            r.spec_d() == d,
            r.pares() == 0,
    {
        let mut v: Vec<Vec<(Tc, Tv)>> = Vec::new();
        let mut i: u64 = 0;
        while i < d
            invariant
                0 <= i <= d,
                d <= usize::MAX,
                v@.len() == i,
                forall|b: int| 0 <= b < v@.len() ==> (#[trigger] v@[b])@.len() == 0,
            decreases d - i,
        {
            v.push(Vec::new());
            i = i + 1;
        }
        proof {
            lema_soma_vazios(v@);
            assert(Map::<Tc::Modelo, Tv>::empty().dom() =~= Set::<Tc::Modelo>::empty());
        }
        TabelaCV { d, v, mapa: Ghost(Map::empty()) }
    }

    /// The bucket of `chave`.
    fn calcular_hash(&self, chave: &Tc) -> (h: u64)
        requires
            self.spec_d() > 0,
        ensures
            h == self.balde(chave.modelo()),
            h < self.spec_d(),
    {
        let mut s = DefaultHasher::new();
        let b = chave.codificar();
        s.write(b.as_slice());
        proof {
            assert(s@ =~= seq![Tc::bytes(chave.modelo())]);
        }
        s.finish() % self.d
    }

    /// Looks for `chave` in the bucket `hash_chave`: its index there and its value.
    fn procurar_chave_hash(&self, chave: &Tc, hash_chave: u64) -> (r: Option<(usize, &Tv)>)
        requires
            self.wf(),
            hash_chave < self.spec_d(),
        ensures
            match r {
                Some((i, x)) => {
                    &&& i < self.v@[hash_chave as int]@.len()
                    &&& self.v@[hash_chave as int]@[i as int].0.modelo() == chave.modelo()
                    &&& *x == self.v@[hash_chave as int]@[i as int].1
                },
                None => forall|i: int|
                    0 <= i < self.v@[hash_chave as int]@.len() ==> (
                    #[trigger] self.v@[hash_chave as int]@[i]).0.modelo() != chave.modelo(),
            },
    {
        let v = &self.v[hash_chave as usize];
        let mut i: usize = 0;
        while i < v.len()
            invariant
                0 <= i <= v@.len(),
                hash_chave < self.v@.len(),
                v@ == self.v@[hash_chave as int]@,
                forall|j: int| 0 <= j < i ==> (#[trigger] v@[j]).0.modelo() != chave.modelo(),
            decreases v@.len() - i,
        {
            if v[i].0.igual(chave) {
                return Some((i, &v[i].1));
            }
            i = i + 1;
        }
        None
    }

    /// In a well-formed table, a key is present exactly when its bucket holds it.
    proof fn lema_presenca(&self, k: Tc::Modelo)
        requires
            self.wf(),
        ensures
            self.mapa@.contains_key(k) <==> exists|i: int|
                0 <= i < self.v@[self.balde(k) as int]@.len() && (#[trigger] self.v@[self.balde(
                    k,
                ) as int]@[i]).0.modelo() == k,
            forall|i: int|
                0 <= i < self.v@[self.balde(k) as int]@.len() && (#[trigger] self.v@[self.balde(
                    k,
                ) as int]@[i]).0.modelo() == k ==> self.mapa@.contains_key(k) && self.mapa@[k] == self.v@[self.balde(
                    k,
                ) as int]@[i].1,
    {
        assert(self.balde(k) < self.d);
    }

    /// Inserts the pair (`chave`, `valor`), replacing the value already kept
    /// under `chave` if there is one: the number of pairs grows by one only
    /// for a new key.
    pub fn inserir(&mut self, chave: &Tc, valor: Tv)
        requires
            old(self).wf(),
        ensures
            final(self).wf(),
            final(self)@ == old(self)@.insert(chave.modelo(), valor),
            final(self).spec_d() == old(self).spec_d(),
            final(self).pares() == old(self).pares() + (if old(self)@.contains_key(chave.modelo()) {
                0int
            } else {
                1int
            }),
    {
        let ghost m = chave.modelo();
        let c = chave.clonar();
        let hash_chave = self.calcular_hash(chave);
        let h = hash_chave as usize;
        proof {
            self.lema_presenca(m);
        }
        let achado = match self.procurar_chave_hash(chave, hash_chave) {
            Some((indice, _valor)) => Some(indice),
            None => None,
        };
        let ghost v0 = self.v@;
        let ghost m0 = self.mapa@;
        let mut balde: Vec<(Tc, Tv)> = Vec::new();
        std::mem::swap(&mut balde, &mut self.v[h]);
        let ghost b0 = balde@;
        match achado {
            Some(indice) => {
                balde.set(indice, (c, valor));
            },
            None => {
                balde.push((c, valor));
            },
        }
        self.v.set(h, balde);
        proof {
            self.mapa@ = m0.insert(m, valor);
            let v1 = self.v@;
            assert(v1 =~= v0.update(h as int, v1[h as int]));
            lema_soma_trocar(v0, h as int, v1[h as int]);
            assert(b0 == v0[h as int]@);
            assert(achado is None <==> !m0.contains_key(m));
            assert(m0.insert(m, valor).dom() =~= m0.dom().insert(m));
            assert forall|b: int, i: int|
                0 <= b < v1.len() && 0 <= i < v1[b]@.len() implies {
                let (ck, x) = #[trigger] v1[b]@[i];
                &&& self.balde(ck.modelo()) == b
                &&& self.mapa@.contains_key(ck.modelo())
                &&& self.mapa@[ck.modelo()] == x
            } by {
                if b != h {
                    assert(v1[b] == v0[b]);
                } else if achado is Some && i == achado->Some_0 {
                } else if achado is None && i == b0.len() {
                } else {
                    assert(v1[b]@[i] == b0[i]);
                    assert(b0[i] == v0[b]@[i]);
                    assert(v0[b]@[i].0.modelo() != m);
                }
            }
            assert forall|b: int, i: int, j: int|
                0 <= b < v1.len() && 0 <= i < v1[b]@.len() && 0 <= j < v1[b]@.len() && (
                #[trigger] v1[b]@[i]).0.modelo() == (#[trigger] v1[b]@[j]).0.modelo() implies i == j by {
                if b != h {
                    assert(v1[b] == v0[b]);
                } else {
                    if achado is None {
                        if i < b0.len() {
                            assert(v1[b]@[i] == v0[b]@[i]);
                        }
                        if j < b0.len() {
                            assert(v1[b]@[j] == v0[b]@[j]);
                        }
                    } else {
                        let p = achado->Some_0 as int;
                        if i != p {
                            assert(v1[b]@[i] == v0[b]@[i]);
                        }
                        if j != p {
                            assert(v1[b]@[j] == v0[b]@[j]);
                        }
                        if i != p && j != p {
                        } else if i == p && j != p {
                            assert(v0[b]@[j].0.modelo() == m);
                            assert(v0[b]@[p].0.modelo() == m);
                        } else if j == p && i != p {
                            assert(v0[b]@[i].0.modelo() == m);
                            assert(v0[b]@[p].0.modelo() == m);
                        }
                    }
                }
            }
            assert forall|k: Tc::Modelo| #[trigger] self.mapa@.contains_key(k) implies exists|i: int|
                0 <= i < v1[self.balde(k) as int]@.len() && (#[trigger] v1[self.balde(
                    k,
                ) as int]@[i]).0.modelo() == k by {
                if k == m {
                    if achado is None {
                        assert(v1[h as int]@[b0.len() as int].0.modelo() == m);
                    } else {
                        assert(v1[h as int]@[achado->Some_0 as int].0.modelo() == m);
                    }
                } else {
                    assert(m0.contains_key(k));
                    let bk = self.balde(k) as int;
                    let i = choose|i: int| 0 <= i < v0[bk]@.len() && (#[trigger] v0[bk]@[i]).0.modelo() == k;
                    if bk != h {
                        assert(v1[bk] == v0[bk]);
                    } else {
                        assert(v1[bk]@[i] == v0[bk]@[i]);
                    }
                }
            }
        }
    }

    /// Deletes the entry of `chave`, if there is one: the number of pairs
    /// drops by one only when the key was there.
    pub fn remover(&mut self, chave: &Tc)
        requires
            old(self).wf(),
        ensures
            final(self).wf(),
            final(self)@ == old(self)@.remove(chave.modelo()),
            final(self).spec_d() == old(self).spec_d(),
            final(self).pares() == old(self).pares() - (if old(self)@.contains_key(chave.modelo()) {
                1int
            } else {
                0int
            }),
    {
        let ghost m = chave.modelo();
        let hash_chave = self.calcular_hash(chave);
        let h = hash_chave as usize;
        proof {
            self.lema_presenca(m);
        }
        let achado = match self.procurar_chave_hash(chave, hash_chave) {
            Some((indice, _valor)) => Some(indice),
            None => None,
        };
        if let Some(indice) = achado {
            let ghost v0 = self.v@;
            let ghost m0 = self.mapa@;
            let mut balde: Vec<(Tc, Tv)> = Vec::new();
            std::mem::swap(&mut balde, &mut self.v[h]);
            let ghost b0 = balde@;
            let _par = balde.remove(indice);
            self.v.set(h, balde);
            proof {
                self.mapa@ = m0.remove(m);
                let v1 = self.v@;
                let p = indice as int;
                assert(v1 =~= v0.update(h as int, v1[h as int]));
                lema_soma_trocar(v0, h as int, v1[h as int]);
                assert(m0.contains_key(m));
                assert(m0.remove(m).dom() =~= m0.dom().remove(m));
                assert forall|b: int, i: int|
                    0 <= b < v1.len() && 0 <= i < v1[b]@.len() implies {
                    let (ck, x) = #[trigger] v1[b]@[i];
                    &&& self.balde(ck.modelo()) == b
                    &&& self.mapa@.contains_key(ck.modelo())
                    &&& self.mapa@[ck.modelo()] == x
                } by {
                    if b != h {
                        assert(v1[b] == v0[b]);
                        if v0[b]@[i].0.modelo() == m {
                            assert(self.balde(m) == h);
                        }
                    } else {
                        let ii = if i < p { i } else { i + 1 };
                        assert(v1[b]@[i] == v0[b]@[ii]);
                        assert(ii != p);
                    }
                }
                assert forall|b: int, i: int, j: int|
                    0 <= b < v1.len() && 0 <= i < v1[b]@.len() && 0 <= j < v1[b]@.len() && (
                    #[trigger] v1[b]@[i]).0.modelo() == (#[trigger] v1[b]@[j]).0.modelo() implies i == j by {
                    if b != h {
                        assert(v1[b] == v0[b]);
                    } else {
                        let ii = if i < p { i } else { i + 1 };
                        let jj = if j < p { j } else { j + 1 };
                        assert(v1[b]@[i] == v0[b]@[ii]);
                        assert(v1[b]@[j] == v0[b]@[jj]);
                    }
                }
                assert forall|k: Tc::Modelo| #[trigger] self.mapa@.contains_key(k) implies exists|i: int|
                    0 <= i < v1[self.balde(k) as int]@.len() && (#[trigger] v1[self.balde(
                        k,
                    ) as int]@[i]).0.modelo() == k by {
                    assert(m0.contains_key(k));
                    let bk = self.balde(k) as int;
                    let i = choose|i: int| 0 <= i < v0[bk]@.len() && (#[trigger] v0[bk]@[i]).0.modelo() == k;
                    if bk != h {
                        assert(v1[bk] == v0[bk]);
                    } else {
                        assert(i != p);
                        let ii = if i < p { i } else { i - 1 };
                        assert(v1[bk]@[ii] == v0[bk]@[i]);
                    }
                }
            }
        } else {
            proof {
                assert(!self.mapa@.contains_key(m));
                assert(self.mapa@.remove(m) =~= self.mapa@);
            }
        }
    }

    /// The value kept under `chave`, if any.
    pub fn ler(&self, chave: &Tc) -> (r: Option<&Tv>)
        requires
            self.wf(),
        ensures
            r == (if self@.contains_key(chave.modelo()) {
                Some(&self@[chave.modelo()])
            } else {
                None
            }),
    {
        let hash_chave = self.calcular_hash(chave);
        proof {
            self.lema_presenca(chave.modelo());
        }
        match self.procurar_chave_hash(chave, hash_chave) {
            Some((_endereco, valor)) => Some(valor),
            None => None,
        }
    }

    /// Whether a value is kept under `chave`.
    pub fn contem(&self, chave: &Tc) -> (r: bool)
        requires
            self.wf(),
        ensures
            r == self@.contains_key(chave.modelo()),
    {
        match self.ler(chave) {
            Some(_) => true,
            None => false,
        }
    }

    /// Takes the value kept under `chave` out of the table, if any.
    pub fn retirar(&mut self, chave: &Tc) -> (r: Option<Tv>)
        requires
            old(self).wf(),
        ensures
            final(self).wf(),
            final(self)@ == old(self)@.remove(chave.modelo()),
            r == (if old(self)@.contains_key(chave.modelo()) {
                Some(old(self)@[chave.modelo()])
            } else {
                None
            }),
            final(self).spec_d() == old(self).spec_d(),
            final(self).pares() == old(self).pares() - (if old(self)@.contains_key(chave.modelo()) {
                1int
            } else {
                0int
            }),
    {
        let ghost m = chave.modelo();
        let hash_chave = self.calcular_hash(chave);
        let h = hash_chave as usize;
        proof {
            self.lema_presenca(m);
        }
        let achado = match self.procurar_chave_hash(chave, hash_chave) {
            Some((indice, _valor)) => Some(indice),
            None => None,
        };
        match achado {
            Some(indice) => {
                let ghost v0 = self.v@;
                let ghost m0 = self.mapa@;
                let mut balde: Vec<(Tc, Tv)> = Vec::new();
                std::mem::swap(&mut balde, &mut self.v[h]);
                let ghost b0 = balde@;
                let par = balde.remove(indice);
                self.v.set(h, balde);
                proof {
                    self.mapa@ = m0.remove(m);
                    let v1 = self.v@;
                    let p = indice as int;
                    assert(v1 =~= v0.update(h as int, v1[h as int]));
                    lema_soma_trocar(v0, h as int, v1[h as int]);
                    assert(m0.contains_key(m));
                    assert(m0.remove(m).dom() =~= m0.dom().remove(m));
                    assert forall|b: int, i: int|
                        0 <= b < v1.len() && 0 <= i < v1[b]@.len() implies {
                        let (ck, x) = #[trigger] v1[b]@[i];
                        &&& self.balde(ck.modelo()) == b
                        &&& self.mapa@.contains_key(ck.modelo())
                        &&& self.mapa@[ck.modelo()] == x
                    } by {
                        if b != h {
                            assert(v1[b] == v0[b]);
                            if v0[b]@[i].0.modelo() == m {
                                assert(self.balde(m) == h);
                            }
                        } else {
                            let ii = if i < p { i } else { i + 1 };
                            assert(v1[b]@[i] == v0[b]@[ii]);
                            assert(ii != p);
                        }
                    }
                    assert forall|b: int, i: int, j: int|
                        0 <= b < v1.len() && 0 <= i < v1[b]@.len() && 0 <= j < v1[b]@.len() && (
                        #[trigger] v1[b]@[i]).0.modelo() == (#[trigger] v1[b]@[j]).0.modelo() implies i == j by {
                        if b != h {
                            assert(v1[b] == v0[b]);
                        } else {
                            let ii = if i < p { i } else { i + 1 };
                            let jj = if j < p { j } else { j + 1 };
                            assert(v1[b]@[i] == v0[b]@[ii]);
                            assert(v1[b]@[j] == v0[b]@[jj]);
                        }
                    }
                    assert forall|k: Tc::Modelo| #[trigger] self.mapa@.contains_key(k) implies exists|i: int|
                        0 <= i < v1[self.balde(k) as int]@.len() && (#[trigger] v1[self.balde(
                            k,
                        ) as int]@[i]).0.modelo() == k by {
                        assert(m0.contains_key(k));
                        let bk = self.balde(k) as int;
                        let i = choose|i: int|
                            0 <= i < v0[bk]@.len() && (#[trigger] v0[bk]@[i]).0.modelo() == k;
                        if bk != h {
                            assert(v1[bk] == v0[bk]);
                        } else {
                            assert(i != p);
                            let ii = if i < p { i } else { i - 1 };
                            assert(v1[bk]@[ii] == v0[bk]@[i]);
                        }
                    }
                }
                Some(par.1)
            },
            None => {
                proof {
                    assert(!self.mapa@.contains_key(m));
                    assert(self.mapa@.remove(m) =~= self.mapa@);
                }
                None
            },
        }
    }
}

/// Set of keys, kept in a `TabelaCV` with empty values.
#[verifier::reject_recursive_types(Tc)]
pub struct Conjunto<Tc: Chave> {
    tabela: TabelaCV<Tc, ()>,
}

impl<Tc: Chave> View for Conjunto<Tc> {
    type V = Set<Tc::Modelo>;

    closed spec fn view(&self) -> Set<Tc::Modelo> {
        self.tabela@.dom()
    }
}

impl<Tc: Chave> Conjunto<Tc> {
    pub closed spec fn wf(&self) -> bool {
        self.tabela.wf()
    }

    /// Number of buckets of the table that holds the set.
    pub closed spec fn baldes(&self) -> u64 {
        self.tabela.spec_d()
    }

    /// Creates an empty set whose table has `d` buckets.
    pub fn novo(d: u64) -> (r: Self)
        requires
            d > 0,
            d <= usize::MAX,
        ensures
            r.wf(),
            r@ == Set::<Tc::Modelo>::empty(),
            r.baldes() == d,
    {
        let tabela = TabelaCV::<Tc, ()>::novo(d);
        let r = Conjunto::<Tc> { tabela };
        assert(r@ =~= Set::<Tc::Modelo>::empty());
        r
    }

    /// Whether `elemento` belongs to the set.
    pub fn contem(&self, elemento: &Tc) -> (r: bool)
        requires
            self.wf(),
        ensures
            r == self@.contains(elemento.modelo()),
    {
        match self.tabela.ler(elemento) {
            Some(_item) => true,
            None => false,
        }
    }

    /// Adds `elemento` to the set.
    pub fn inserir(&mut self, elemento: &Tc)
        requires
            old(self).wf(),
        ensures
            final(self).wf(),
            final(self)@ == old(self)@.insert(elemento.modelo()),
            final(self).baldes() == old(self).baldes(),
    {
        self.tabela.inserir(elemento, ());
        assert(self@ =~= old(self)@.insert(elemento.modelo()));
    }

    /// Takes `elemento` out of the set.
    pub fn remover(&mut self, elemento: &Tc)
        requires
            old(self).wf(),
        ensures
            final(self).wf(),
            final(self)@ == old(self)@.remove(elemento.modelo()),
            final(self).baldes() == old(self).baldes(),
    {
        self.tabela.remover(elemento);
        assert(self@ =~= old(self)@.remove(elemento.modelo()));
    }
}

/// Set that remembers the order in which its elements came in: a table from
/// each element to the address of its cell in a doubly linked list.
#[verifier::reject_recursive_types(Tc)]
pub struct ConjuntoIteravel<Tc: ChaveSimples> {
    tabela: TabelaCV<Tc, usize>,
    lista: ListaDupla<Tc>,
}

impl<Tc: ChaveSimples> View for ConjuntoIteravel<Tc> {
    type V = Seq<Tc>;

    /// The elements, in the order in which they came in.
    closed spec fn view(&self) -> Seq<Tc> {
        self.lista@
    }
}

impl<Tc: ChaveSimples> ConjuntoIteravel<Tc> {
    pub closed spec fn wf(&self) -> bool {
        &&& self.tabela.wf()
        &&& self.lista.wf()
        &&& self.lista@.no_duplicates()
        &&& forall|i: int|
            0 <= i < self.lista@.len() ==> self.tabela@.contains_key(#[trigger] self.lista@[i])
                && self.tabela@[self.lista@[i]] == self.lista.enderecos()[i]
        &&& forall|x: Tc| #[trigger] self.tabela@.contains_key(x) ==> self.lista@.contains(x)
    }

    /// The elements of a well-formed set appear once each.
    pub proof fn lema_sem_repeticao(&self)
        requires
            self.wf(),
        ensures
            self@.no_duplicates(),
    {
    }

    /// Creates an empty set whose table has `d` buckets.
    pub fn novo(d: u64) -> (r: Self)
        requires
            d > 0,
            d <= usize::MAX,
        ensures
            r.wf(),
            r@ == Seq::<Tc>::empty(),
    {
        proof {
            Tc::lema_modelo();
        }
        let tabela = TabelaCV::<Tc, usize>::novo(d);
        let lista = ListaDupla::<Tc>::novo();
        ConjuntoIteravel::<Tc> { tabela, lista }
    }

    /// Adds `elemento` at the end of the order, unless it is already there.
    pub fn inserir(&mut self, elemento: &Tc)
        requires
            old(self).wf(),
        ensures
            final(self).wf(),
            final(self)@ == (if old(self)@.contains(*elemento) {
                old(self)@
            } else {
                old(self)@.push(*elemento)
            }),
    {
        proof {
            Tc::lema_modelo();
        }
        proof {
            self.lista.lema_forma();
        }
        match self.tabela.ler(elemento) {
            None => {
                proof {
                    if self.lista@.contains(*elemento) {
                        let i = choose|i: int| 0 <= i < self.lista@.len() && self.lista@[i] == *elemento;
                        assert(self.tabela@.contains_key(self.lista@[i]));
                    }
                }
                let ghost l0 = self.lista@;
                let ghost e0 = self.lista.enderecos();
                let ghost t0 = self.tabela@;
                self.lista.colocar(*elemento);
                let p = self.lista.ponta();
                self.tabela.inserir(elemento, p);
                proof {
                    self.lista.lema_forma();
                    let l = self.lista@;
                    let e = self.lista.enderecos();
                    assert forall|i: int| 0 <= i < l.len() implies self.tabela@.contains_key(
                        #[trigger] l[i],
                    ) && self.tabela@[l[i]] == e[i] by {
                        if i < l0.len() {
                            assert(l[i] == l0[i]);
                            assert(e[i] == e0[i]);
                            assert(l0[i] != *elemento);
                        }
                    }
                    assert forall|x: Tc| #[trigger] self.tabela@.contains_key(x) implies l.contains(x) by {
                        if x == *elemento {
                            assert(l[l.len() - 1] == x);
                        } else {
                            assert(t0.contains_key(x));
                            let i = choose|i: int| 0 <= i < l0.len() && l0[i] == x;
                            assert(l[i] == x);
                        }
                    }
                    assert forall|i: int, j: int| 0 <= i < l.len() && 0 <= j < l.len() && i != j implies l[i]
                        != l[j] by {
                        if i < l0.len() && j < l0.len() {
                            assert(l[i] == l0[i]);
                            assert(l[j] == l0[j]);
                        } else if i < l0.len() {
                            assert(l[i] == l0[i]);
                        } else if j < l0.len() {
                            assert(l[j] == l0[j]);
                        }
                    }
                }
            },
            Some(_endereco) => {
                proof {
                    assert(self.lista@.contains(*elemento));
                }
            },
        }
    }

    /// Takes `elemento` out of the set, keeping the order of the others.
    pub fn remover(&mut self, elemento: &Tc)
        requires
            old(self).wf(),
        ensures
            final(self).wf(),
            final(self)@ == (if old(self)@.contains(*elemento) {
                old(self)@.remove(old(self)@.index_of(*elemento))
            } else {
                old(self)@
            }),
    {
        proof {
            Tc::lema_modelo();
        }
        proof {
            self.lista.lema_forma();
        }
        let achado = match self.tabela.ler(elemento) {
            Some(endereco) => Some(*endereco),
            None => None,
        };
        if let Some(endereco) = achado {
            let ghost l0 = self.lista@;
            let ghost e0 = self.lista.enderecos();
            let ghost t0 = self.tabela@;
            let ghost k = l0.index_of(*elemento);
            proof {
                assert(l0.contains(*elemento));
                assert(l0[k] == *elemento);
                assert(t0[l0[k]] == e0[k]);
                assert(self.lista.valido(endereco));
                assert(self.lista.posicao(endereco) == k);
            }
            self.lista.deletar(endereco);
            self.tabela.remover(elemento);
            proof {
                self.lista.lema_forma();
                let l = self.lista@;
                let e = self.lista.enderecos();
                assert forall|i: int| 0 <= i < l.len() implies self.tabela@.contains_key(
                    #[trigger] l[i],
                ) && self.tabela@[l[i]] == e[i] by {
                    let ii = if i < k { i } else { i + 1 };
                    assert(l[i] == l0[ii]);
                    assert(e[i] == e0[ii]);
                    assert(ii != k);
                    assert(l0[ii] != *elemento);
                }
                assert forall|x: Tc| #[trigger] self.tabela@.contains_key(x) implies l.contains(x) by {
                    assert(t0.contains_key(x));
                    let i = choose|i: int| 0 <= i < l0.len() && l0[i] == x;
                    assert(i != k);
                    let ii = if i < k { i } else { i - 1 };
                    assert(l[ii] == x);
                }
                assert forall|i: int, j: int| 0 <= i < l.len() && 0 <= j < l.len() && i != j implies l[i]
                    != l[j] by {
                    let ii = if i < k { i } else { i + 1 };
                    let jj = if j < k { j } else { j + 1 };
                    assert(l[i] == l0[ii]);
                    assert(l[j] == l0[jj]);
                }
            }
        } else {
            proof {
                if self.lista@.contains(*elemento) {
                    let i = choose|i: int| 0 <= i < self.lista@.len() && self.lista@[i] == *elemento;
                    assert(self.tabela@.contains_key(self.lista@[i]));
                }
            }
        }
    }

    /// Whether `elemento` belongs to the set.
    pub fn contem(&self, elemento: &Tc) -> (r: bool)
        requires
            self.wf(),
        ensures
            r == self@.contains(*elemento),
    {
        proof {
            Tc::lema_modelo();
        }
        proof {
            if self.lista@.contains(*elemento) {
                let i = choose|i: int| 0 <= i < self.lista@.len() && self.lista@[i] == *elemento;
                assert(self.tabela@.contains_key(self.lista@[i]));
            }
        }
        match self.tabela.ler(elemento) {
            None => false,
            Some(_item) => true,
        }
    }

    /// The elements, in the order in which they came in.
    pub fn elementos(&self) -> (r: Vec<Tc>)
        requires
            self.wf(),
        ensures
            r@ == self@,
    {
        proof {
            Tc::lema_modelo();
        }
        self.lista.elementos()
    }

    /// An iterator over the elements, in the order in which they came in.
    pub fn into_iter(&self) -> (r: IteradorListaDupla<'_, Tc>)
        requires
            self.wf(),
        ensures
            r.wf(),
            r.elementos() == self@,
            r.vistos() == 0,
    {
        proof {
            Tc::lema_modelo();
        }
        self.lista.into_iter()
    }
}

/// Reading a key of a table after writing it gives what was written; the
/// other keys keep what they had.
pub proof fn lei_ler_apos_inserir<Tc, Tv>(m: Map<Tc, Tv>, k: Tc, v: Tv, outra: Tc)
    ensures
        m.insert(k, v).contains_key(k),
        m.insert(k, v)[k] == v,
        outra != k ==> m.insert(k, v).contains_key(outra) == m.contains_key(outra),
        outra != k && m.contains_key(outra) ==> m.insert(k, v)[outra] == m[outra],
{
}

/// After a key is taken out of a table, reading it finds nothing, and
/// taking it out again changes nothing; the other keys keep what they had.
pub proof fn lei_ler_apos_remover<Tc, Tv>(m: Map<Tc, Tv>, k: Tc, outra: Tc)
    ensures
        !m.remove(k).contains_key(k),
        m.remove(k).remove(k) == m.remove(k),
        outra != k ==> m.remove(k).contains_key(outra) == m.contains_key(outra),
        outra != k && m.contains_key(outra) ==> m.remove(k)[outra] == m[outra],
{
    assert(m.remove(k).remove(k) =~= m.remove(k));
}

/// A set holds an element after it is put in and not after it is taken out;
/// the other elements stay as they were.
pub proof fn lei_conjunto<Tc>(s: Set<Tc>, x: Tc, y: Tc)
    ensures
        s.insert(x).contains(x),
        !s.remove(x).contains(x),
        y != x ==> s.insert(x).contains(y) == s.contains(y),
        y != x ==> s.remove(x).contains(y) == s.contains(y),
{
}

/// In an ordered set, putting an element in keeps the elements already there
/// in their places and, when it is new, puts it last; taking one out keeps
/// the order of the others; no element is ever there twice.
pub proof fn lei_ordem_de_insercao<Tc>(s: Seq<Tc>, x: Tc)
    requires
        s.no_duplicates(),
    ensures
        ({
            let s2 = if s.contains(x) {
                s
            } else {
                s.push(x)
            };
            &&& s2.no_duplicates()
            &&& s2.contains(x)
            &&& forall|i: int| 0 <= i < s.len() ==> s2[i] == s[i]
            &&& !s.contains(x) ==> s2.last() == x
        }),
        ({
            let s3 = if s.contains(x) {
                s.remove(s.index_of(x))
            } else {
                s
            };
            &&& s3.no_duplicates()
            &&& !s3.contains(x)
            &&& forall|y: Tc| y != x ==> s3.contains(y) == s.contains(y)
            &&& s.contains(x) ==> forall|i: int|
                0 <= i < s3.len() ==> s3[i] == (if i < s.index_of(x) {
                    s[i]
                } else {
                    s[i + 1]
                })
        }),
{
    if !s.contains(x) {
        let s2 = s.push(x);
        assert(s2[s.len() as int] == x);
        assert forall|i: int, j: int| 0 <= i < s2.len() && 0 <= j < s2.len() && i != j implies s2[i] != s2[j] by {
            if i < s.len() && j < s.len() {
            } else if i < s.len() {
                assert(s2[i] == s[i]);
            } else {
                assert(s2[j] == s[j]);
            }
        }
    } else {
        let k = s.index_of(x);
        let s3 = s.remove(k);
        assert(0 <= k < s.len() && s[k] == x);
        assert forall|i: int, j: int| 0 <= i < s3.len() && 0 <= j < s3.len() && i != j implies s3[i] != s3[j] by {
            let i2 = if i < k { i } else { i + 1 };
            let j2 = if j < k { j } else { j + 1 };
            assert(s3[i] == s[i2] && s3[j] == s[j2]);
        }
        assert(!s3.contains(x)) by {
            if s3.contains(x) {
                let i = choose|i: int| 0 <= i < s3.len() && s3[i] == x;
                let i2 = if i < k { i } else { i + 1 };
                assert(s[i2] == x);
            }
        }
        assert forall|y: Tc| y != x implies s3.contains(y) == s.contains(y) by {
            if s.contains(y) {
                let j = choose|j: int| 0 <= j < s.len() && s[j] == y;
                assert(j != k);
                let j2 = if j < k { j } else { j - 1 };
                assert(s3[j2] == y);
            }
            if s3.contains(y) {
                let j = choose|j: int| 0 <= j < s3.len() && s3[j] == y;
                let j2 = if j < k { j } else { j + 1 };
                assert(s[j2] == y);
            }
        }
    }
}

} // verus!
