//! Integers of any size, kept as a sign and a little-endian sequence of bits.
use std::cmp::Ordering;
use std::ops::{Add, Mul, Neg, Sub};
use vstd::arithmetic::power::pow;
use vstd::arithmetic::power2::*;
use vstd::prelude::*;
use vstd::std_specs::ops::{AddSpecImpl, MulSpecImpl, NegSpecImpl, SubSpecImpl};

verus! {

/// `i32::pow` gives the power when it fits in an `i32` (it panics on overflow
/// in debug builds, so the power must fit).
pub assume_specification[ i32::pow ](x: i32, exp: u32) -> (r: i32)
    requires
        i32::MIN <= pow(x as int, exp as nat) <= i32::MAX,
    ensures
        r == pow(x as int, exp as nat),
;

/// Bit `i` of `s`; the bits past the end are zero.
pub open spec fn bit(s: Seq<bool>, i: int) -> bool {
    0 <= i < s.len() && s[i]
}

/// The natural number written in binary by `s`, least significant bit first.
pub open spec fn valor_nat(s: Seq<bool>) -> nat
    decreases s.len(),
{
    if s.len() == 0 {
        0
    } else {
        valor_nat(s.drop_last()) + if s.last() {
            pow2((s.len() - 1) as nat)
        } else {
            0
        }
    }
}

/// `s` followed by zeros (or cut) up to length `n`.
pub open spec fn preenchido(s: Seq<bool>, n: nat) -> Seq<bool> {
    Seq::new(n, |i: int| bit(s, i))
}

/// Appending a bit adds its weight.
pub proof fn lema_valor_push(s: Seq<bool>, b: bool)
    ensures
        valor_nat(s.push(b)) == valor_nat(s) + if b {
            pow2(s.len())
        } else {
            0
        },
{
    assert(s.push(b).drop_last() =~= s);
}

/// A binary number of `n` bits is below `2^n`.
pub proof fn lema_valor_limite(s: Seq<bool>)
    ensures
        valor_nat(s) < pow2(s.len()),
    decreases s.len(),
{
    if s.len() == 0 {
        lemma2_to64();
    } else {
        lema_valor_limite(s.drop_last());
        lemma_pow2_unfold(s.len());
    }
}

/// The first `i + 1` bits are the first `i` bits and bit `i`.
pub proof fn lema_valor_prefixo(s: Seq<bool>, i: int)
    requires
        0 <= i < s.len(),
    ensures
        valor_nat(s.take(i + 1)) == valor_nat(s.take(i)) + if s[i] {
            pow2(i as nat)
        } else {
            0
        },
{
    assert(s.take(i + 1) =~= s.take(i).push(s[i]));
    lema_valor_push(s.take(i), s[i]);
}

/// Padding with zeros keeps the value.
pub proof fn lema_valor_preenchido(s: Seq<bool>, n: nat)
    requires
        s.len() <= n,
    ensures
        valor_nat(preenchido(s, n)) == valor_nat(s),
    decreases n,
{
    if n == s.len() {
        assert(preenchido(s, n) =~= s);
    } else {
        lema_valor_preenchido(s, (n - 1) as nat);
        assert(preenchido(s, n) =~= preenchido(s, (n - 1) as nat).push(false));
        lema_valor_push(preenchido(s, (n - 1) as nat), false);
    }
}

/// Two sequences of bits of the same length with the same value are equal:
/// the length and the value pin the bits down.
pub proof fn lema_representacao_unica(s: Seq<bool>, t: Seq<bool>)
    requires
        s.len() == t.len(),
        valor_nat(s) == valor_nat(t),
    ensures
        s == t,
    decreases s.len(),
{
    if s.len() > 0 {
        let n = (s.len() - 1) as nat;
        lema_valor_limite(s.drop_last());
        lema_valor_limite(t.drop_last());
        lema_representacao_unica(s.drop_last(), t.drop_last());
        assert(s =~= s.drop_last().push(s.last()));
        assert(t =~= t.drop_last().push(t.last()));
    } else {
        assert(s =~= t);
    }
}

/// If two binary numbers agree on every bit from `i` up and the first has bit
/// `i - 1`... more precisely: comparing the top differing bit decides the order.
pub proof fn lema_comparacao(s: Seq<bool>, t: Seq<bool>, n: nat, i: int)
    requires
        s.len() <= n,
        t.len() <= n,
        0 <= i < n,
        forall|j: int| i < j < n ==> bit(s, j) == bit(t, j),
        bit(s, i) && !bit(t, i),
    ensures
        valor_nat(s) > valor_nat(t),
    decreases n,
{
    let ps = preenchido(s, n);
    let pt = preenchido(t, n);
    lema_valor_preenchido(s, n);
    lema_valor_preenchido(t, n);
    lema_comparacao_fixo(ps, pt, i);
}

proof fn lema_comparacao_fixo(s: Seq<bool>, t: Seq<bool>, i: int)
    requires
        s.len() == t.len(),
        0 <= i < s.len(),
        forall|j: int| i < j < s.len() ==> s[j] == t[j],
        s[i] && !t[i],
    ensures
        valor_nat(s) > valor_nat(t),
    decreases s.len(),
{
    let n = s.len() - 1;
    lema_valor_push(s.drop_last(), s.last());
    lema_valor_push(t.drop_last(), t.last());
    assert(s.drop_last().push(s.last()) =~= s);
    assert(t.drop_last().push(t.last()) =~= t);
    if i == n {
        lema_valor_limite(t.drop_last());
    } else {
        lema_comparacao_fixo(s.drop_last(), t.drop_last(), i);
    }
}

/// Sequences that agree on every bit (within `n`) have the same value.
proof fn lema_mesmos_bits(s: Seq<bool>, t: Seq<bool>, n: nat)
    requires
        s.len() <= n,
        t.len() <= n,
        forall|j: int| 0 <= j < n ==> bit(s, j) == bit(t, j),
    ensures
        valor_nat(s) == valor_nat(t),
{
    lema_valor_preenchido(s, n);
    lema_valor_preenchido(t, n);
    assert(preenchido(s, n) =~= preenchido(t, n));
}

/// An integer of any size: a sign (`true` for non-negative) and the bits of
/// its absolute value, least significant first.
#[derive(Debug)]
pub struct Int {
    sinal: bool,
    num: Vec<bool>,
}

impl View for Int {
    type V = (bool, Seq<bool>);

    closed spec fn view(&self) -> (bool, Seq<bool>) {
        (self.sinal, self.num@)
    }
}

/// Absolute value of the integer written by `x`.
pub open spec fn modulo(x: (bool, Seq<bool>)) -> nat {
    valor_nat(x.1)
}

/// The integer written by `x`.
pub open spec fn valor(x: (bool, Seq<bool>)) -> int {
    if x.0 {
        modulo(x) as int
    } else {
        -(modulo(x) as int)
    }
}

/// Number of bits of the longer of the two.
pub open spec fn casas(a: (bool, Seq<bool>), b: (bool, Seq<bool>)) -> nat {
    if a.1.len() >= b.1.len() {
        a.1.len()
    } else {
        b.1.len()
    }
}

/// What `a + b` gives: the sign and the value of the bits, which are
/// `casas(a, b) + 1` long (none when the absolute values cancel).
///
/// When the signs differ, the result takes the sign of the operand that is
/// larger in absolute value, and the difference of the absolute values.
pub open spec fn soma(a: (bool, Seq<bool>), b: (bool, Seq<bool>), r: (bool, Seq<bool>)) -> bool {
    if a.0 == b.0 {
        &&& r.0 == a.0
        &&& r.1.len() == casas(a, b) + 1
        &&& modulo(r) == modulo(a) + modulo(b)
    } else if modulo(a) == modulo(b) {
        &&& r.0
        &&& r.1.len() == 0
    } else if modulo(a) < modulo(b) {
        &&& r.0 == b.0
        &&& r.1.len() == casas(a, b) + 1
        &&& modulo(r) == modulo(b) - modulo(a)
    } else {
        &&& r.0 == a.0
        &&& r.1.len() == casas(a, b) + 1
        &&& modulo(r) == modulo(a) - modulo(b)
    }
}

/// Copies `v` into a vector of length `n`, filling with zeros (`false`) when
/// `v` is shorter.
pub fn preenche_vetor(v: &Vec<bool>, n: usize) -> (u: Vec<bool>)
    ensures
        u@ == preenchido(v@, n as nat),
{
    let mut u = Vec::<bool>::new();
    let mut i: usize = 0;
    while i < n
        invariant
            0 <= i <= n,
            u@ == preenchido(v@, i as nat),
        decreases n - i,
    {
        if i < v.len() {
            u.push(v[i]);
        } else {
            u.push(false);
        }
        assert(u@ =~= preenchido(v@, (i + 1) as nat));
        i = i + 1;
    }
    u
}

/// The largest power of two not above `n`: returns `(k, 2^k)`. The powers
/// are computed in `u64`, so every `n > 0` is taken.
pub fn maior_pot_2(n: u32) -> (r: (u32, u32))
    requires
        0 < n,
    ensures
        r.1 == pow2(r.0 as nat),
        r.1 <= n < 2 * r.1,
{
    let mut k: u32 = 0;
    let mut pot: u64 = 1;
    proof {
        lemma2_to64();
    }
    while 2 * pot <= n as u64
        invariant
            0 <= k <= 31,
            pot == pow2(k as nat),
            pot <= n,
            n <= u32::MAX,
        decreases 32 - k,
    {
        proof {
            lemma_pow2_unfold((k + 1) as nat);
            lemma2_to64();
            if k >= 31 {
                lemma_pow2_strictly_increases(31, k as nat);
                assert(false);
            }
        }
        pot = 2 * pot;
        k = k + 1;
    }
    proof {
        lemma2_to64();
        if k == 32 {
            assert(false);
        }
    }
    (k, pot as u32)
}

/// Adds two binary numbers of the same length whose sum fits in that length,
/// bit by bit with a carry.
fn somar_bits(x: &Vec<bool>, y: &Vec<bool>) -> (soma: Vec<bool>)
    requires
        x@.len() == y@.len(),
        valor_nat(x@) + valor_nat(y@) < pow2(x@.len()),
    ensures
        soma@.len() == x@.len(),
        valor_nat(soma@) == valor_nat(x@) + valor_nat(y@),
{
    let n = x.len();
    let mut soma = Vec::<bool>::new();
    let mut excedente: i32 = 0;
    let mut i: usize = 0;
    proof {
        assert(x@.take(0) =~= Seq::<bool>::empty());
        assert(y@.take(0) =~= Seq::<bool>::empty());
    }
    while i < n
        invariant
            n == x@.len(),
            n == y@.len(),
            0 <= i <= n,
            soma@.len() == i,
            excedente == 0 || excedente == 1,
            valor_nat(soma@) + (if excedente == 1 {
                pow2(i as nat)
            } else {
                0
            }) == valor_nat(x@.take(i as int)) + valor_nat(y@.take(i as int)),
        decreases n - i,
    {
        let ghost s0 = soma@;
        let ghost e0 = excedente;
        match (x[i], y[i]) {
            (true, true) => {
                if excedente == 0 {
                    excedente += 1;
                    soma.push(false);
                } else {
                    soma.push(true);
                }
            },
            (true, false) | (false, true) => {
                if excedente == 0 {
                    soma.push(true)
                } else {
                    soma.push(false)
                }
            },
            (false, false) => {
                if excedente == 0 {
                    soma.push(false)
                } else {
                    excedente -= 1;
                    soma.push(true)
                }
            },
        }
        proof {
            lema_valor_prefixo(x@, i as int);
            lema_valor_prefixo(y@, i as int);
            lema_valor_push(s0, soma@.last());
            assert(soma@ =~= s0.push(soma@.last()));
            lemma_pow2_unfold((i + 1) as nat);
        }
        i = i + 1;
    }
    proof {
        assert(x@.take(n as int) =~= x@);
        assert(y@.take(n as int) =~= y@);
        lemma_pow2_pos(n as nat);
    }
    soma
}

/// Subtracts the smaller of two binary numbers of the same length from the
/// larger, bit by bit with a borrow.
fn subtrair_bits(x: &Vec<bool>, y: &Vec<bool>) -> (dif: Vec<bool>)
    requires
        x@.len() == y@.len(),
        valor_nat(x@) >= valor_nat(y@),
    ensures
        dif@.len() == x@.len(),
        valor_nat(dif@) == valor_nat(x@) - valor_nat(y@),
{
    let n = x.len();
    let mut soma = Vec::<bool>::new();
    let mut excedente: i32 = 0;
    let mut i: usize = 0;
    proof {
        assert(x@.take(0) =~= Seq::<bool>::empty());
        assert(y@.take(0) =~= Seq::<bool>::empty());
    }
    while i < n
        invariant
            n == x@.len(),
            n == y@.len(),
            0 <= i <= n,
            soma@.len() == i,
            excedente == 0 || excedente == -1,
            valor_nat(soma@) - (if excedente == -1 {
                pow2(i as nat)
            } else {
                0
            }) == valor_nat(x@.take(i as int)) - valor_nat(y@.take(i as int)),
        decreases n - i,
    {
        let ghost s0 = soma@;
        match (x[i], y[i]) {
            (true, true) | (false, false) => {
                if excedente == 0 {
                    soma.push(false)
                } else {
                    soma.push(true)
                }
            },
            (true, false) => {
                if excedente == 0 {
                    soma.push(true)
                } else {
                    excedente += 1;
                    soma.push(false)
                }
            },
            (false, true) => {
                if excedente == 0 {
                    excedente -= 1;
                    soma.push(true);
                } else {
                    soma.push(false)
                }
            },
        }
        proof {
            lema_valor_prefixo(x@, i as int);
            lema_valor_prefixo(y@, i as int);
            lema_valor_push(s0, soma@.last());
            assert(soma@ =~= s0.push(soma@.last()));
            lemma_pow2_unfold((i + 1) as nat);
        }
        i = i + 1;
    }
    proof {
        assert(x@.take(n as int) =~= x@);
        assert(y@.take(n as int) =~= y@);
        lema_valor_limite(soma@);
    }
    soma
}

/// The padded copies used by `add` keep the values, and the sum of two
/// numbers of at most `n` bits fits in `n + 1` bits.
proof fn lema_preparar_soma(a: Seq<bool>, b: Seq<bool>, n: usize)
    requires
        a.len() <= n,
        b.len() <= n,
        n < usize::MAX,
    ensures
        valor_nat(preenchido(a, (n + 1) as nat)) == valor_nat(a),
        valor_nat(preenchido(b, (n + 1) as nat)) == valor_nat(b),
        valor_nat(a) + valor_nat(b) < pow2((n + 1) as nat),
        preenchido(a, (n + 1) as nat).len() == n + 1,
{
    lema_valor_preenchido(a, (n + 1) as nat);
    lema_valor_preenchido(b, (n + 1) as nat);
    lema_valor_limite(a);
    lema_valor_limite(b);
    if a.len() < n {
        lemma_pow2_strictly_increases(a.len(), n as nat);
    }
    if b.len() < n {
        lemma_pow2_strictly_increases(b.len(), n as nat);
    }
    lemma_pow2_unfold((n + 1) as nat);
}

/// `lema_comparacao` with the indices of the comparison loop.
proof fn lema_comparacao_no_indice(s: Seq<bool>, t: Seq<bool>, n: usize, i: usize)
    requires
        s.len() <= n,
        t.len() <= n,
        i < n,
        forall|j: int| i < j < n ==> bit(s, j) == bit(t, j),
        bit(s, i as int) && !bit(t, i as int),
    ensures
        valor_nat(s) > valor_nat(t),
{
    lema_comparacao(s, t, n as nat, i as int);
}

/// `lema_mesmos_bits` with the length of the comparison loop.
proof fn lema_mesmos_bits_ate(s: Seq<bool>, t: Seq<bool>, n: usize)
    requires
        s.len() <= n,
        t.len() <= n,
        forall|j: int| 0 <= j < n ==> bit(s, j) == bit(t, j),
    ensures
        valor_nat(s) == valor_nat(t),
{
    lema_mesmos_bits(s, t, n as nat);
}

/// An `i32` can hold the integer when its bits above 30 are all zero.
proof fn lema_cabe_em_i32(s: Seq<bool>)
    requires
        forall|i: int| 0 <= i < s.len() && s[i] ==> i < 31,
    ensures
        valor_nat(s) < pow2(31),
{
    if s.len() <= 31 {
        lema_valor_limite(s);
        if s.len() < 31 {
            lemma_pow2_strictly_increases(s.len(), 31);
        }
    } else {
        let t = preenchido(s, 31);
        lema_mesmos_bits(s, t, s.len());
        lema_valor_limite(t);
    }
}

/// Reading one more bit of a natural number: the remainder modulo `2^(n+1)`
/// is the remainder modulo `2^n` plus bit `n`.
#[verifier::spinoff_prover]
proof fn lema_resto_bit(v: nat, n: nat)
    ensures
        v % pow2(n + 1) == v % pow2(n) + if v % pow2(n + 1) >= pow2(n) {
            pow2(n)
        } else {
            0
        },
        0 <= v % pow2(n + 1) < 2 * pow2(n),
{
    let vi = v as int;
    let m = pow2(n) as int;
    lemma_pow2_pos(n);
    lemma_pow2_unfold(n + 1);
    vstd::arithmetic::div_mod::lemma_mod_mod(vi, m, 2);
    let r = vi % (m * 2);
    assert(m * 2 == pow2(n + 1));
    assert(r % m == vi % m);
    vstd::arithmetic::div_mod::lemma_fundamental_div_mod(r, m);
    if r >= m {
        assert(r / m == 1) by {
            vstd::arithmetic::div_mod::lemma_div_pos_is_pos(r, m);
            if r / m >= 2 {
                vstd::arithmetic::mul::lemma_mul_inequality(2, r / m, m);
            }
            if r / m == 0 {
                assert(m * (r / m) == 0);
            }
        }
    } else {
        assert(r / m == 0) by {
            vstd::arithmetic::div_mod::lemma_basic_div(r, m);
        }
    }
}

impl Int {
    /// The absolute value.
    pub fn abs(&self) -> (r: Int)
        ensures
            r@ == (true, self@.1),
    {
        Int { sinal: true, num: preenche_vetor(&self.num, self.num.len()) }
    }

    /// Compares the absolute values of `self` and `other`.
    pub fn compara_valor_abs(&self, other: &Int) -> (r: Ordering)
        ensures
            r == (if modulo(self@) < modulo(other@) {
                Ordering::Less
            } else if modulo(self@) == modulo(other@) {
                Ordering::Equal
            } else {
                Ordering::Greater
            }),
    {
        let n = if self.num.len() >= other.num.len() {
            self.num.len()
        } else {
            other.num.len()
        };
        let mut i = n;
        while i > 0
            invariant
                0 <= i <= n,
                self.num@.len() <= n,
                other.num@.len() <= n,
                forall|j: int| i <= j < n ==> bit(self.num@, j) == bit(other.num@, j),
            decreases i,
        {
            i = i - 1;
            let a = i < self.num.len() && self.num[i];
            let b = i < other.num.len() && other.num[i];
            if a && !b {
                proof {
                    lema_comparacao_no_indice(self.num@, other.num@, n, i);
                }
                return Ordering::Greater;
            }
            if !a && b {
                proof {
                    lema_comparacao_no_indice(other.num@, self.num@, n, i);
                }
                return Ordering::Less;
            }
        }
        proof {
            lema_mesmos_bits_ate(self.num@, other.num@, n);
        }
        Ordering::Equal
    }
}

impl Int {
    /// Writes `value` in binary, with no leading zero bit.
    ///
    /// The absolute value and the powers of two are computed in `i64`, so
    /// every `i32` is taken, `i32::MIN` included.
    pub fn from(value: i32) -> (r: Int)
        ensures
            r@.0 == (value >= 0),
            valor(r@) == value,
            r@.1.len() == 0 || r@.1.last(),
    {
        let sinal: bool = value >= 0;
        let val: i64 = if value < 0 {
            -(value as i64)
        } else {
            value as i64
        };
        let mut num = Vec::<bool>::new();
        let mut n: u32 = 0;
        let mut pot: i64 = 1;
        proof {
            lemma2_to64();
        }
        while pot <= val
            invariant
                0 <= val <= 0x8000_0000,
                0 <= n <= 32,
                pot == pow2(n as nat),
                num@.len() == n,
                valor_nat(num@) == (val as nat) % pow2(n as nat),
                n > 0 ==> pow2((n - 1) as nat) <= val,
                n > 0 ==> num@.last() == ((val as nat) % pow2(n as nat) >= pow2((n - 1) as nat)),
            decreases 32 - n,
        {
            proof {
                lemma2_to64();
                if n >= 32 {
                    lemma_pow2_strictly_increases(31, n as nat);
                    assert(false);
                }
                lemma_pow2_unfold((n + 1) as nat);
            }
            let resto = val % (2 * pot);
            let bit: bool = resto >= pot;
            let ghost num0 = num@;
            num.push(bit);
            proof {
                lema_resto_bit(val as nat, n as nat);
                lema_valor_push(num0, bit);
            }
            n += 1;
            pot = 2 * pot;
        }
        proof {
            vstd::arithmetic::div_mod::lemma_small_mod(val as nat, pow2(n as nat));
            if n == 0 {
                assert(val == 0);
            }
        }
        Int { sinal, num }
    }

    /// The integer as an `i32`.
    ///
    /// Each set bit `i` adds `2^i` computed in `i32`: bits from 31 on are
    /// refused, since their power overflows.
    pub fn into(self) -> (r: i32)
        requires
            forall|i: int| 0 <= i < self@.1.len() && self@.1[i] ==> i < 31,
        ensures
            r == valor(self@),
    {
        let mut val: i32 = 0;
        let mut i: usize = 0;
        proof {
            assert(self.num@.take(0) =~= Seq::<bool>::empty());
            assert forall|j: int| 0 <= j < self.num@.len() && self.num@[j] implies j < 31 by {
                assert(self@.1[j] == self.num@[j]);
            }
            lema_cabe_em_i32(self.num@);
            lemma2_to64();
        }
        while i < self.num.len()
            invariant
                0 <= i <= self.num@.len(),
                forall|j: int| 0 <= j < self.num@.len() && self.num@[j] ==> j < 31,
                val == valor_nat(self.num@.take(i as int)),
                valor_nat(self.num@) < pow2(31),
            decreases self.num@.len() - i,
        {
            proof {
                lema_valor_prefixo(self.num@, i as int);
                let t = self.num@.take(i as int + 1);
                assert forall|j: int| 0 <= j < t.len() && t[j] implies j < 31 by {
                    assert(t[j] == self.num@[j]);
                }
                lema_cabe_em_i32(t);
                lemma2_to64();
            }
            if self.num[i] {
                proof {
                    lemma_pow2(i as nat);
                }
                val += 2i32.pow(i as u32);
            }
            i += 1;
        }
        proof {
            assert(self.num@.take(i as int) =~= self.num@);
        }
        if self.sinal {
            val
        } else {
            -val
        }
    }
}

impl Neg for Int {
    type Output = Self;

    fn neg(self) -> (r: Self::Output)
        ensures
            r@ == (!self@.0, self@.1),
    {
        Self { sinal: !self.sinal, num: self.num }
    }
}

impl NegSpecImpl for Int {
    open spec fn obeys_neg_spec() -> bool {
        true
    }

    open spec fn neg_req(self) -> bool {
        true
    }

    closed spec fn neg_spec(self) -> Self {
        Int { sinal: !self.sinal, num: self.num }
    }
}

impl Add for Int {
    type Output = Self;

    fn add(self, other: Self) -> (r: Self::Output)
        ensures
            soma(self@, other@, r@),
            valor(r@) == valor(self@) + valor(other@),
    {
        let n = if self.num.len() >= other.num.len() {
            self.num.len()
        } else {
            other.num.len()
        };
        proof {
            lema_preparar_soma(self.num@, other.num@, n);
        }
        if self.sinal == other.sinal {
            let x: Vec<bool> = preenche_vetor(&self.num, n + 1);
            let y: Vec<bool> = preenche_vetor(&other.num, n + 1);
            let soma = somar_bits(&x, &y);
            Int { sinal: self.sinal, num: soma }
        } else {
            let (x, y, sinal) = match self.compara_valor_abs(&other) {
                Ordering::Less => {
                    let x: Vec<bool> = preenche_vetor(&other.num, n + 1);
                    let y: Vec<bool> = preenche_vetor(&self.num, n + 1);
                    let sinal = other.sinal;
                    (x, y, sinal)
                },
                Ordering::Equal => { return Int { sinal: true, num: Vec::<bool>::new() } },
                Ordering::Greater => {
                    let x: Vec<bool> = preenche_vetor(&self.num, n + 1);
                    let y: Vec<bool> = preenche_vetor(&other.num, n + 1);
                    let sinal = self.sinal;
                    (x, y, sinal)
                },
            };
            let soma = subtrair_bits(&x, &y);
            Int { sinal: sinal, num: soma }
        }
    }
}

impl AddSpecImpl for Int {
    /// The result is pinned down by the `ensures` of `add` (through `soma`),
    /// not by a spec value.
    open spec fn obeys_add_spec() -> bool {
        false
    }

    /// The operands' bit counts plus one must fit in a `usize`.
    open spec fn add_req(self, rhs: Int) -> bool {
        self@.1.len() < usize::MAX && rhs@.1.len() < usize::MAX
    }

    open spec fn add_spec(self, rhs: Int) -> Self {
        arbitrary()
    }
}

impl Sub for Int {
    type Output = Self;

    fn sub(self, other: Self) -> (r: Self::Output)
        ensures
            soma(self@, (!other@.0, other@.1), r@),
            valor(r@) == valor(self@) - valor(other@),
    {
        self + other.neg()
    }
}

impl SubSpecImpl for Int {
    /// The result is pinned down by the `ensures` of `sub`.
    open spec fn obeys_sub_spec() -> bool {
        false
    }

    open spec fn sub_req(self, rhs: Int) -> bool {
        self@.1.len() < usize::MAX && rhs@.1.len() < usize::MAX
    }

    open spec fn sub_spec(self, rhs: Int) -> Self {
        arbitrary()
    }
}

/// What `a * b` gives: the sign is positive when the signs agree, the bits
/// are `a.1.len() + b.1.len()` long and hold the product of the absolute
/// values.
pub open spec fn produto(a: (bool, Seq<bool>), b: (bool, Seq<bool>), r: (bool, Seq<bool>)) -> bool {
    &&& r.0 == (a.0 == b.0)
    &&& r.1.len() == a.1.len() + b.1.len()
    &&& modulo(r) == modulo(a) * modulo(b)
}

/// A zero bit in front doubles a binary number.
proof fn lema_valor_dobro(s: Seq<bool>)
    ensures
        valor_nat(seq![false] + s) == 2 * valor_nat(s),
    decreases s.len(),
{
    if s.len() == 0 {
        assert(seq![false] + s =~= seq![false]);
        assert(seq![false].drop_last() =~= Seq::<bool>::empty());
        assert(valor_nat(seq![false]) == valor_nat(Seq::<bool>::empty()));
    } else {
        let t = s.drop_last();
        lema_valor_dobro(t);
        assert(seq![false] + s =~= (seq![false] + t).push(s.last()));
        assert(s =~= t.push(s.last()));
        lema_valor_push(seq![false] + t, s.last());
        lema_valor_push(t, s.last());
        lemma_pow2_unfold(s.len());
    }
}

/// `v` with a zero bit in front: twice the number.
fn dobrar(v: &Vec<bool>) -> (r: Vec<bool>)
    requires
        v@.len() < usize::MAX,
    ensures
        r@ == seq![false] + v@,
        valor_nat(r@) == 2 * valor_nat(v@),
{
    let mut r: Vec<bool> = Vec::new();
    r.push(false);
    let mut i: usize = 0;
    while i < v.len()
        invariant
            0 <= i <= v@.len(),
            r@ == seq![false] + v@.take(i as int),
        decreases v@.len() - i,
    {
        r.push(v[i]);
        proof {
            assert(v@.take(i + 1) =~= v@.take(i as int).push(v@[i as int]));
            assert(seq![false] + v@.take(i + 1) =~= (seq![false] + v@.take(i as int)).push(v@[i as int]));
        }
        i = i + 1;
    }
    proof {
        assert(v@.take(i as int) =~= v@);
        lema_valor_dobro(v@);
    }
    r
}

/// The sum of a product so far and the next shifted copy of the first factor
/// fits in the bits of the result.
proof fn lema_cabe_no_produto(a: Seq<bool>, b: Seq<bool>, i: int)
    requires
        0 <= i < b.len(),
    ensures
        valor_nat(a) * valor_nat(b.take(i + 1)) < pow2((a.len() + b.len()) as nat),
        valor_nat(a) * valor_nat(b.take(i + 1)) == valor_nat(a) * valor_nat(b.take(i)) + (if b[i] {
            valor_nat(a) * pow2(i as nat)
        } else {
            0
        }),
{
    let x = valor_nat(a) as int;
    let y = valor_nat(b.take(i + 1)) as int;
    let xb = pow2(a.len()) as int;
    let yb = pow2((i + 1) as nat) as int;
    lema_valor_limite(a);
    lema_valor_limite(b.take(i + 1));
    assert(x * y < xb * yb) by (nonlinear_arith)
        requires
            0 <= x < xb,
            0 <= y < yb,
    ;
    lemma_pow2_adds(a.len(), (i + 1) as nat);
    if i + 1 < b.len() {
        lemma_pow2_strictly_increases((a.len() + i + 1) as nat, (a.len() + b.len()) as nat);
    }
    lema_valor_prefixo(b, i);
    let z = valor_nat(b.take(i)) as int;
    let w = if b[i] {
        pow2(i as nat) as int
    } else {
        0int
    };
    assert(x * (z + w) == x * z + x * w) by (nonlinear_arith);
}

/// The value of a product is the product of the values, whatever the signs.
proof fn lema_sinal_produto(a: (bool, Seq<bool>), b: (bool, Seq<bool>), r: (bool, Seq<bool>))
    requires
        produto(a, b, r),
    ensures
        valor(r) == valor(a) * valor(b),
{
    let x = modulo(a) as int;
    let y = modulo(b) as int;
    assert((-x) * y == -(x * y) && x * (-y) == -(x * y) && (-x) * (-y) == x * y) by (nonlinear_arith);
}

impl Mul for Int {
    type Output = Self;

    /// Multiplies by adding, for each set bit `i` of `other`, the absolute
    /// value of `self` shifted by `i` bits.
    fn mul(self, other: Self) -> (r: Self::Output)
        ensures
            produto(self@, other@, r@),
            valor(r@) == valor(self@) * valor(other@),
    {
        let la = self.num.len();
        let lb = other.num.len();
        let n = la + lb;
        let ghost a = self.num@;
        let ghost b = other.num@;
        let vazio: Vec<bool> = Vec::new();
        let mut acumulado = preenche_vetor(&vazio, n);
        let mut parcela = preenche_vetor(&self.num, la);
        proof {
            lema_valor_preenchido(vazio@, n as nat);
            assert(vazio@ =~= Seq::<bool>::empty());
            assert(preenchido(a, la as nat) =~= a);
            assert(b.take(0) =~= Seq::<bool>::empty());
            lemma2_to64();
        }
        let mut i: usize = 0;
        while i < lb
            invariant
                la == a.len(),
                lb == b.len(),
                n == la + lb,
                b == other.num@,
                0 <= i <= lb,
                acumulado@.len() == n,
                parcela@.len() == la + i,
                valor_nat(acumulado@) == valor_nat(a) * valor_nat(b.take(i as int)),
                valor_nat(parcela@) == valor_nat(a) * pow2(i as nat),
            decreases lb - i,
        {
            proof {
                lema_cabe_no_produto(a, b, i as int);
            }
            if other.num[i] {
                let x = preenche_vetor(&parcela, n);
                proof {
                    lema_valor_preenchido(parcela@, n as nat);
                }
                acumulado = somar_bits(&acumulado, &x);
            }
            parcela = dobrar(&parcela);
            proof {
                lemma_pow2_unfold((i + 1) as nat);
                let va = valor_nat(a) as int;
                let pi = pow2(i as nat) as int;
                assert(2 * (va * pi) == va * (2 * pi)) by (nonlinear_arith);
            }
            i = i + 1;
        }
        proof {
            assert(b.take(lb as int) =~= b);
        }
        let r = Int { sinal: self.sinal == other.sinal, num: acumulado };
        proof {
            lema_sinal_produto(self@, other@, r@);
        }
        r
    }
}

impl MulSpecImpl for Int {
    /// The result is pinned down by the `ensures` of `mul` (through
    /// `produto`), not by a spec value.
    open spec fn obeys_mul_spec() -> bool {
        false
    }

    /// The bits of the product, as many as those of both factors, must fit
    /// in a `usize`.
    open spec fn mul_req(self, rhs: Int) -> bool {
        self@.1.len() + rhs@.1.len() <= usize::MAX
    }

    open spec fn mul_spec(self, rhs: Int) -> Self {
        arbitrary()
    }
}

/// Adding two integers gives an integer whose value is the sum of theirs.
pub proof fn lei_soma(a: (bool, Seq<bool>), b: (bool, Seq<bool>), r: (bool, Seq<bool>))
    requires
        soma(a, b, r),
    ensures
        valor(r) == valor(a) + valor(b),
{
}

/// Addition is commutative: `a + b` and `b + a` are the same integer, bit
/// for bit.
pub proof fn lei_soma_comutativa(
    a: (bool, Seq<bool>),
    b: (bool, Seq<bool>),
    r1: (bool, Seq<bool>),
    r2: (bool, Seq<bool>),
)
    requires
        soma(a, b, r1),
        soma(b, a, r2),
    ensures
        valor(r1) == valor(r2),
        r1 == r2,
{
    if r1.1.len() == r2.1.len() && modulo(r1) == modulo(r2) {
        lema_representacao_unica(r1.1, r2.1);
    }
}

/// Subtracting is adding the integer with the opposite sign: the value of
/// `a - b` is `valor(a) - valor(b)`.
pub proof fn lei_subtracao(a: (bool, Seq<bool>), b: (bool, Seq<bool>), r: (bool, Seq<bool>))
    requires
        soma(a, (!b.0, b.1), r),
    ensures
        valor(r) == valor(a) - valor(b),
{
}

/// Multiplying two integers gives an integer whose value is the product of
/// theirs.
pub proof fn lei_produto(a: (bool, Seq<bool>), b: (bool, Seq<bool>), r: (bool, Seq<bool>))
    requires
        produto(a, b, r),
    ensures
        valor(r) == valor(a) * valor(b),
{
    lema_sinal_produto(a, b, r);
}

/// Multiplication is commutative: `a * b` and `b * a` are the same integer,
/// bit for bit.
pub proof fn lei_produto_comutativo(
    a: (bool, Seq<bool>),
    b: (bool, Seq<bool>),
    r1: (bool, Seq<bool>),
    r2: (bool, Seq<bool>),
)
    requires
        produto(a, b, r1),
        produto(b, a, r2),
    ensures
        valor(r1) == valor(r2),
        r1 == r2,
{
    let x = modulo(a) as int;
    let y = modulo(b) as int;
    assert(x * y == y * x) by (nonlinear_arith);
    lema_representacao_unica(r1.1, r2.1);
    lema_sinal_produto(a, b, r1);
    lema_sinal_produto(b, a, r2);
}

/// Negating twice gives back the integer.
pub proof fn lei_negacao_dupla(a: (bool, Seq<bool>))
    ensures
        (!(!a.0), a.1) == a,
        valor((!a.0, a.1)) == -valor(a),
{
}

/// An integer made from an `i32` other than `i32::MIN` (its highest bit
/// set, or no bit at all) converts back: it has no bit at position 31 or
/// above, so `into` takes it, and its value is the `i32` it was made from.
pub proof fn lei_conversao(x: (bool, Seq<bool>), v: int)
    requires
        -0x8000_0000 < v < 0x8000_0000,
        valor(x) == v,
        x.1.len() == 0 || x.1.last(),
    ensures
        forall|i: int| 0 <= i < x.1.len() && x.1[i] ==> i < 31,
{
    if x.1.len() > 0 {
        let l = (x.1.len() - 1) as nat;
        assert(x.1.drop_last().len() == l);
        assert(valor_nat(x.1) >= pow2(l));
        lemma2_to64();
        if l > 31 {
            lemma_pow2_strictly_increases(31, l);
        }
    }
}

} // verus!
