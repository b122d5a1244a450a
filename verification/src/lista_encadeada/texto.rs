//! The text of a list: its characters one after the other, or its numbers in
//! decimal, each followed by a comma.
use vstd::prelude::*;
use crate::lista_encadeada::{ListaDupla, ListaEncadeada};

verus! {

/// `String::push` appends the character at the end of the string.
pub assume_specification[ String::push ](s: &mut String, ch: char)
    ensures
        final(s)@ == old(s)@.push(ch),
;

/// The decimal digit for `d` (from 0 to 9).
pub open spec fn algarismo(d: int) -> char {
    seq!['0', '1', '2', '3', '4', '5', '6', '7', '8', '9'][d]
}

/// The decimal digits of `n`, most significant first, with no leading zero.
pub open spec fn decimal_natural(n: nat) -> Seq<char>
    decreases n,
{
    if n < 10 {
        seq![algarismo(n as int)]
    } else {
        decimal_natural(n / 10).push(algarismo((n % 10) as int))
    }
}

/// `n` written in decimal, with a minus sign when it is negative.
pub open spec fn decimal(n: int) -> Seq<char> {
    if n < 0 {
        seq!['-'] + decimal_natural((-n) as nat)
    } else {
        decimal_natural(n as nat)
    }
}

/// The numbers of `s` in decimal, each followed by a comma.
pub open spec fn numeros_com_virgulas(s: Seq<i32>) -> Seq<char>
    decreases s.len(),
{
    if s.len() == 0 {
        Seq::empty()
    } else {
        numeros_com_virgulas(s.drop_last()) + decimal(s.last() as int).push(',')
    }
}

/// Appends the decimal digits of `n` to `s`.
fn escrever_natural(s: &mut String, n: u64)
    ensures
        final(s)@ == old(s)@ + decimal_natural(n as nat),
    decreases n,
{
    let algarismos: [char; 10] = ['0', '1', '2', '3', '4', '5', '6', '7', '8', '9'];
    proof {
        assert(algarismos@ =~= seq!['0', '1', '2', '3', '4', '5', '6', '7', '8', '9']);
    }
    if n >= 10 {
        escrever_natural(s, n / 10);
    }
    s.push(algarismos[(n % 10) as usize]);
    proof {
        assert(s@ =~= old(s)@ + decimal_natural(n as nat));
    }
}

/// Appends `n` in decimal to `s`, with a minus sign when it is negative.
fn escrever_inteiro(s: &mut String, n: i32)
    ensures
        final(s)@ == old(s)@ + decimal(n as int),
{
    if n < 0 {
        s.push('-');
        let m: i64 = -(n as i64);
        escrever_natural(s, m as u64);
        proof {
            assert(s@ =~= old(s)@ + decimal(n as int));
        }
    } else {
        escrever_natural(s, n as u64);
    }
}

/// The characters of `v` one after the other, as a string.
fn texto_de_caracteres(v: &Vec<char>) -> (r: String)
    ensures
        r@ == v@,
{
    let mut r = String::new();
    let mut i: usize = 0;
    while i < v.len()
        invariant
            0 <= i <= v@.len(),
            r@ == v@.take(i as int),
        decreases v@.len() - i,
    {
        r.push(v[i]);
        proof {
            assert(v@.take(i + 1) =~= v@.take(i as int).push(v@[i as int]));
        }
        i = i + 1;
    }
    proof {
        assert(v@.take(i as int) =~= v@);
    }
    r
}

/// The numbers of `v` in decimal, each followed by a comma, as a string.
fn texto_de_numeros(v: &Vec<i32>) -> (r: String)
    ensures
        r@ == numeros_com_virgulas(v@),
{
    let mut r = String::new();
    let mut i: usize = 0;
    proof {
        assert(v@.take(0) =~= Seq::<i32>::empty());
    }
    while i < v.len()
        invariant
            0 <= i <= v@.len(),
            r@ == numeros_com_virgulas(v@.take(i as int)),
        decreases v@.len() - i,
    {
        let ghost antes = r@;
        escrever_inteiro(&mut r, v[i]);
        r.push(',');
        proof {
            assert(v@.take(i + 1).drop_last() =~= v@.take(i as int));
            assert(r@ =~= antes + decimal(v@[i as int] as int).push(','));
        }
        i = i + 1;
    }
    proof {
        assert(v@.take(i as int) =~= v@);
    }
    r
}

impl ListaEncadeada<char> {
    /// The text of the list: its characters from the head to the tail.
    pub fn texto(&self) -> (r: String)
        requires
            self.wf(),
        ensures
            r@ == self@,
    {
        texto_de_caracteres(&self.elementos())
    }
}

impl ListaDupla<char> {
    /// The text of the list: its characters from the head to the tail.
    pub fn texto(&self) -> (r: String)
        requires
            self.wf(),
        ensures
            r@ == self@,
    {
        texto_de_caracteres(&self.elementos())
    }
}

impl ListaEncadeada<i32> {
    /// The text of the list: its numbers from the head to the tail in
    /// decimal, each followed by a comma.
    pub fn texto_numeros(&self) -> (r: String)
        requires
            self.wf(),
        ensures
            r@ == numeros_com_virgulas(self@),
    {
        texto_de_numeros(&self.elementos())
    }
}

impl ListaDupla<i32> {
    /// The text of the list: its numbers from the head to the tail in
    /// decimal, each followed by a comma.
    pub fn texto_numeros(&self) -> (r: String)
        requires
            self.wf(),
        ensures
            r@ == numeros_com_virgulas(self@),
    {
        texto_de_numeros(&self.elementos())
    }
}

} // verus!
