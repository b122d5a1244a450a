//! Bootstrap percolation on a square board: an infected cell stays infected,
//! and a clean cell gets infected when, for some set of the update family,
//! every cell at the offsets of that set is infected.
use vstd::prelude::*;
use ndarray::{Array2, ShapeError};

pub mod dois_vizinhos;
pub mod expansao;

verus! {

/// The error of `ndarray` when an array cannot take a shape; nothing of what
/// it holds is read here.
#[verifier::external_type_specification]
#[verifier::external_body]
pub struct ExShapeError(ShapeError);

/// A board of cells, infected (`true`) or not, held in an `ndarray::Array2`.
/// Nothing inside is seen by the proofs: what a board holds is named by
/// `celulas_tabuleiro` and `forma_tabuleiro`, and the functions below that
/// call ndarray state what each call does to them.
#[verifier::external_body]
pub struct Tabuleiro {
    grade: Array2<bool>,
}

/// The cells of a board, by (row, column).
pub uninterp spec fn celulas_tabuleiro(t: Tabuleiro) -> Map<(int, int), bool>;

/// The shape of a board: (rows, columns).
pub uninterp spec fn forma_tabuleiro(t: Tabuleiro) -> (int, int);

/// Errors of the board operations.
#[derive(Debug, PartialEq, Eq, Structural)]
pub enum ErroBootstrap {
    /// The rows or columns asked for are not a nonempty range within the board.
    ForaDosLimites,
    /// The cells given do not fill the shape asked for.
    FormaIncompativel,
}

/// The product of the nonzero lengths among `n1` and `n2`.
pub open spec fn produto_nao_nulo(n1: int, n2: int) -> int {
    (if n1 == 0 {
        1
    } else {
        n1
    }) * (if n2 == 0 {
        1
    } else {
        n2
    })
}

impl Tabuleiro {
    /// Rows of the board.
    pub open spec fn linhas(&self) -> int {
        forma_tabuleiro(*self).0
    }

    /// Columns of the board.
    pub open spec fn colunas(&self) -> int {
        forma_tabuleiro(*self).1
    }

    /// The cell at row `i`, column `j`.
    pub open spec fn celula(&self, i: int, j: int) -> bool {
        celulas_tabuleiro(*self)[(i, j)]
    }

    /// The cells, as a function of (row, column).
    pub open spec fn celulas(&self) -> spec_fn(int, int) -> bool {
        |i: int, j: int| self.celula(i, j)
    }

    /// `ArrayBase::dim`: the shape of the board. Every array of ndarray keeps
    /// the product of its nonzero axis lengths within `isize::MAX`.
    #[verifier::external_body]
    fn forma(&self) -> (r: (usize, usize))
        ensures
            r.0 == forma_tabuleiro(*self).0,
            r.1 == forma_tabuleiro(*self).1,
            r.0 <= isize::MAX,
            r.1 <= isize::MAX,
            r.0 * r.1 <= isize::MAX,
    {
        self.grade.dim()
    }

    /// `Index` of `ArrayBase` at `[i, j]`: the cell at row `i`, column `j`
    /// (out of the shape, the index panics).
    #[verifier::external_body]
    fn ler(&self, i: usize, j: usize) -> (r: bool)
        requires
            i < forma_tabuleiro(*self).0,
            j < forma_tabuleiro(*self).1,
        ensures
            r == celulas_tabuleiro(*self)[(i as int, j as int)],
    {
        self.grade[[i, j]]
    }

    /// `IndexMut` of `ArrayBase` at `[i, j]`: sets the cell at row `i`,
    /// column `j` to `valor`; the others and the shape stay.
    #[verifier::external_body]
    fn escrever(&mut self, i: usize, j: usize, valor: bool)
        requires
            i < forma_tabuleiro(*old(self)).0,
            j < forma_tabuleiro(*old(self)).1,
        ensures
            forma_tabuleiro(*final(self)) == forma_tabuleiro(*old(self)),
            celulas_tabuleiro(*final(self)) == celulas_tabuleiro(*old(self)).insert(
                (i as int, j as int),
                valor,
            ),
    {
        self.grade[[i, j]] = valor;
    }

    /// `ArrayBase::from_shape_vec` with the shape `(n1, n2)`: a board whose
    /// cells are `v` row after row. It fails when `v` does not have `n1 * n2`
    /// cells or when the product of the nonzero lengths passes `isize::MAX`.
    #[verifier::external_body]
    fn de_vec_ndarray(n1: usize, n2: usize, v: Vec<bool>) -> (r: Result<Tabuleiro, ShapeError>)
        ensures
            r is Ok <==> (n1 * n2 == v@.len() && produto_nao_nulo(n1 as int, n2 as int)
                <= isize::MAX),
            r is Ok ==> forma_tabuleiro(r->Ok_0) == (n1 as int, n2 as int),
            r is Ok ==> forall|i: int, j: int|
                0 <= i < n1 && 0 <= j < n2 ==> #[trigger] celulas_tabuleiro(r->Ok_0)[(i, j)]
                    == v@[i * n2 + j],
    {
        match Array2::from_shape_vec((n1, n2), v) {
            Ok(grade) => Ok(Tabuleiro { grade }),
            Err(e) => Err(e),
        }
    }

    /// `Clone` of `ArrayBase`: a board with the same shape and cells.
    #[verifier::external_body]
    fn copiar(&self) -> (r: Tabuleiro)
        ensures
            forma_tabuleiro(r) == forma_tabuleiro(*self),
            celulas_tabuleiro(r) == celulas_tabuleiro(*self),
    {
        Tabuleiro { grade: self.grade.clone() }
    }
}

/// The sets of offsets of an update family: a clean cell `y` gets infected
/// when, for some set `X` of the family, every cell of `y + X` is infected.
pub struct FamiliaUpdate {
    pub v: Vec<Vec<[i32; 2]>>,
}

impl FamiliaUpdate {
    /// The sets of offsets.
    pub open spec fn conjuntos(&self) -> Seq<Seq<[i32; 2]>> {
        self.v@.map_values(|c: Vec<[i32; 2]>| c@)
    }
}

/// The cell at row `x`, column `y` is on an `n1` by `n2` board whose cells
/// are `c`, and it is infected.
pub open spec fn infectada(c: spec_fn(int, int) -> bool, n1: int, n2: int, x: int, y: int) -> bool {
    0 <= x < n1 && 0 <= y < n2 && c(x, y)
}

/// Every cell at an offset of `s` from (`i`, `j`) is infected.
pub open spec fn conjunto_infectado(
    c: spec_fn(int, int) -> bool,
    n1: int,
    n2: int,
    s: Seq<[i32; 2]>,
    i: int,
    j: int,
) -> bool {
    forall|k: int| 0 <= k < s.len() ==> infectada(c, n1, n2, i + (#[trigger] s[k])[0], j + s[k][1])
}

/// The infection reaches the cell (`i`, `j`) through some set of `fam`.
pub open spec fn propaga(
    c: spec_fn(int, int) -> bool,
    n1: int,
    n2: int,
    fam: Seq<Seq<[i32; 2]>>,
    i: int,
    j: int,
) -> bool {
    exists|k: int| 0 <= k < fam.len() && #[trigger] conjunto_infectado(c, n1, n2, fam[k], i, j)
}

/// The state of the cell (`i`, `j`) after one step.
pub open spec fn proximo_estado(
    c: spec_fn(int, int) -> bool,
    n1: int,
    n2: int,
    fam: Seq<Seq<[i32; 2]>>,
    i: int,
    j: int,
) -> bool {
    c(i, j) || propaga(c, n1, n2, fam, i, j)
}

/// The cells after one step.
pub open spec fn passo(
    c: spec_fn(int, int) -> bool,
    n1: int,
    n2: int,
    fam: Seq<Seq<[i32; 2]>>,
) -> spec_fn(int, int) -> bool {
    |i: int, j: int| proximo_estado(c, n1, n2, fam, i, j)
}

/// The cells after `k` steps.
pub open spec fn iterar(
    c: spec_fn(int, int) -> bool,
    n1: int,
    n2: int,
    fam: Seq<Seq<[i32; 2]>>,
    k: nat,
) -> spec_fn(int, int) -> bool
    decreases k,
{
    if k == 0 {
        c
    } else {
        passo(iterar(c, n1, n2, fam, (k - 1) as nat), n1, n2, fam)
    }
}

/// No cell of rows `i1..i2`, columns `j1..j2` changes in one step.
pub open spec fn estavel(
    c: spec_fn(int, int) -> bool,
    n1: int,
    n2: int,
    fam: Seq<Seq<[i32; 2]>>,
    i1: int,
    i2: int,
    j1: int,
    j2: int,
) -> bool {
    forall|i: int, j: int|
        i1 <= i < i2 && j1 <= j < j2 ==> #[trigger] proximo_estado(c, n1, n2, fam, i, j) == c(i, j)
}

/// `c1` and `c2` agree on rows `0..n1`, columns `0..n2`.
pub open spec fn iguais_em(c1: spec_fn(int, int) -> bool, c2: spec_fn(int, int) -> bool, n1: int, n2: int) -> bool {
    forall|i: int, j: int| 0 <= i < n1 && 0 <= j < n2 ==> #[trigger] c1(i, j) == c2(i, j)
}

/// `sub` holds the cells of rows `i1..i2`, columns `j1..j2` of `t` after one step.
pub open spec fn sub_passo(
    t: Tabuleiro,
    fam: Seq<Seq<[i32; 2]>>,
    i1: int,
    i2: int,
    j1: int,
    j2: int,
    sub: Tabuleiro,
) -> bool {
    &&& sub.linhas() == i2 - i1
    &&& sub.colunas() == j2 - j1
    &&& forall|i: int, j: int|
        i1 <= i < i2 && j1 <= j < j2 ==> #[trigger] sub.celula(i - i1, j - j1) == proximo_estado(
            t.celulas(),
            t.linhas(),
            t.colunas(),
            fam,
            i,
            j,
        )
}

/// Whether the infection reaches the clean cell (`i`, `j`) in one step.
fn checar_propagacao(tabuleiro: &Tabuleiro, fam_update: &FamiliaUpdate, i: usize, j: usize) -> (r:
    bool)
    requires
        i < tabuleiro.linhas(),
        j < tabuleiro.colunas(),
    ensures
        r == propaga(
            tabuleiro.celulas(),
            tabuleiro.linhas(),
            tabuleiro.colunas(),
            fam_update.conjuntos(),
            i as int,
            j as int,
        ),
{
    let (n1, n2) = tabuleiro.forma();
    let ghost fam = fam_update.conjuntos();
    let ghost ce = tabuleiro.celulas();
    let mut c: usize = 0;
    while c < fam_update.v.len()
        invariant
            0 <= c <= fam.len(),
            fam == fam_update.conjuntos(),
            fam.len() == fam_update.v@.len(),
            ce == tabuleiro.celulas(),
            n1 == tabuleiro.linhas(),
            n2 == tabuleiro.colunas(),
            n1 <= isize::MAX,
            n2 <= isize::MAX,
            i < n1,
            j < n2,
            forall|k: int|
                0 <= k < c ==> !conjunto_infectado(
                    ce,
                    n1 as int,
                    n2 as int,
                    #[trigger] fam[k],
                    i as int,
                    j as int,
                ),
        decreases fam_update.v@.len() - c,
    {
        let conjunto = &fam_update.v[c];
        let ghost cs = conjunto@;
        assert(cs == fam[c as int]);
        let mut infectado = true;
        let mut m: usize = 0;
        while m < conjunto.len() && infectado
            invariant
                0 <= m <= cs.len(),
                cs == conjunto@,
                ce == tabuleiro.celulas(),
                n1 == tabuleiro.linhas(),
                n2 == tabuleiro.colunas(),
                n1 <= isize::MAX,
                n2 <= isize::MAX,
                i < n1,
                j < n2,
                forall|k: int|
                    0 <= k < m ==> infectada(
                        ce,
                        n1 as int,
                        n2 as int,
                        i + (#[trigger] cs[k])[0],
                        j + cs[k][1],
                    ),
                !infectado ==> m < cs.len() && !infectada(
                    ce,
                    n1 as int,
                    n2 as int,
                    i + cs[m as int][0],
                    j + cs[m as int][1],
                ),
            decreases cs.len() - m + (if infectado {
                1int
            } else {
                0int
            }),
        {
            let elemento = conjunto[m];
            let x: i128 = elemento[0] as i128 + i as i128;
            let y: i128 = elemento[1] as i128 + j as i128;
            if 0 <= x && x < n1 as i128 && 0 <= y && y < n2 as i128 {
                if !tabuleiro.ler(x as usize, y as usize) {
                    infectado = false;
                } else {
                    m = m + 1;
                }
            } else {
                infectado = false;
            }
        }
        if infectado {
            proof {
                assert(conjunto_infectado(ce, n1 as int, n2 as int, fam[c as int], i as int, j as int));
            }
            return true;
        }
        proof {
            assert(!conjunto_infectado(ce, n1 as int, n2 as int, fam[c as int], i as int, j as int))
                by {
                assert(cs[m as int] == cs[m as int]);
            }
        }
        c = c + 1;
    }
    false
}

/// Cell `a * w + b` of a sequence read row after row, `w` cells a row, lies
/// before the end of the first `h` rows.
proof fn lema_indice(a: int, b: int, w: int, h: int)
    requires
        0 <= a < h,
        0 <= b < w,
    ensures
        0 <= a * w + b < h * w,
        a * w + b < (a + 1) * w,
        (a + 1) * w <= h * w,
{
    assert(0 <= a * w + b < h * w) by (nonlinear_arith)
        requires
            0 <= a < h,
            0 <= b < w,
    ;
    assert(a * w + b < (a + 1) * w) by (nonlinear_arith)
        requires
            0 <= b < w,
    ;
    assert((a + 1) * w <= h * w) by (nonlinear_arith)
        requires
            0 <= a < h,
            0 <= w,
    ;
}

/// One step of the process on rows `i1..i2`, columns `j1..j2` of the board:
/// the new cells of that part, and whether none of them changed. Fails with
/// `ForaDosLimites` unless `i1 < i2 <= n` and `j1 < j2 <= n`.
pub fn passo_sub(
    n: usize,
    tabuleiro: &Tabuleiro,
    familia_update: &FamiliaUpdate,
    i1: usize,
    i2: usize,
    j1: usize,
    j2: usize,
) -> (r: Result<(Tabuleiro, bool), ErroBootstrap>)
    requires
        (i1 < i2 <= n && j1 < j2 <= n) ==> i2 <= tabuleiro.linhas() && j2 <= tabuleiro.colunas(),
    ensures
        !(i1 < i2 <= n && j1 < j2 <= n) ==> r == Err::<(Tabuleiro, bool), ErroBootstrap>(
            ErroBootstrap::ForaDosLimites,
        ),
        (i1 < i2 <= n && j1 < j2 <= n) ==> r is Ok,
        r is Ok ==> sub_passo(
            *tabuleiro,
            familia_update.conjuntos(),
            i1 as int,
            i2 as int,
            j1 as int,
            j2 as int,
            r->Ok_0.0,
        ),
        r is Ok ==> (r->Ok_0.1 <==> estavel(
            tabuleiro.celulas(),
            tabuleiro.linhas(),
            tabuleiro.colunas(),
            familia_update.conjuntos(),
            i1 as int,
            i2 as int,
            j1 as int,
            j2 as int,
        )),
{
    if !(i1 < i2 && i2 <= n) || !(j1 < j2 && j2 <= n) {
        return Err(ErroBootstrap::ForaDosLimites);
    }
    let ghost t = *tabuleiro;
    let ghost fam = familia_update.conjuntos();
    let ghost c = tabuleiro.celulas();
    let (n1, n2) = tabuleiro.forma();
    let ghost l1 = n1 as int;
    let ghost l2 = n2 as int;
    let ghost w = (j2 - j1) as int;
    let ghost h = (i2 - i1) as int;
    let mut configuracao_final = true;
    let mut sub_vec = Vec::<bool>::new();
    let mut i = i1;
    while i < i2
        invariant
            i1 <= i <= i2,
            i1 < i2 <= n1,
            j1 < j2 <= n2,
            n1 == t.linhas(),
            n2 == t.colunas(),
            l1 == n1,
            l2 == n2,
            t == *tabuleiro,
            c == t.celulas(),
            fam == familia_update.conjuntos(),
            w == j2 - j1,
            h == i2 - i1,
            sub_vec@.len() == (i - i1) * w,
            forall|a: int, b: int|
                0 <= a < i - i1 && 0 <= b < w ==> #[trigger] sub_vec@[a * w + b] == proximo_estado(
                    c,
                    l1,
                    l2,
                    fam,
                    i1 + a,
                    j1 + b,
                ),
            configuracao_final <==> estavel(c, l1, l2, fam, i1 as int, i as int, j1 as int, j2 as int),
        decreases i2 - i,
    {
        let mut j = j1;
        let ghost a = (i - i1) as int;
        while j < j2
            invariant
                i1 <= i < i2,
                j1 <= j <= j2,
                i1 < i2 <= n1,
                j1 < j2 <= n2,
                n1 == t.linhas(),
                n2 == t.colunas(),
                l1 == n1,
                l2 == n2,
                t == *tabuleiro,
                c == t.celulas(),
                fam == familia_update.conjuntos(),
                w == j2 - j1,
                h == i2 - i1,
                a == i - i1,
                sub_vec@.len() == a * w + (j - j1),
                forall|a2: int, b: int|
                    0 <= a2 < a && 0 <= b < w ==> #[trigger] sub_vec@[a2 * w + b] == proximo_estado(
                        c,
                        l1,
                        l2,
                        fam,
                        i1 + a2,
                        j1 + b,
                    ),
                forall|b: int|
                    0 <= b < j - j1 ==> #[trigger] sub_vec@[a * w + b] == proximo_estado(
                        c,
                        l1,
                        l2,
                        fam,
                        i as int,
                        j1 + b,
                    ),
                configuracao_final <==> (estavel(c, l1, l2, fam, i1 as int, i as int, j1 as int, j2 as int)
                    && estavel(c, l1, l2, fam, i as int, i + 1, j1 as int, j as int)),
            decreases j2 - j,
        {
            let ghost antes = sub_vec@;
            let ghost e1 = estavel(c, l1, l2, fam, i as int, i + 1, j1 as int, j as int);
            let ghost e2 = estavel(c, l1, l2, fam, i as int, i + 1, j1 as int, j + 1);
            proof {
                assert(e2 <==> (e1 && proximo_estado(c, l1, l2, fam, i as int, j as int) == c(i as int, j as int)));
            }
            if tabuleiro.ler(i, j) {
                sub_vec.push(true);
            } else {
                if checar_propagacao(tabuleiro, familia_update, i, j) {
                    configuracao_final = false;
                    sub_vec.push(true);
                } else {
                    sub_vec.push(false);
                }
            }
            proof {
                assert forall|a2: int, b: int|
                    0 <= a2 < a && 0 <= b < w implies #[trigger] sub_vec@[a2 * w + b]
                    == proximo_estado(c, l1, l2, fam, i1 + a2, j1 + b) by {
                    lema_indice(a2, b, w, a);
                    assert(sub_vec@[a2 * w + b] == antes[a2 * w + b]);
                }
                assert forall|b: int|
                    0 <= b < j + 1 - j1 implies #[trigger] sub_vec@[a * w + b] == proximo_estado(
                    c,
                    l1,
                    l2,
                    fam,
                    i as int,
                    j1 + b,
                ) by {
                    if b < j - j1 {
                        assert(sub_vec@[a * w + b] == antes[a * w + b]);
                    }
                }
            }
            j = j + 1;
        }
        proof {
            assert(sub_vec@.len() == (i + 1 - i1) * w) by (nonlinear_arith)
                requires
                    sub_vec@.len() == a * w + w,
                    a == i - i1,
            ;
            assert forall|a2: int, b: int|
                0 <= a2 < i + 1 - i1 && 0 <= b < w implies #[trigger] sub_vec@[a2 * w + b]
                == proximo_estado(c, l1, l2, fam, i1 + a2, j1 + b) by {
                if a2 == a {
                    assert(sub_vec@[a * w + b] == proximo_estado(c, l1, l2, fam, i as int, j1 + b));
                }
            }
            let e0 = estavel(c, l1, l2, fam, i1 as int, i as int, j1 as int, j2 as int);
            let e1 = estavel(c, l1, l2, fam, i as int, i + 1, j1 as int, j2 as int);
            let e2 = estavel(c, l1, l2, fam, i1 as int, i + 1, j1 as int, j2 as int);
            assert(e2 <==> e0 && e1) by {
                if e0 && e1 {
                    assert forall|x: int, y: int|
                        i1 <= x < i + 1 && j1 <= y < j2 implies #[trigger] proximo_estado(
                        c,
                        l1,
                        l2,
                        fam,
                        x,
                        y,
                    ) == c(x, y) by {
                        if x < i {
                            assert(proximo_estado(c, l1, l2, fam, x, y) == c(x, y));
                        } else {
                            assert(proximo_estado(c, l1, l2, fam, x, y) == c(x, y));
                        }
                    }
                }
            }
        }
        i = i + 1;
    }
    proof {
        assert(h * w <= n1 * n2) by (nonlinear_arith)
            requires
                0 < h <= n1,
                0 < w <= n2,
        ;
    }
    let sub_tab = Tabuleiro::de_vec_ndarray(i2 - i1, j2 - j1, sub_vec);
    match sub_tab {
        Ok(array) => {
            proof {
                assert forall|x: int, y: int|
                    i1 <= x < i2 && j1 <= y < j2 implies #[trigger] array.celula(x - i1, y - j1)
                    == proximo_estado(c, l1, l2, fam, x, y) by {
                    let a2 = x - i1;
                    let b = y - j1;
                    assert(array.celula(a2, b) == sub_vec@[a2 * w + b]);
                    assert(sub_vec@[a2 * w + b] == proximo_estado(c, l1, l2, fam, i1 + a2, j1 + b));
                }
            }
            Ok((array, configuracao_final))
        },
        Err(_) => Err(ErroBootstrap::FormaIncompativel),
    }
}

/// Infected cells among columns `0..j` of row `i`.
pub open spec fn infectadas_na_linha(c: spec_fn(int, int) -> bool, i: int, j: int) -> nat
    decreases j,
{
    if j <= 0 {
        0
    } else {
        infectadas_na_linha(c, i, j - 1) + (if c(i, j - 1) {
            1nat
        } else {
            0nat
        })
    }
}

/// Infected cells among rows `0..i`, columns `0..n`.
pub open spec fn infectadas(c: spec_fn(int, int) -> bool, i: int, n: int) -> nat
    decreases i,
{
    if i <= 0 {
        0
    } else {
        infectadas(c, i - 1, n) + infectadas_na_linha(c, i - 1, n)
    }
}

/// A row of `j` columns has at most `j` infected cells, and a row whose
/// infected cells stay infected in `c2` has at least as many there, more
/// when some clean cell of it is infected in `c2`.
proof fn lema_linha(c1: spec_fn(int, int) -> bool, c2: spec_fn(int, int) -> bool, i: int, j: int)
    requires
        j >= 0,
        forall|y: int| 0 <= y < j ==> #[trigger] c1(i, y) ==> c2(i, y),
    ensures
        infectadas_na_linha(c1, i, j) <= j,
        infectadas_na_linha(c1, i, j) <= infectadas_na_linha(c2, i, j),
        (exists|y: int| 0 <= y < j && !c1(i, y) && #[trigger] c2(i, y)) ==> infectadas_na_linha(
            c1,
            i,
            j,
        ) < infectadas_na_linha(c2, i, j),
    decreases j,
{
    if j > 0 {
        lema_linha(c1, c2, i, j - 1);
        assert(c1(i, j - 1) ==> c2(i, j - 1));
        if exists|y: int| 0 <= y < j && !c1(i, y) && #[trigger] c2(i, y) {
            let y = choose|y: int| 0 <= y < j && !c1(i, y) && #[trigger] c2(i, y);
            if y < j - 1 {
                assert(exists|y: int| 0 <= y < j - 1 && !c1(i, y) && #[trigger] c2(i, y));
            }
        }
    }
}

/// Rows `0..i` of `n` columns have at most `i * n` infected cells, and where
/// the infected cells stay infected in `c2`, there are at least as many
/// there, more when some clean cell is infected in `c2`.
proof fn lema_contagem(c1: spec_fn(int, int) -> bool, c2: spec_fn(int, int) -> bool, i: int, n: int)
    requires
        i >= 0,
        n >= 0,
        forall|x: int, y: int| 0 <= x < i && 0 <= y < n ==> #[trigger] c1(x, y) ==> c2(x, y),
    ensures
        infectadas(c1, i, n) <= i * n,
        infectadas(c1, i, n) <= infectadas(c2, i, n),
        (exists|x: int, y: int| 0 <= x < i && 0 <= y < n && !c1(x, y) && #[trigger] c2(x, y))
            ==> infectadas(c1, i, n) < infectadas(c2, i, n),
    decreases i,
{
    if i > 0 {
        lema_contagem(c1, c2, i - 1, n);
        assert forall|y: int| 0 <= y < n && #[trigger] c1(i - 1, y) implies c2(i - 1, y) by {
            assert(c1(i - 1, y) ==> c2(i - 1, y));
        }
        lema_linha(c1, c2, i - 1, n);
        assert(i * n == (i - 1) * n + n) by (nonlinear_arith);
        if exists|x: int, y: int| 0 <= x < i && 0 <= y < n && !c1(x, y) && #[trigger] c2(x, y) {
            let (x, y) = choose|x: int, y: int|
                0 <= x < i && 0 <= y < n && !c1(x, y) && #[trigger] c2(x, y);
            if x < i - 1 {
                assert(exists|x: int, y: int|
                    0 <= x < i - 1 && 0 <= y < n && !c1(x, y) && #[trigger] c2(x, y));
            } else {
                assert(exists|y: int| 0 <= y < n && !c1(i - 1, y) && #[trigger] c2(i - 1, y));
            }
        }
    }
}

/// Boards that agree on every cell of the board agree on what the next step
/// infects.
proof fn lema_mesmas_celulas(
    c1: spec_fn(int, int) -> bool,
    c2: spec_fn(int, int) -> bool,
    n1: int,
    n2: int,
    fam: Seq<Seq<[i32; 2]>>,
)
    requires
        iguais_em(c1, c2, n1, n2),
    ensures
        forall|i: int, j: int| #[trigger] propaga(c1, n1, n2, fam, i, j) == propaga(c2, n1, n2, fam, i, j),
        iguais_em(passo(c1, n1, n2, fam), passo(c2, n1, n2, fam), n1, n2),
{
    assert forall|i: int, j: int| #[trigger] propaga(c1, n1, n2, fam, i, j) == propaga(c2, n1, n2, fam, i, j) by {
        assert forall|k: int| 0 <= k < fam.len() implies #[trigger] conjunto_infectado(c1, n1, n2, fam[k], i, j)
            == conjunto_infectado(c2, n1, n2, fam[k], i, j) by {
            let s = fam[k];
            assert forall|m: int| 0 <= m < s.len() implies #[trigger] infectada(c1, n1, n2, i + s[m][0], j + s[m][1])
                == infectada(c2, n1, n2, i + s[m][0], j + s[m][1]) by {
                let x = i + s[m][0];
                let y = j + s[m][1];
                if 0 <= x < n1 && 0 <= y < n2 {
                    assert(c1(x, y) == c2(x, y));
                }
            }
            if conjunto_infectado(c1, n1, n2, s, i, j) {
                assert forall|m: int| 0 <= m < s.len() implies infectada(c2, n1, n2, i + (#[trigger] s[m])[0], j + s[m][1]) by {
                    assert(infectada(c1, n1, n2, i + s[m][0], j + s[m][1]));
                }
            }
            if conjunto_infectado(c2, n1, n2, s, i, j) {
                assert forall|m: int| 0 <= m < s.len() implies infectada(c1, n1, n2, i + (#[trigger] s[m])[0], j + s[m][1]) by {
                    assert(infectada(c2, n1, n2, i + s[m][0], j + s[m][1]));
                }
            }
        }
        if propaga(c1, n1, n2, fam, i, j) {
            let k = choose|k: int| 0 <= k < fam.len() && #[trigger] conjunto_infectado(c1, n1, n2, fam[k], i, j);
            assert(conjunto_infectado(c2, n1, n2, fam[k], i, j));
        }
        if propaga(c2, n1, n2, fam, i, j) {
            let k = choose|k: int| 0 <= k < fam.len() && #[trigger] conjunto_infectado(c2, n1, n2, fam[k], i, j);
            assert(conjunto_infectado(c1, n1, n2, fam[k], i, j));
        }
    }
    assert forall|i: int, j: int| 0 <= i < n1 && 0 <= j < n2 implies #[trigger] passo(c1, n1, n2, fam)(i, j)
        == passo(c2, n1, n2, fam)(i, j) by {
        assert(c1(i, j) == c2(i, j));
        assert(propaga(c1, n1, n2, fam, i, j) == propaga(c2, n1, n2, fam, i, j));
    }
}

/// No step changes the board reached after `k` steps from `c` on an `n` by
/// `n` board.
pub open spec fn estabiliza_em(c: spec_fn(int, int) -> bool, n: int, fam: Seq<Seq<[i32; 2]>>, k: nat) -> bool {
    estavel(iterar(c, n, n, fam, k), n, n, fam, 0, n, 0, n)
}

/// The least number of steps after which no step changes the board (every
/// board gets there: each step that changes it infects one more cell).
pub open spec fn passos_ate_estabilizar(c: spec_fn(int, int) -> bool, n: int, fam: Seq<Seq<[i32; 2]>>) -> nat {
    choose|k: nat|
        #[trigger] estabiliza_em(c, n, fam, k) && forall|j: nat| j < k ==> !#[trigger] estabiliza_em(c, n, fam, j)
}

/// Boards that agree on every cell of the board are stable together.
proof fn lema_estavel_iguais(
    c1: spec_fn(int, int) -> bool,
    c2: spec_fn(int, int) -> bool,
    n: int,
    fam: Seq<Seq<[i32; 2]>>,
)
    requires
        iguais_em(c1, c2, n, n),
    ensures
        estavel(c1, n, n, fam, 0, n, 0, n) == estavel(c2, n, n, fam, 0, n, 0, n),
{
    lema_mesmas_celulas(c1, c2, n, n, fam);
    if estavel(c1, n, n, fam, 0, n, 0, n) {
        assert forall|i: int, j: int| 0 <= i < n && 0 <= j < n implies #[trigger] proximo_estado(c2, n, n, fam, i, j)
            == c2(i, j) by {
            assert(proximo_estado(c1, n, n, fam, i, j) == c1(i, j));
            assert(propaga(c1, n, n, fam, i, j) == propaga(c2, n, n, fam, i, j));
        }
    }
    if estavel(c2, n, n, fam, 0, n, 0, n) {
        assert forall|i: int, j: int| 0 <= i < n && 0 <= j < n implies #[trigger] proximo_estado(c1, n, n, fam, i, j)
            == c1(i, j) by {
            assert(proximo_estado(c2, n, n, fam, i, j) == c2(i, j));
            assert(propaga(c1, n, n, fam, i, j) == propaga(c2, n, n, fam, i, j));
        }
    }
}

/// After `k` steps from `c`, either some board on the way was stable or at
/// least `k` cells are infected.
proof fn lema_cresce(c: spec_fn(int, int) -> bool, n: int, fam: Seq<Seq<[i32; 2]>>, k: nat)
    requires
        n >= 0,
    ensures
        (exists|j: nat| j <= k && #[trigger] estabiliza_em(c, n, fam, j)) || infectadas(
            iterar(c, n, n, fam, k),
            n,
            n,
        ) >= k,
    decreases k,
{
    if k > 0 {
        let k1 = (k - 1) as nat;
        lema_cresce(c, n, fam, k1);
        let antes = iterar(c, n, n, fam, k1);
        let depois = iterar(c, n, n, fam, k);
        if exists|j: nat| j <= k1 && #[trigger] estabiliza_em(c, n, fam, j) {
            let j = choose|j: nat| j <= k1 && #[trigger] estabiliza_em(c, n, fam, j);
            assert(j <= k && estabiliza_em(c, n, fam, j));
        } else if estabiliza_em(c, n, fam, k1) {
            assert(k1 <= k1);
        } else {
            assert forall|i: int, j: int| 0 <= i < n && 0 <= j < n && #[trigger] antes(i, j) implies depois(i, j) by {
                assert(depois(i, j) == passo(antes, n, n, fam)(i, j));
            }
            let (x, y) = choose|x: int, y: int|
                0 <= x < n && 0 <= y < n && !(#[trigger] proximo_estado(antes, n, n, fam, x, y) == antes(x, y));
            assert(!antes(x, y) && depois(x, y)) by {
                assert(depois(x, y) == passo(antes, n, n, fam)(x, y));
            }
            lema_contagem(antes, depois, n, n);
        }
    }
}

/// A board whose `n` by `n` cells are all infected is stable, and one with
/// as many infected cells as there are cells has them all infected.
proof fn lema_cheio_estavel(c: spec_fn(int, int) -> bool, n: int, fam: Seq<Seq<[i32; 2]>>)
    requires
        n >= 0,
        infectadas(c, n, n) >= n * n,
    ensures
        estavel(c, n, n, fam, 0, n, 0, n),
{
    let cheio = |i: int, j: int| true;
    lema_contagem(c, cheio, n, n);
    lema_contagem(cheio, cheio, n, n);
    assert forall|i: int, j: int| 0 <= i < n && 0 <= j < n implies #[trigger] proximo_estado(c, n, n, fam, i, j)
        == c(i, j) by {
        if !c(i, j) {
            assert(!c(i, j) && cheio(i, j));
            assert(false);
        }
    }
}

/// Looking from `j` on for the first stable board finds the least one.
proof fn lema_primeiro_estavel(c: spec_fn(int, int) -> bool, n: int, fam: Seq<Seq<[i32; 2]>>, j: nat, k: nat)
    requires
        j <= k,
        estabiliza_em(c, n, fam, k),
        forall|i: nat| i < j ==> !#[trigger] estabiliza_em(c, n, fam, i),
    ensures
        exists|m: nat|
            #[trigger] estabiliza_em(c, n, fam, m) && forall|i: nat| i < m ==> !#[trigger] estabiliza_em(c, n, fam, i),
    decreases k - j,
{
    if estabiliza_em(c, n, fam, j) {
        assert(estabiliza_em(c, n, fam, j) && forall|i: nat| i < j ==> !#[trigger] estabiliza_em(c, n, fam, i));
    } else {
        lema_primeiro_estavel(c, n, fam, j + 1, k);
    }
}

/// Every board on an `n` by `n` board gets stable after some steps, and
/// `passos_ate_estabilizar` is the least such number: the board after that
/// many steps is stable, and none before it is.
pub proof fn lema_passos_ate_estabilizar(c: spec_fn(int, int) -> bool, n: int, fam: Seq<Seq<[i32; 2]>>)
    requires
        n >= 0,
    ensures
        estabiliza_em(c, n, fam, passos_ate_estabilizar(c, n, fam)),
        forall|j: nat| j < passos_ate_estabilizar(c, n, fam) ==> !#[trigger] estabiliza_em(c, n, fam, j),
        passos_ate_estabilizar(c, n, fam) <= n * n,
{
    assert(n * n >= 0) by (nonlinear_arith)
        requires
            n >= 0,
    ;
    let k = (n * n) as nat;
    lema_cresce(c, n, fam, k);
    if !exists|j: nat| j <= k && #[trigger] estabiliza_em(c, n, fam, j) {
        lema_cheio_estavel(iterar(c, n, n, fam, k), n, fam);
        assert(estabiliza_em(c, n, fam, k));
    }
    let j = choose|j: nat| j <= k && #[trigger] estabiliza_em(c, n, fam, j);
    lema_primeiro_estavel(c, n, fam, 0, j);
    let m = passos_ate_estabilizar(c, n, fam);
    if m > j {
        assert(!estabiliza_em(c, n, fam, j));
    }
}

/// A bootstrap process on an `n` by `n` board: the board, the update
/// family, the number of steps taken, and whether the final configuration
/// was reached.
pub struct ProcessoBootstrap {
    tabuleiro: Tabuleiro,
    fam_update: FamiliaUpdate,
    n: usize,
    t: u32,
    config_final: bool,
}

impl ProcessoBootstrap {
    /// The board.
    pub closed spec fn tabuleiro_atual(&self) -> Tabuleiro {
        self.tabuleiro
    }

    /// The cells of the board.
    pub open spec fn celulas(&self) -> spec_fn(int, int) -> bool {
        self.tabuleiro_atual().celulas()
    }

    /// The sets of the update family.
    pub closed spec fn familia(&self) -> Seq<Seq<[i32; 2]>> {
        self.fam_update.conjuntos()
    }

    /// The side of the board.
    pub closed spec fn lado(&self) -> int {
        self.n as int
    }

    /// Steps taken.
    pub closed spec fn passos(&self) -> int {
        self.t as int
    }

    /// Whether the final configuration was reached.
    pub closed spec fn terminado(&self) -> bool {
        self.config_final
    }

    /// The board is `n` by `n`.
    pub closed spec fn wf(&self) -> bool {
        &&& self.tabuleiro.linhas() == self.n
        &&& self.tabuleiro.colunas() == self.n
    }

    /// The board of a well-formed process is `lado` by `lado`.
    pub proof fn lema_forma(&self)
        requires
            self.wf(),
        ensures
            self.tabuleiro_atual().linhas() == self.lado(),
            self.tabuleiro_atual().colunas() == self.lado(),
    {
    }

    /// A process on the `n` by `n` board `tabuleiro` with the update family
    /// `fam_update`, at step 0; `None` when the board is not `n` by `n`.
    pub fn novo(n: usize, tabuleiro: Tabuleiro, fam_update: FamiliaUpdate) -> (r: Option<
        ProcessoBootstrap,
    >)
        ensures
            r is Some <==> tabuleiro.linhas() == n && tabuleiro.colunas() == n,
            r matches Some(p) ==> {
                &&& p.wf()
                &&& p.tabuleiro_atual() == tabuleiro
                &&& p.familia() == fam_update.conjuntos()
                &&& p.lado() == n
                &&& p.passos() == 0
                &&& !p.terminado()
            },
    {
        let (n1, n2) = tabuleiro.forma();
        if n1 != n || n2 != n {
            return None;
        }
        Some(ProcessoBootstrap { tabuleiro, fam_update, n, t: 0, config_final: false })
    }

    /// The board.
    pub fn tabuleiro(&self) -> (r: &Tabuleiro)
        ensures
            *r == self.tabuleiro_atual(),
    {
        &self.tabuleiro
    }

    /// The update family.
    pub fn familia_update(&self) -> (r: &FamiliaUpdate)
        ensures
            r.conjuntos() == self.familia(),
    {
        &self.fam_update
    }

    /// The side of the board.
    pub fn n(&self) -> (r: usize)
        ensures
            r == self.lado(),
    {
        self.n
    }

    /// Steps taken.
    pub fn t(&self) -> (r: u32)
        ensures
            r == self.passos(),
    {
        self.t
    }

    /// Whether the final configuration was reached.
    pub fn config_final(&self) -> (r: bool)
        ensures
            r == self.terminado(),
    {
        self.config_final
    }

    /// One step of the process on the whole board, unless it is final; the
    /// process is final once a step changes nothing.
    pub fn atualiza_passo(&mut self)
        requires
            old(self).wf(),
            !old(self).terminado() ==> old(self).lado() > 0 && old(self).passos() < u32::MAX,
        ensures
            final(self).wf(),
            final(self).familia() == old(self).familia(),
            final(self).lado() == old(self).lado(),
            old(self).terminado() ==> *final(self) == *old(self),
            !old(self).terminado() ==> {
                &&& iguais_em(
                    final(self).celulas(),
                    passo(old(self).celulas(), old(self).lado(), old(self).lado(), old(self).familia()),
                    old(self).lado(),
                    old(self).lado(),
                )
                &&& final(self).passos() == old(self).passos() + 1
                &&& final(self).terminado() <==> estavel(
                    old(self).celulas(),
                    old(self).lado(),
                    old(self).lado(),
                    old(self).familia(),
                    0,
                    old(self).lado(),
                    0,
                    old(self).lado(),
                )
                &&& final(self).terminado() ==> estavel(
                    final(self).celulas(),
                    old(self).lado(),
                    old(self).lado(),
                    old(self).familia(),
                    0,
                    old(self).lado(),
                    0,
                    old(self).lado(),
                )
            },
    {
        if self.config_final {
            return ;
        }
        let ghost c0 = self.tabuleiro.celulas();
        let ghost n = self.n as int;
        let ghost fam = self.fam_update.conjuntos();
        let (tab_novo, config_final) = passo_sub(
            self.n,
            &self.tabuleiro,
            &self.fam_update,
            0,
            self.n,
            0,
            self.n,
        ).unwrap();
        self.tabuleiro = tab_novo;
        self.t += 1;
        self.config_final = config_final;
        proof {
            let c1 = self.tabuleiro.celulas();
            assert forall|i: int, j: int| 0 <= i < n && 0 <= j < n implies #[trigger] c1(i, j)
                == passo(c0, n, n, fam)(i, j) by {
                assert(tab_novo.celula(i - 0, j - 0) == proximo_estado(c0, n, n, fam, i, j));
            }
            if config_final {
                lema_mesmas_celulas(c0, c1, n, n, fam);
                assert forall|i: int, j: int| 0 <= i < n && 0 <= j < n implies #[trigger] proximo_estado(
                    c1,
                    n,
                    n,
                    fam,
                    i,
                    j,
                ) == c1(i, j) by {
                    assert(proximo_estado(c0, n, n, fam, i, j) == c0(i, j));
                    assert(c1(i, j) == passo(c0, n, n, fam)(i, j));
                    assert(propaga(c1, n, n, fam, i, j) == propaga(c0, n, n, fam, i, j));
                }
            }
        }
    }

    /// Number of infected cells of the board.
    pub fn contar_infectados(&self) -> (r: u64)
        requires
            self.wf(),
        ensures
            r == infectadas(self.celulas(), self.lado(), self.lado()),
    {
        let ghost c = self.tabuleiro.celulas();
        let ghost n = self.n as int;
        let (n1, n2) = self.tabuleiro.forma();
        let mut cont: u64 = 0;
        let mut i: usize = 0;
        while i < self.n
            invariant
                self.wf(),
                c == self.tabuleiro.celulas(),
                n == self.n,
                n1 == n,
                n2 == n,
                n1 * n2 <= isize::MAX,
                0 <= i <= n,
                cont == infectadas(c, i as int, n),
            decreases n - i,
        {
            let mut j: usize = 0;
            proof {
                lema_contagem(c, c, i as int, n);
                assert(i * n <= n * n - n) by (nonlinear_arith)
                    requires
                        0 <= i < n,
                ;
            }
            while j < self.n
                invariant
                    self.wf(),
                    c == self.tabuleiro.celulas(),
                    n == self.n,
                    n1 == n,
                    n2 == n,
                    n1 * n2 <= isize::MAX,
                    0 <= i < n,
                    0 <= j <= n,
                    infectadas(c, i as int, n) <= i * n,
                    i * n <= n * n - n,
                    cont == infectadas(c, i as int, n) + infectadas_na_linha(c, i as int, j as int),
                decreases n - j,
            {
                proof {
                    lema_linha(c, c, i as int, j as int);
                }
                if self.tabuleiro.ler(i, j) {
                    cont += 1;
                }
                j += 1;
            }
            i += 1;
        }
        cont
    }

    /// Takes steps until the final configuration: the board is then the one
    /// reached after some number of steps from the start, and no step
    /// changes it any more. A process already final stays as it is; else
    /// the steps taken are one more than the least number of steps after
    /// which the board is stable (the last step finds that nothing changes),
    /// and the step counter must not overflow on the way.
    pub fn resolver_total(&mut self)
        requires
            old(self).wf(),
            !old(self).terminado() ==> old(self).lado() > 0 && old(self).passos()
                + passos_ate_estabilizar(old(self).celulas(), old(self).lado(), old(self).familia()) + 1
                <= u32::MAX,
        ensures
            !old(self).terminado() ==> {
                let k0 = passos_ate_estabilizar(old(self).celulas(), old(self).lado(), old(self).familia());
                &&& final(self).passos() == old(self).passos() + k0 + 1
                &&& iguais_em(
                    final(self).celulas(),
                    iterar(old(self).celulas(), old(self).lado(), old(self).lado(), old(self).familia(), k0),
                    old(self).lado(),
                    old(self).lado(),
                )
            },
            final(self).wf(),
            final(self).terminado(),
            final(self).familia() == old(self).familia(),
            final(self).lado() == old(self).lado(),
            old(self).terminado() ==> *final(self) == *old(self),
            !old(self).terminado() ==> estavel(
                final(self).celulas(),
                old(self).lado(),
                old(self).lado(),
                old(self).familia(),
                0,
                old(self).lado(),
                0,
                old(self).lado(),
            ),
            exists|k: nat|
                final(self).passos() == old(self).passos() + k && iguais_em(
                    final(self).celulas(),
                    #[trigger] iterar(
                        old(self).celulas(),
                        old(self).lado(),
                        old(self).lado(),
                        old(self).familia(),
                        k,
                    ),
                    old(self).lado(),
                    old(self).lado(),
                ),
    {
        if self.config_final {
            proof {
                assert(iguais_em(self.celulas(), iterar(self.celulas(), self.lado(), self.lado(), self.familia(), 0), self.lado(), self.lado()));
            }
            return ;
        }
        let ghost c0 = self.celulas();
        let ghost n = self.lado();
        let ghost fam = self.familia();
        let ghost t0 = self.passos();
        let ghost mut k: nat = 0;
        let ghost k0 = passos_ate_estabilizar(c0, n, fam);
        proof {
            assert(iguais_em(self.celulas(), iterar(c0, n, n, fam, 0), n, n));
            lema_contagem(c0, c0, n, n);
            lema_passos_ate_estabilizar(c0, n, fam);
        }
        while !self.config_final
            invariant
                self.wf(),
                self.familia() == fam,
                self.lado() == n,
                n >= 0,
                !self.terminado() ==> n > 0,
                self.passos() == t0 + k,
                iguais_em(self.celulas(), iterar(c0, n, n, fam, k), n, n),
                infectadas(self.celulas(), n, n) <= n * n,
                k0 == passos_ate_estabilizar(c0, n, fam),
                t0 + k0 + 1 <= u32::MAX,
                estabiliza_em(c0, n, fam, k0),
                forall|j: nat| j < k0 ==> !#[trigger] estabiliza_em(c0, n, fam, j),
                !self.terminado() ==> forall|j: nat| j < k ==> !#[trigger] estabiliza_em(c0, n, fam, j),
                self.terminado() ==> k >= 1 && estabiliza_em(c0, n, fam, (k - 1) as nat) && forall|j: nat|
                    j + 1 < k ==> !#[trigger] estabiliza_em(c0, n, fam, j),
                self.terminado() ==> estavel(self.celulas(), n, n, fam, 0, n, 0, n),
                t0 == old(self).passos(),
                c0 == old(self).celulas(),
                n == old(self).lado(),
                fam == old(self).familia(),
                !old(self).terminado(),
            decreases n * n - infectadas(self.celulas(), n, n) + (if self.terminado() {
                0int
            } else {
                1int
            }),
        {
            let ghost antes = self.celulas();
            proof {
                if k >= k0 {
                    assert(k == k0 || k0 < k);
                    if k0 < k {
                        assert(!estabiliza_em(c0, n, fam, k0));
                    }
                }
            }
            self.atualiza_passo();
            proof {
                let depois = self.celulas();
                let prox = passo(antes, n, n, fam);
                lema_mesmas_celulas(antes, iterar(c0, n, n, fam, k), n, n, fam);
                lema_estavel_iguais(antes, iterar(c0, n, n, fam, k), n, fam);
                k = k + 1;
                assert(iterar(c0, n, n, fam, k) == passo(iterar(c0, n, n, fam, (k - 1) as nat), n, n, fam));
                assert forall|i: int, j: int| 0 <= i < n && 0 <= j < n implies #[trigger] depois(i, j)
                    == iterar(c0, n, n, fam, k)(i, j) by {
                    assert(depois(i, j) == prox(i, j));
                    assert(prox(i, j) == passo(iterar(c0, n, n, fam, (k - 1) as nat), n, n, fam)(i, j));
                }
                assert forall|i: int, j: int| 0 <= i < n && 0 <= j < n && #[trigger] antes(i, j)
                    implies depois(i, j) by {
                    assert(depois(i, j) == prox(i, j));
                }
                lema_contagem(antes, depois, n, n);
                lema_contagem(depois, depois, n, n);
                if !self.terminado() {
                    let (x, y) = choose|x: int, y: int|
                        0 <= x < n && 0 <= y < n && !(#[trigger] proximo_estado(antes, n, n, fam, x, y)
                        == antes(x, y));
                    assert(!antes(x, y) && depois(x, y)) by {
                        assert(depois(x, y) == prox(x, y));
                    }
                }
            }
        }
    }
}

impl Tabuleiro {
    /// A board of `n1` rows and `n2` columns whose cells are `v`, row after
    /// row; `FormaIncompativel` when `v` does not have `n1 * n2` cells or the
    /// board would be too large for ndarray.
    pub fn de_vec(n1: usize, n2: usize, v: Vec<bool>) -> (r: Result<Tabuleiro, ErroBootstrap>)
        ensures
            r is Ok <==> (n1 * n2 == v@.len() && produto_nao_nulo(n1 as int, n2 as int)
                <= isize::MAX),
            r is Err ==> r == Err::<Tabuleiro, ErroBootstrap>(ErroBootstrap::FormaIncompativel),
            r is Ok ==> r->Ok_0.linhas() == n1 && r->Ok_0.colunas() == n2,
            r is Ok ==> forall|i: int, j: int|
                0 <= i < n1 && 0 <= j < n2 ==> #[trigger] r->Ok_0.celula(i, j) == v@[i * n2 + j],
    {
        match Tabuleiro::de_vec_ndarray(n1, n2, v) {
            Ok(t) => Ok(t),
            Err(_) => Err(ErroBootstrap::FormaIncompativel),
        }
    }

    /// The rows and the columns of the board.
    pub fn dimensoes(&self) -> (r: (usize, usize))
        ensures
            r.0 == self.linhas(),
            r.1 == self.colunas(),
    {
        self.forma()
    }
}

/// The cells of the board, row by row.
pub fn array_para_vec(array: &Tabuleiro) -> (v: Vec<Vec<bool>>)
    ensures
        v@.len() == array.linhas(),
        forall|i: int| 0 <= i < v@.len() ==> (#[trigger] v@[i])@.len() == array.colunas(),
        forall|i: int, j: int|
            0 <= i < array.linhas() && 0 <= j < array.colunas() ==> #[trigger] v@[i]@[j]
                == array.celula(i, j),
{
    let mut v = Vec::<Vec<bool>>::new();
    let (n1, n2) = array.forma();
    let mut i: usize = 0;
    while i < n1
        invariant
            0 <= i <= n1,
            n1 == array.linhas(),
            n2 == array.colunas(),
            v@.len() == i,
            forall|x: int| 0 <= x < i ==> (#[trigger] v@[x])@.len() == n2,
            forall|x: int, y: int| 0 <= x < i && 0 <= y < n2 ==> #[trigger] v@[x]@[y] == array.celula(x, y),
        decreases n1 - i,
    {
        let mut linha = Vec::<bool>::new();
        let mut j: usize = 0;
        while j < n2
            invariant
                0 <= i < n1,
                0 <= j <= n2,
                n1 == array.linhas(),
                n2 == array.colunas(),
                linha@.len() == j,
                forall|y: int| 0 <= y < j ==> #[trigger] linha@[y] == array.celula(i as int, y),
            decreases n2 - j,
        {
            linha.push(array.ler(i, j));
            j += 1;
        }
        v.push(linha);
        i += 1;
    }
    v
}

/// Rows per strip when `n` rows are shared among `n_threads` threads (never
/// more threads than rows).
pub open spec fn tamanho_faixa(n: int, n_threads: int) -> int {
    let m = if n < n_threads {
        n
    } else {
        n_threads
    };
    (n + m - 1) / m
}

/// `fs` splits rows `0..n` into consecutive nonempty strips `[i0, i1)`.
pub open spec fn particao(fs: Seq<(usize, usize)>, n: int) -> bool {
    &&& fs.len() > 0
    &&& fs[0].0 == 0
    &&& fs.last().1 == n
    &&& forall|k: int| 0 <= k < fs.len() ==> (#[trigger] fs[k]).0 < fs[k].1 <= n
    &&& forall|k: int| 0 <= k < fs.len() - 1 ==> (#[trigger] fs[k]).1 == fs[k + 1].0
}

/// The strips of rows that a parallel step hands to its threads: strips of
/// `tamanho_faixa(n, n_threads)` rows from row 0 on, the last one cut at row
/// `n`.
pub fn faixas(n: usize, n_threads: usize) -> (r: Vec<(usize, usize)>)
    requires
        n > 0,
        n_threads > 0,
        n + (if n < n_threads {
            n
        } else {
            n_threads
        }) - 1 <= usize::MAX,
    ensures
        particao(r@, n as int),
        forall|k: int|
            0 <= k < r@.len() ==> (#[trigger] r@[k]).0 == k * tamanho_faixa(n as int, n_threads as int)
                && r@[k].1 == menor_int(
                (k + 1) * tamanho_faixa(n as int, n_threads as int),
                n as int,
            ),
{
    let m = if n < n_threads {
        n
    } else {
        n_threads
    };
    let tamanho = (n + (m - 1)) / m;
    proof {
        let a: int = n + m - 1;
        let b: int = m as int;
        assert(a / b >= 1) by (nonlinear_arith)
            requires
                a >= b,
                b >= 1,
        ;
    }
    let ghost tam = tamanho as int;
    let mut r: Vec<(usize, usize)> = Vec::new();
    let mut i0: usize = 0;
    proof {
        assert(r@.len() * tam == 0) by (nonlinear_arith)
            requires
                r@.len() == 0,
        ;
    }
    while i0 < n
        invariant
            tam == tamanho,
            tam == tamanho_faixa(n as int, n_threads as int),
            tam >= 1,
            0 <= i0 <= n,
            i0 == menor_int(r@.len() * tam, n as int),
            r@.len() > 0 ==> r@[0].0 == 0 && r@.last().1 == i0,
            forall|k: int|
                0 <= k < r@.len() ==> (#[trigger] r@[k]).0 == k * tam && r@[k].1 == menor_int(
                    (k + 1) * tam,
                    n as int,
                ) && r@[k].0 < r@[k].1 <= n,
            forall|k: int| 0 <= k < r@.len() - 1 ==> (#[trigger] r@[k]).1 == r@[k + 1].0,
            i0 < n ==> i0 == r@.len() * tam,
        decreases n - i0,
    {
        let i1 = if n - i0 < tamanho {
            n
        } else {
            i0 + tamanho
        };
        let ghost len = r@.len() as int;
        proof {
            assert((len + 1) * tam == len * tam + tam) by (nonlinear_arith);
        }
        r.push((i0, i1));
        i0 = i1;
    }
    r
}

/// The smaller of `a` and `b`.
pub open spec fn menor_int(a: int, b: int) -> int {
    if a < b {
        a
    } else {
        b
    }
}

/// The larger of `a` and `b`.
pub open spec fn maior_int(a: int, b: int) -> int {
    if a > b {
        a
    } else {
        b
    }
}

/// `t` holds, in each row of strip `fs[k]`, the cells of `subs[k]`.
pub open spec fn montagem(t: Tabuleiro, fs: Seq<(usize, usize)>, subs: Seq<(Tabuleiro, bool)>, n: int) -> bool {
    forall|k: int, i: int, j: int|
        0 <= k < fs.len() && fs[k].0 <= i < fs[k].1 && 0 <= j < n ==> #[trigger] t.celula(i, j)
            == (#[trigger] subs[k]).0.celula(i - fs[k].0, j)
}

/// Every strip result fits its strip: `fs[k].1 - fs[k].0` rows of `n` columns.
pub open spec fn formas_das_faixas(fs: Seq<(usize, usize)>, subs: Seq<(Tabuleiro, bool)>, n: int) -> bool {
    &&& fs.len() == subs.len()
    &&& forall|k: int|
        0 <= k < fs.len() ==> (#[trigger] subs[k]).0.linhas() == fs[k].1 - fs[k].0 && subs[k].0.colunas()
            == n
}

/// The strip `fs[k]` that holds row `i`.
proof fn lema_faixa_de(fs: Seq<(usize, usize)>, n: int, i: int, k: int) -> (r: int)
    requires
        particao(fs, n),
        0 <= k < fs.len(),
        fs[k].0 <= i < n,
    ensures
        k <= r < fs.len(),
        fs[r].0 <= i < fs[r].1,
    decreases fs.len() - k,
{
    if i < fs[k].1 {
        k
    } else {
        assert(k < fs.len() - 1);
        assert(fs[k].1 == fs[k + 1].0);
        lema_faixa_de(fs, n, i, k + 1)
    }
}

impl ProcessoBootstrap {
    /// Records a step computed strip by strip: `resultados[k]` holds the new
    /// cells of rows `faixas[k].0..faixas[k].1` and whether none of them
    /// changed. Nothing happens to a final process. Fails, changing nothing,
    /// with `ForaDosLimites` unless the strips split rows `0..n`, and with
    /// `FormaIncompativel` unless each result fits its strip.
    #[verifier::spinoff_prover]
    #[verifier::rlimit(40)]
    pub fn aplicar_faixas(&mut self, faixas: &Vec<(usize, usize)>, resultados: Vec<(Tabuleiro, bool)>) -> (r:
        Result<(), ErroBootstrap>)
        requires
            old(self).wf(),
            !old(self).terminado() ==> old(self).passos() < u32::MAX,
        ensures
            final(self).wf(),
            final(self).familia() == old(self).familia(),
            final(self).lado() == old(self).lado(),
            old(self).terminado() ==> r is Ok,
            r is Err ==> *final(self) == *old(self),
            !old(self).terminado() && !particao(faixas@, old(self).lado()) ==> r == Err::<(), ErroBootstrap>(
                ErroBootstrap::ForaDosLimites,
            ),
            !old(self).terminado() && particao(faixas@, old(self).lado()) && !formas_das_faixas(
                faixas@,
                resultados@,
                old(self).lado(),
            ) ==> r == Err::<(), ErroBootstrap>(ErroBootstrap::FormaIncompativel),
            !old(self).terminado() && particao(faixas@, old(self).lado()) && formas_das_faixas(
                faixas@,
                resultados@,
                old(self).lado(),
            ) ==> r is Ok,
            r is Ok && old(self).terminado() ==> *final(self) == *old(self),
            r is Ok && !old(self).terminado() ==> {
                &&& montagem(final(self).tabuleiro_atual(), faixas@, resultados@, old(self).lado())
                &&& final(self).passos() == old(self).passos() + 1
                &&& final(self).terminado() <==> forall|k: int|
                    0 <= k < resultados@.len() ==> (#[trigger] resultados@[k]).1
            },
    {
        if self.config_final {
            return Ok(());
        }
        let n = self.n;
        // the strips must split rows 0..n
        if faixas.len() == 0 || faixas[0].0 != 0 || faixas[faixas.len() - 1].1 != n {
            return Err(ErroBootstrap::ForaDosLimites);
        }
        let mut k: usize = 0;
        while k < faixas.len()
            invariant
                0 <= k <= faixas@.len(),
                faixas@.len() > 0,
                n == old(self).lado(),
                old(self).wf(),
                !old(self).terminado(),
                *self == *old(self),
                faixas@[0].0 == 0,
                faixas@.last().1 == n,
                forall|q: int| 0 <= q < k ==> (#[trigger] faixas@[q]).0 < faixas@[q].1 <= n,
                forall|q: int| 0 <= q < k && q < faixas@.len() - 1 ==> (#[trigger] faixas@[q]).1 == faixas@[q + 1].0,
            decreases faixas@.len() - k,
        {
            let (a, b) = faixas[k];
            if !(a < b && b <= n) {
                return Err(ErroBootstrap::ForaDosLimites);
            }
            if k + 1 < faixas.len() && b != faixas[k + 1].0 {
                return Err(ErroBootstrap::ForaDosLimites);
            }
            k += 1;
        }
        // each result must fit its strip
        if resultados.len() != faixas.len() {
            return Err(ErroBootstrap::FormaIncompativel);
        }
        let mut k: usize = 0;
        while k < resultados.len()
            invariant
                0 <= k <= resultados@.len(),
                resultados@.len() == faixas@.len(),
                n == old(self).lado(),
                old(self).wf(),
                !old(self).terminado(),
                *self == *old(self),
                particao(faixas@, n as int),
                forall|q: int|
                    0 <= q < k ==> (#[trigger] resultados@[q]).0.linhas() == faixas@[q].1 - faixas@[q].0
                        && resultados@[q].0.colunas() == n,
            decreases resultados@.len() - k,
        {
            let (l, c) = resultados[k].0.forma();
            if l != faixas[k].1 - faixas[k].0 || c != n {
                return Err(ErroBootstrap::FormaIncompativel);
            }
            k += 1;
        }
        let ghost fs = faixas@;
        let ghost subs = resultados@;
        let mut novo_tabuleiro = self.tabuleiro.copiar();
        let mut config_final = true;
        let mut k: usize = 0;
        while k < resultados.len()
            invariant
                0 <= k <= subs.len(),
                subs == resultados@,
                fs == faixas@,
                particao(fs, n as int),
                formas_das_faixas(fs, subs, n as int),
                n == self.n,
                self.wf(),
                novo_tabuleiro.linhas() == n,
                novo_tabuleiro.colunas() == n,
                montagem(novo_tabuleiro, fs.take(k as int), subs.take(k as int), n as int),
                config_final <==> forall|q: int| 0 <= q < k ==> (#[trigger] subs[q]).1,
            decreases subs.len() - k,
        {
            let (i0, i1) = faixas[k];
            let sub = &resultados[k].0;
            if !resultados[k].1 {
                config_final = false;
            }
            let ghost antes = novo_tabuleiro;
            let mut i = i0;
            while i < i1
                invariant
                    i0 <= i <= i1,
                    (i0, i1) == fs[k as int],
                    0 <= k < subs.len(),
                    *sub == subs[k as int].0,
                    particao(fs, n as int),
                    formas_das_faixas(fs, subs, n as int),
                    novo_tabuleiro.linhas() == n,
                    novo_tabuleiro.colunas() == n,
                    forall|x: int, y: int|
                        0 <= x < n && 0 <= y < n && !(i0 <= x < i) ==> #[trigger] novo_tabuleiro.celula(x, y)
                            == antes.celula(x, y),
                    forall|x: int, y: int|
                        i0 <= x < i && 0 <= y < n ==> #[trigger] novo_tabuleiro.celula(x, y) == sub.celula(x - i0, y),
                decreases i1 - i,
            {
                let mut j: usize = 0;
                while j < n
                    invariant
                        i0 <= i < i1,
                        0 <= j <= n,
                        (i0, i1) == fs[k as int],
                        0 <= k < subs.len(),
                        *sub == subs[k as int].0,
                        particao(fs, n as int),
                        formas_das_faixas(fs, subs, n as int),
                        novo_tabuleiro.linhas() == n,
                        novo_tabuleiro.colunas() == n,
                        forall|x: int, y: int|
                            0 <= x < n && 0 <= y < n && !(i0 <= x < i) && !(x == i && y < j) ==> #[trigger] novo_tabuleiro.celula(x, y)
                                == antes.celula(x, y),
                        forall|x: int, y: int|
                            (i0 <= x < i && 0 <= y < n) || (x == i && 0 <= y < j) ==> #[trigger] novo_tabuleiro.celula(x, y)
                                == sub.celula(x - i0, y),
                    decreases n - j,
                {
                    proof {
                        assert(sub.linhas() == i1 - i0);
                    }
                    let valor = sub.ler(i - i0, j);
                    let ghost velho = novo_tabuleiro;
                    novo_tabuleiro.escrever(i, j, valor);
                    proof {
                        assert forall|x: int, y: int|
                            0 <= x < n && 0 <= y < n && !(i0 <= x < i) && !(x == i && y < j + 1) implies #[trigger] novo_tabuleiro.celula(x, y)
                                == antes.celula(x, y) by {
                            assert(novo_tabuleiro.celula(x, y) == velho.celula(x, y));
                        }
                        assert forall|x: int, y: int|
                            (i0 <= x < i && 0 <= y < n) || (x == i && 0 <= y < j + 1) implies #[trigger] novo_tabuleiro.celula(x, y)
                                == sub.celula(x - i0, y) by {
                            if !(x == i && y == j) {
                                assert(novo_tabuleiro.celula(x, y) == velho.celula(x, y));
                            }
                        }
                    }
                    j += 1;
                }
                i += 1;
            }
            proof {
                let fs2 = fs.take(k + 1);
                let subs2 = subs.take(k + 1);
                assert forall|q: int, x: int, y: int|
                    0 <= q < fs2.len() && fs2[q].0 <= x < fs2[q].1 && 0 <= y < n implies #[trigger] novo_tabuleiro.celula(x, y)
                        == (#[trigger] subs2[q]).0.celula(x - fs2[q].0, y) by {
                    if q < k {
                        assert(fs.take(k as int)[q] == fs[q]);
                        assert(subs.take(k as int)[q] == subs[q]);
                        assert(antes.celula(x, y) == subs[q].0.celula(x - fs[q].0, y));
                        // strip q lies before strip k
                        lema_faixas_ordenadas(fs, n as int, q, k as int);
                    }
                }
            }
            k += 1;
        }
        proof {
            assert(fs.take(subs.len() as int) =~= fs);
            assert(subs.take(subs.len() as int) =~= subs);
        }
        self.tabuleiro = novo_tabuleiro;
        self.config_final = config_final;
        self.t += 1;
        Ok(())
    }
}

impl ProcessoBootstrap {
    /// One step of the process computed strip by strip: the rows are split
    /// into `faixas(n, n_threads)`, each strip gets its step from
    /// `passo_sub`, and `aplicar_faixas` puts the strips together. The
    /// strips do not depend on one another (the program hands each to a
    /// thread of its own); the result is that of `atualiza_passo`.
    pub fn passo_paralelo(&mut self, n_threads: usize)
        requires
            old(self).wf(),
            !old(self).terminado() ==> old(self).lado() > 0 && n_threads > 0 && old(self).passos()
                < u32::MAX,
        ensures
            final(self).wf(),
            final(self).familia() == old(self).familia(),
            final(self).lado() == old(self).lado(),
            old(self).terminado() ==> *final(self) == *old(self),
            !old(self).terminado() ==> {
                &&& iguais_em(
                    final(self).celulas(),
                    passo(old(self).celulas(), old(self).lado(), old(self).lado(), old(self).familia()),
                    old(self).lado(),
                    old(self).lado(),
                )
                &&& final(self).passos() == old(self).passos() + 1
                &&& final(self).terminado() <==> estavel(
                    old(self).celulas(),
                    old(self).lado(),
                    old(self).lado(),
                    old(self).familia(),
                    0,
                    old(self).lado(),
                    0,
                    old(self).lado(),
                )
                &&& final(self).terminado() ==> estavel(
                    final(self).celulas(),
                    old(self).lado(),
                    old(self).lado(),
                    old(self).familia(),
                    0,
                    old(self).lado(),
                    0,
                    old(self).lado(),
                )
            },
    {
        if self.config_final {
            return ;
        }
        let n = self.n;
        let (n1, n2) = self.tabuleiro.forma();
        proof {
            assert(n + n - 1 <= usize::MAX) by (nonlinear_arith)
                requires
                    n == n1,
                    n == n2,
                    n1 * n2 <= isize::MAX,
                    n >= 1,
                    isize::MAX < usize::MAX,
            ;
        }
        let fs = faixas(n, n_threads);
        let ghost t0 = self.tabuleiro;
        let ghost c0 = self.tabuleiro.celulas();
        let ghost fam = self.fam_update.conjuntos();
        let mut resultados: Vec<(Tabuleiro, bool)> = Vec::new();
        let mut k: usize = 0;
        while k < fs.len()
            invariant
                0 <= k <= fs@.len(),
                resultados@.len() == k,
                particao(fs@, n as int),
                self.wf(),
                n == self.n,
                t0 == self.tabuleiro,
                fam == self.fam_update.conjuntos(),
                forall|q: int|
                    0 <= q < k ==> sub_passo(
                        t0,
                        fam,
                        fs@[q].0 as int,
                        fs@[q].1 as int,
                        0,
                        n as int,
                        (#[trigger] resultados@[q]).0,
                    ) && (resultados@[q].1 <==> estavel(
                        t0.celulas(),
                        n as int,
                        n as int,
                        fam,
                        fs@[q].0 as int,
                        fs@[q].1 as int,
                        0,
                        n as int,
                    )),
            decreases fs@.len() - k,
        {
            let (i0, i1) = fs[k];
            let r = passo_sub(n, &self.tabuleiro, &self.fam_update, i0, i1, 0, n).unwrap();
            resultados.push(r);
            k += 1;
        }
        let ghost subs = resultados@;
        proof {
            assert(formas_das_faixas(fs@, subs, n as int)) by {
                assert forall|q: int| 0 <= q < fs@.len() implies (#[trigger] subs[q]).0.linhas() == fs@[q].1
                    - fs@[q].0 && subs[q].0.colunas() == n by {
                    assert(sub_passo(t0, fam, fs@[q].0 as int, fs@[q].1 as int, 0, n as int, subs[q].0));
                }
            }
        }
        let _ = self.aplicar_faixas(&fs, resultados);
        proof {
            let c1 = self.tabuleiro.celulas();
            let nn = n as int;
            lei_passo_paralelo(t0, self.tabuleiro, fam, nn, fs@, subs);
            if self.config_final {
                lema_mesmas_celulas(c0, c1, nn, nn, fam);
                assert forall|i: int, j: int| 0 <= i < nn && 0 <= j < nn implies #[trigger] proximo_estado(
                    c1,
                    nn,
                    nn,
                    fam,
                    i,
                    j,
                ) == c1(i, j) by {
                    assert(proximo_estado(c0, nn, nn, fam, i, j) == c0(i, j));
                    assert(c1(i, j) == passo(c0, nn, nn, fam)(i, j));
                    assert(propaga(c1, nn, nn, fam, i, j) == propaga(c0, nn, nn, fam, i, j));
                }
            }
        }
    }
}

/// Strips of a split come in order: a strip ends no later than a later one starts.
proof fn lema_faixas_ordenadas(fs: Seq<(usize, usize)>, n: int, q: int, k: int)
    requires
        particao(fs, n),
        0 <= q < k < fs.len(),
    ensures
        fs[q].1 <= fs[k].0,
    decreases k - q,
{
    assert(fs[q].1 == fs[q + 1].0);
    if q + 1 < k {
        lema_faixas_ordenadas(fs, n, q + 1, k);
    }
}

/// A step computed strip by strip is the step of the whole board: when the
/// strips split rows `0..n`, each result holds the step of its strip with
/// the flag of its stability, and `t1` is assembled from them, then `t1` is
/// the board after one step of `t0`, and every flag is set exactly when no
/// cell of the board changes.
pub proof fn lei_passo_paralelo(
    t0: Tabuleiro,
    t1: Tabuleiro,
    fam: Seq<Seq<[i32; 2]>>,
    n: int,
    fs: Seq<(usize, usize)>,
    subs: Seq<(Tabuleiro, bool)>,
)
    requires
        t0.linhas() == n,
        t0.colunas() == n,
        particao(fs, n),
        fs.len() == subs.len(),
        forall|k: int|
            0 <= k < fs.len() ==> sub_passo(
                t0,
                fam,
                fs[k].0 as int,
                fs[k].1 as int,
                0,
                n,
                (#[trigger] subs[k]).0,
            ) && (subs[k].1 <==> estavel(t0.celulas(), n, n, fam, fs[k].0 as int, fs[k].1 as int, 0, n)),
        montagem(t1, fs, subs, n),
    ensures
        iguais_em(t1.celulas(), passo(t0.celulas(), n, n, fam), n, n),
        (forall|k: int| 0 <= k < subs.len() ==> (#[trigger] subs[k]).1) <==> estavel(
            t0.celulas(),
            n,
            n,
            fam,
            0,
            n,
            0,
            n,
        ),
{
    let c0 = t0.celulas();
    assert forall|i: int, j: int| 0 <= i < n && 0 <= j < n implies #[trigger] t1.celulas()(i, j)
        == passo(c0, n, n, fam)(i, j) by {
        let k = lema_faixa_de(fs, n, i, 0);
        let a = fs[k].0 as int;
        assert(t1.celula(i, j) == subs[k].0.celula(i - a, j));
        assert(subs[k].0.celula(i - a, j - 0) == proximo_estado(c0, n, n, fam, i, j));
    }
    if forall|k: int| 0 <= k < subs.len() ==> (#[trigger] subs[k]).1 {
        assert forall|i: int, j: int| 0 <= i < n && 0 <= j < n implies #[trigger] proximo_estado(
            c0,
            n,
            n,
            fam,
            i,
            j,
        ) == c0(i, j) by {
            let k = lema_faixa_de(fs, n, i, 0);
            assert(subs[k].1);
            assert(estavel(c0, n, n, fam, fs[k].0 as int, fs[k].1 as int, 0, n));
        }
    }
    if estavel(c0, n, n, fam, 0, n, 0, n) {
        assert forall|k: int| 0 <= k < subs.len() implies (#[trigger] subs[k]).1 by {
            assert(sub_passo(t0, fam, fs[k].0 as int, fs[k].1 as int, 0, n, subs[k].0));
            assert forall|i: int, j: int|
                fs[k].0 <= i < fs[k].1 && 0 <= j < n implies #[trigger] proximo_estado(
                c0,
                n,
                n,
                fam,
                i,
                j,
            ) == c0(i, j) by {
                assert(0 <= i < n);
            }
        }
    }
}

impl ProcessoBootstrap {
    /// Infects the cell at row `i`, column `j`.
    pub(crate) fn infectar(&mut self, i: usize, j: usize)
        requires
            old(self).wf(),
            i < old(self).lado(),
            j < old(self).lado(),
        ensures
            final(self).wf(),
            final(self).familia() == old(self).familia(),
            final(self).lado() == old(self).lado(),
            final(self).passos() == old(self).passos(),
            final(self).terminado() == old(self).terminado(),
            forma_tabuleiro(final(self).tabuleiro_atual()) == forma_tabuleiro(old(self).tabuleiro_atual()),
            celulas_tabuleiro(final(self).tabuleiro_atual()) == celulas_tabuleiro(
                old(self).tabuleiro_atual(),
            ).insert((i as int, j as int), true),
    {
        self.tabuleiro.escrever(i, j, true);
    }

    /// Records one more step, after which the process is final.
    pub(crate) fn concluir(&mut self)
        requires
            old(self).passos() < u32::MAX,
        ensures
            final(self).tabuleiro_atual() == old(self).tabuleiro_atual(),
            final(self).familia() == old(self).familia(),
            final(self).lado() == old(self).lado(),
            final(self).wf() == old(self).wf(),
            final(self).passos() == old(self).passos() + 1,
            final(self).terminado(),
    {
        self.config_final = true;
        self.t += 1;
    }
}

/// `c1` has no infected cell on the board that `c2` lacks.
pub open spec fn contido_em(c1: spec_fn(int, int) -> bool, c2: spec_fn(int, int) -> bool, n1: int, n2: int) -> bool {
    forall|i: int, j: int| 0 <= i < n1 && 0 <= j < n2 && #[trigger] c1(i, j) ==> c2(i, j)
}

/// A step keeps every infected cell, and a board holding more infected
/// cells infects at least the same cells in a step.
pub proof fn lei_passo_monotono(
    c1: spec_fn(int, int) -> bool,
    c2: spec_fn(int, int) -> bool,
    n1: int,
    n2: int,
    fam: Seq<Seq<[i32; 2]>>,
)
    ensures
        contido_em(c1, passo(c1, n1, n2, fam), n1, n2),
        contido_em(c1, c2, n1, n2) ==> contido_em(passo(c1, n1, n2, fam), passo(c2, n1, n2, fam), n1, n2),
{
    if contido_em(c1, c2, n1, n2) {
        assert forall|i: int, j: int|
            0 <= i < n1 && 0 <= j < n2 && #[trigger] passo(c1, n1, n2, fam)(i, j) implies passo(
            c2,
            n1,
            n2,
            fam,
        )(i, j) by {
            if !c1(i, j) {
                let k = choose|k: int| 0 <= k < fam.len() && #[trigger] conjunto_infectado(c1, n1, n2, fam[k], i, j);
                let s = fam[k];
                assert forall|m: int| 0 <= m < s.len() implies infectada(c2, n1, n2, i + (#[trigger] s[m])[0], j + s[m][1]) by {
                    assert(infectada(c1, n1, n2, i + s[m][0], j + s[m][1]));
                }
                assert(conjunto_infectado(c2, n1, n2, fam[k], i, j));
            }
        }
    }
}

/// A step never lowers the number of infected cells of an `n` by `n` board.
pub proof fn lei_infectados_crescem(c: spec_fn(int, int) -> bool, n: int, fam: Seq<Seq<[i32; 2]>>)
    requires
        n >= 0,
    ensures
        infectadas(c, n, n) <= infectadas(passo(c, n, n, fam), n, n),
{
    lei_passo_monotono(c, c, n, n, fam);
    lema_contagem(c, passo(c, n, n, fam), n, n);
}

/// Every board reached by steps from `c0` lies within any board `d` that
/// holds `c0` and that no step changes. So the board where the process ends
/// is the least such board.
pub proof fn lei_contido_em_estavel(
    c0: spec_fn(int, int) -> bool,
    d: spec_fn(int, int) -> bool,
    n1: int,
    n2: int,
    fam: Seq<Seq<[i32; 2]>>,
    k: nat,
)
    requires
        contido_em(c0, d, n1, n2),
        estavel(d, n1, n2, fam, 0, n1, 0, n2),
    ensures
        contido_em(iterar(c0, n1, n2, fam, k), d, n1, n2),
    decreases k,
{
    if k > 0 {
        let anterior = iterar(c0, n1, n2, fam, (k - 1) as nat);
        lei_contido_em_estavel(c0, d, n1, n2, fam, (k - 1) as nat);
        lei_passo_monotono(anterior, d, n1, n2, fam);
        assert forall|i: int, j: int|
            0 <= i < n1 && 0 <= j < n2 && #[trigger] iterar(c0, n1, n2, fam, k)(i, j) implies d(i, j) by {
            assert(passo(d, n1, n2, fam)(i, j));
            assert(proximo_estado(d, n1, n2, fam, i, j) == d(i, j));
        }
    }
}

} // verus!
