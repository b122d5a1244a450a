//! Growth under the modified two-neighbour rule: in a board that no step
//! changes, two infected rectangles that touch fill the smallest rectangle
//! holding both.
use vstd::prelude::*;
use crate::bootstrap::{conjunto_infectado, estavel, infectada, maior_int, menor_int, propaga, proximo_estado};
use crate::bootstrap::dois_vizinhos::familia_dois_vizinhos_modificada;

verus! {

/// No step of the modified two-neighbour rule changes the `n` by `n` board `f`.
pub open spec fn fechado(f: spec_fn(int, int) -> bool, n: int) -> bool {
    estavel(f, n, n, familia_dois_vizinhos_modificada(), 0, n, 0, n)
}

/// Every cell of rows `a..b`, columns `c..d` is infected in `f`.
pub open spec fn bloco_infectado(f: spec_fn(int, int) -> bool, a: int, b: int, c: int, d: int) -> bool {
    forall|x: int, y: int| a <= x < b && c <= y < d ==> #[trigger] f(x, y)
}

/// A cell of the board with an infected neighbour above or below it and an
/// infected neighbour to its left or right is infected in a board that no
/// step changes.
pub proof fn lema_canto_infectado(f: spec_fn(int, int) -> bool, n: int, i: int, j: int, a: int, b: int)
    requires
        fechado(f, n),
        0 <= i < n,
        0 <= j < n,
        a == 1 || a == -1,
        b == 1 || b == -1,
        0 <= i + a < n,
        0 <= j + b < n,
        f(i + a, j),
        f(i, j + b),
    ensures
        f(i, j),
{
    let fam = familia_dois_vizinhos_modificada();
    let k: int = if a == 1 && b == 1 {
        0
    } else if a == -1 && b == 1 {
        1
    } else if a == -1 && b == -1 {
        2
    } else {
        3
    };
    let s = fam[k];
    assert(s.len() == 2);
    assert(infectada(f, n, n, i + a, j));
    assert(infectada(f, n, n, i, j + b));
    if k == 0 {
        assert(s[0][0] == 1 && s[0][1] == 0 && s[1][0] == 0 && s[1][1] == 1);
    } else if k == 1 {
        assert(s[0][0] == 0 && s[0][1] == 1 && s[1][0] == -1 && s[1][1] == 0);
    } else if k == 2 {
        assert(s[0][0] == -1 && s[0][1] == 0 && s[1][0] == 0 && s[1][1] == -1);
    } else {
        assert(s[0][0] == 0 && s[0][1] == -1 && s[1][0] == 1 && s[1][1] == 0);
    }
    assert forall|m: int| 0 <= m < s.len() implies infectada(f, n, n, i + (#[trigger] s[m])[0], j + s[m][1]) by {
        if m == 0 {
        } else {
        }
    }
    assert(conjunto_infectado(f, n, n, fam[k], i, j));
    assert(propaga(f, n, n, fam, i, j));
    assert(proximo_estado(f, n, n, fam, i, j) == f(i, j));
}

/// A row `i` of the board next to an infected stretch of row `i + a`,
/// columns `lo..hi`, with one infected cell `j0` in that stretch, is
/// infected along the whole stretch.
pub proof fn lema_linha(f: spec_fn(int, int) -> bool, n: int, i: int, a: int, j0: int, lo: int, hi: int)
    requires
        fechado(f, n),
        a == 1 || a == -1,
        0 <= i < n,
        0 <= i + a < n,
        0 <= lo <= j0 < hi <= n,
        f(i, j0),
        forall|y: int| lo <= y < hi ==> #[trigger] f(i + a, y),
    ensures
        forall|y: int| lo <= y < hi ==> #[trigger] f(i, y),
{
    assert forall|y: int| lo <= y < hi implies #[trigger] f(i, y) by {
        if y >= j0 {
            lema_linha_direita(f, n, i, a, j0, hi, y);
        } else {
            lema_linha_esquerda(f, n, i, a, j0, lo, y);
        }
    }
}

proof fn lema_linha_direita(f: spec_fn(int, int) -> bool, n: int, i: int, a: int, j0: int, hi: int, y: int)
    requires
        fechado(f, n),
        a == 1 || a == -1,
        0 <= i < n,
        0 <= i + a < n,
        0 <= j0 <= y < hi <= n,
        f(i, j0),
        forall|z: int| j0 <= z < hi ==> #[trigger] f(i + a, z),
    ensures
        f(i, y),
    decreases y - j0,
{
    if y > j0 {
        lema_linha_direita(f, n, i, a, j0, hi, y - 1);
        assert(f(i + a, y));
        lema_canto_infectado(f, n, i, y, a, -1);
    }
}

proof fn lema_linha_esquerda(f: spec_fn(int, int) -> bool, n: int, i: int, a: int, j0: int, lo: int, y: int)
    requires
        fechado(f, n),
        a == 1 || a == -1,
        0 <= i < n,
        0 <= i + a < n,
        0 <= lo <= y <= j0 < n,
        f(i, j0),
        forall|z: int| lo <= z <= j0 ==> #[trigger] f(i + a, z),
    ensures
        f(i, y),
    decreases j0 - y,
{
    if y < j0 {
        lema_linha_esquerda(f, n, i, a, j0, lo, y + 1);
        assert(f(i + a, y));
        lema_canto_infectado(f, n, i, y, a, 1);
    }
}

/// A column `j` of the board next to an infected stretch of column `j + b`,
/// rows `lo..hi`, with one infected cell `i0` in that stretch, is infected
/// along the whole stretch.
pub proof fn lema_coluna(f: spec_fn(int, int) -> bool, n: int, j: int, b: int, i0: int, lo: int, hi: int)
    requires
        fechado(f, n),
        b == 1 || b == -1,
        0 <= j < n,
        0 <= j + b < n,
        0 <= lo <= i0 < hi <= n,
        f(i0, j),
        forall|x: int| lo <= x < hi ==> #[trigger] f(x, j + b),
    ensures
        forall|x: int| lo <= x < hi ==> #[trigger] f(x, j),
{
    assert forall|x: int| lo <= x < hi implies #[trigger] f(x, j) by {
        if x >= i0 {
            lema_coluna_abaixo(f, n, j, b, i0, hi, x);
        } else {
            lema_coluna_acima(f, n, j, b, i0, lo, x);
        }
    }
}

proof fn lema_coluna_abaixo(f: spec_fn(int, int) -> bool, n: int, j: int, b: int, i0: int, hi: int, x: int)
    requires
        fechado(f, n),
        b == 1 || b == -1,
        0 <= j < n,
        0 <= j + b < n,
        0 <= i0 <= x < hi <= n,
        f(i0, j),
        forall|z: int| i0 <= z < hi ==> #[trigger] f(z, j + b),
    ensures
        f(x, j),
    decreases x - i0,
{
    if x > i0 {
        lema_coluna_abaixo(f, n, j, b, i0, hi, x - 1);
        assert(f(x, j + b));
        lema_canto_infectado(f, n, x, j, -1, b);
    }
}

proof fn lema_coluna_acima(f: spec_fn(int, int) -> bool, n: int, j: int, b: int, i0: int, lo: int, x: int)
    requires
        fechado(f, n),
        b == 1 || b == -1,
        0 <= j < n,
        0 <= j + b < n,
        0 <= lo <= x <= i0 < n,
        f(i0, j),
        forall|z: int| lo <= z <= i0 ==> #[trigger] f(z, j + b),
    ensures
        f(x, j),
    decreases i0 - x,
{
    if x < i0 {
        lema_coluna_acima(f, n, j, b, i0, lo, x + 1);
        assert(f(x, j + b));
        lema_canto_infectado(f, n, x, j, 1, b);
    }
}

/// The blocks of rows `a..b`, columns `c..d` and of rows `a2..b2`, columns
/// `c2..d2` overlap or touch, by a side or by a corner.
pub open spec fn blocos_tocam(a: int, b: int, c: int, d: int, a2: int, b2: int, c2: int, d2: int) -> bool {
    a2 <= b && b2 >= a && c2 <= d && d2 >= c
}

/// In a board that no step changes, two infected blocks that touch fill the
/// smallest block holding both: the first one grows a row or a column at a
/// time towards the second.
pub proof fn lema_crescer(
    f: spec_fn(int, int) -> bool,
    n: int,
    a: int,
    b: int,
    c: int,
    d: int,
    a2: int,
    b2: int,
    c2: int,
    d2: int,
)
    requires
        fechado(f, n),
        0 <= a < b <= n,
        0 <= c < d <= n,
        0 <= a2 < b2 <= n,
        0 <= c2 < d2 <= n,
        bloco_infectado(f, a, b, c, d),
        bloco_infectado(f, a2, b2, c2, d2),
        blocos_tocam(a, b, c, d, a2, b2, c2, d2),
    ensures
        bloco_infectado(f, menor_int(a, a2), maior_int(b, b2), menor_int(c, c2), maior_int(d, d2)),
    decreases (a - menor_int(a, a2)) + (maior_int(b, b2) - b) + (c - menor_int(c, c2)) + (maior_int(d, d2) - d),
{
    if b2 > b {
        // the row just below the first block
        let j0: int = if c2 < d && d2 > c {
            let j = maior_int(c, c2);
            assert(f(b, j));
            j
        } else if d2 == c {
            assert(f(b, c - 1));
            assert(f(b - 1, c));
            lema_canto_infectado(f, n, b, c, -1, -1);
            c
        } else {
            assert(c2 == d);
            assert(f(b, d));
            assert(f(b - 1, d - 1));
            lema_canto_infectado(f, n, b, d - 1, -1, 1);
            d - 1
        };
        assert forall|y: int| c <= y < d implies #[trigger] f(b + (-1), y) by {
            assert(f(b - 1, y));
        }
        lema_linha(f, n, b, -1, j0, c, d);
        assert forall|x: int, y: int| a <= x < b + 1 && c <= y < d implies #[trigger] f(x, y) by {
            if x == b {
            }
        }
        lema_crescer(f, n, a, b + 1, c, d, a2, b2, c2, d2);
    } else if a2 < a {
        // the row just above the first block
        let i = a - 1;
        let j0: int = if c2 < d && d2 > c {
            let j = maior_int(c, c2);
            assert(f(i, j));
            j
        } else if d2 == c {
            assert(f(i, c - 1));
            assert(f(a, c));
            lema_canto_infectado(f, n, i, c, 1, -1);
            c
        } else {
            assert(c2 == d);
            assert(f(i, d));
            assert(f(a, d - 1));
            lema_canto_infectado(f, n, i, d - 1, 1, 1);
            d - 1
        };
        assert forall|y: int| c <= y < d implies #[trigger] f(i + 1, y) by {
            assert(f(a, y));
        }
        lema_linha(f, n, i, 1, j0, c, d);
        assert forall|x: int, y: int| a - 1 <= x < b && c <= y < d implies #[trigger] f(x, y) by {
            if x == i {
            }
        }
        lema_crescer(f, n, a - 1, b, c, d, a2, b2, c2, d2);
    } else if d2 > d {
        // the column just right of the first block
        let i0: int = if a2 < b && b2 > a {
            let i = maior_int(a, a2);
            assert(f(i, d));
            i
        } else if b2 == a {
            assert(f(a - 1, d));
            assert(f(a, d - 1));
            lema_canto_infectado(f, n, a, d, -1, -1);
            a
        } else {
            assert(a2 == b);
            assert(f(b, d));
            assert(f(b - 1, d - 1));
            lema_canto_infectado(f, n, b - 1, d, 1, -1);
            b - 1
        };
        assert forall|x: int| a <= x < b implies #[trigger] f(x, d + (-1)) by {
            assert(f(x, d - 1));
        }
        lema_coluna(f, n, d, -1, i0, a, b);
        assert forall|x: int, y: int| a <= x < b && c <= y < d + 1 implies #[trigger] f(x, y) by {
            if y == d {
            }
        }
        lema_crescer(f, n, a, b, c, d + 1, a2, b2, c2, d2);
    } else if c2 < c {
        // the column just left of the first block
        let j = c - 1;
        let i0: int = if a2 < b && b2 > a {
            let i = maior_int(a, a2);
            assert(f(i, j));
            i
        } else if b2 == a {
            assert(f(a - 1, j));
            assert(f(a, c));
            lema_canto_infectado(f, n, a, j, -1, 1);
            a
        } else {
            assert(a2 == b);
            assert(f(b, j));
            assert(f(b - 1, c));
            lema_canto_infectado(f, n, b - 1, j, 1, 1);
            b - 1
        };
        assert forall|x: int| a <= x < b implies #[trigger] f(x, j + 1) by {
            assert(f(x, c));
        }
        lema_coluna(f, n, j, 1, i0, a, b);
        assert forall|x: int, y: int| a <= x < b && c - 1 <= y < d implies #[trigger] f(x, y) by {
            if y == j {
            }
        }
        lema_crescer(f, n, a, b, c - 1, d, a2, b2, c2, d2);
    }
}

} // verus!
