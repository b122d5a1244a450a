//! A text editor kept in a doubly linked list of characters, with a cursor
//! and a window of `N_LER` characters on each side of it.
use vstd::prelude::*;
use crate::lista_encadeada::ListaDupla;

verus! {

/// How many characters are visible on each side of the cursor.
pub const N_LER: usize = 50;

/// The mark shown at the cursor.
pub const CURSOR: char = '\u{2038}';

/// Where a cursor at `cursor` in a text of length `len` ends after moving
/// `passos` characters (to the left when negative), stopped at the ends.
pub open spec fn destino(cursor: int, passos: int, len: int) -> int {
    if passos > 0 {
        menor(cursor + passos, len - 1)
    } else if cursor + passos > 0 {
        cursor + passos
    } else {
        0
    }
}

/// The smaller of `a` and `b`.
pub open spec fn menor(a: int, b: int) -> int {
    if a < b {
        a
    } else {
        b
    }
}

/// The characters visible before a cursor at `pos` in `texto`.
pub open spec fn janela_antes(texto: Seq<char>, pos: int) -> Seq<char> {
    texto.subrange(pos - menor(pos, N_LER as int), pos)
}

/// The characters visible from a cursor at `pos` in `texto` on (the one under
/// the cursor first).
pub open spec fn janela_depois(texto: Seq<char>, pos: int) -> Seq<char> {
    texto.subrange(pos, pos + menor(N_LER as int, texto.len() - pos))
}

/// Joins the lines of a text into a list of characters: a line break between
/// two lines, and one after the last line when `quebra_final` says that the
/// text ended with one.
pub fn lista_de_linhas(linhas: &Vec<Vec<char>>, quebra_final: bool) -> (lista: ListaDupla<char>)
    ensures
        lista.wf(),
        lista@ == texto_de_linhas(linhas@.map_values(|l: Vec<char>| l@), quebra_final),
{
    let mut lista: ListaDupla<char> = ListaDupla::<char>::novo();
    let ghost ls = linhas@.map_values(|l: Vec<char>| l@);
    let mut i: usize = 0;
    proof {
        assert(ls.take(0) =~= Seq::<Seq<char>>::empty());
    }
    while i < linhas.len()
        invariant
            lista.wf(),
            ls == linhas@.map_values(|l: Vec<char>| l@),
            0 <= i <= linhas@.len(),
            lista@ == linhas_com_quebras(ls.take(i as int)),
        decreases linhas@.len() - i,
    {
        let linha = &linhas[i];
        let ghost antes = lista@;
        let mut j: usize = 0;
        while j < linha.len()
            invariant
                lista.wf(),
                0 <= j <= linha@.len(),
                lista@ == antes + linha@.take(j as int),
            decreases linha@.len() - j,
        {
            lista.colocar(linha[j]);
            proof {
                assert(linha@.take(j + 1) =~= linha@.take(j as int).push(linha@[j as int]));
                assert(antes + linha@.take(j + 1) =~= (antes + linha@.take(j as int)).push(
                    linha@[j as int],
                ));
            }
            j = j + 1;
        }
        lista.colocar('\n');
        proof {
            assert(linha@.take(j as int) =~= linha@);
            assert(ls.take(i + 1).drop_last() =~= ls.take(i as int));
            assert(ls[i as int] == linha@);
        }
        i = i + 1;
    }
    proof {
        assert(ls.take(i as int) =~= ls);
    }
    if !quebra_final && linhas.len() > 0 {
        proof {
            lista.lema_forma();
            assert(lista@.len() > 0);
        }
        let p = lista.ponta();
        proof {
            assert(lista.valido(p)) by {
                assert(lista.enderecos()[lista@.len() - 1] == p);
            }
            assert(lista.posicao(p) == lista@.len() - 1);
        }
        lista.deletar(p);
        proof {
            assert(ls.drop_last().push(ls.last()) =~= ls);
            assert(linhas_com_quebras(ls) == linhas_com_quebras(ls.drop_last()) + ls.last().push('\n'));
            assert(lista@ =~= linhas_com_quebras(ls.drop_last()) + ls.last());
        }
    }
    lista
}

/// The characters of the lines, each line followed by a line break.
pub open spec fn linhas_com_quebras(linhas: Seq<Seq<char>>) -> Seq<char>
    decreases linhas.len(),
{
    if linhas.len() == 0 {
        Seq::empty()
    } else {
        linhas_com_quebras(linhas.drop_last()) + linhas.last().push('\n')
    }
}

/// The text made of the lines: a line break between two lines, and one after
/// the last line when `quebra_final` holds.
pub open spec fn texto_de_linhas(linhas: Seq<Seq<char>>, quebra_final: bool) -> Seq<char> {
    if linhas.len() == 0 {
        Seq::empty()
    } else if quebra_final {
        linhas_com_quebras(linhas)
    } else {
        linhas_com_quebras(linhas.drop_last()) + linhas.last()
    }
}

/// A text being edited: the whole text in a list, the cursor (a position in
/// the text and the address of its cell), and the visible part: up to
/// `N_LER` characters before the cursor and up to `N_LER` from it on, with
/// the addresses of the first and of the last visible cell.
pub struct Editor {
    path: String,
    pos_cursor: u32,
    ponteiro_cursor: usize,
    ponteiro_inicio_visivel: usize,
    ponteiro_fim_visivel: usize,
    tamanho: usize,
    lista_total: ListaDupla<char>,
    visivel_antes: ListaDupla<char>,
    visivel_depois: ListaDupla<char>,
}

impl Editor {
    /// The text.
    pub closed spec fn texto(&self) -> Seq<char> {
        self.lista_total@
    }

    /// Position of the cursor in the text.
    pub closed spec fn cursor(&self) -> int {
        self.pos_cursor as int
    }

    /// Path of the file the text belongs to.
    pub closed spec fn caminho(&self) -> Seq<char> {
        self.path@
    }

    /// Visible characters before the cursor.
    pub closed spec fn antes(&self) -> Seq<char> {
        self.visivel_antes@
    }

    /// Visible characters from the cursor on.
    pub closed spec fn depois(&self) -> Seq<char> {
        self.visivel_depois@
    }

    pub closed spec fn wf(&self) -> bool {
        let t = self.lista_total@;
        let e = self.lista_total.enderecos();
        let pos = self.pos_cursor as int;
        &&& self.lista_total.wf()
        &&& self.visivel_antes.wf()
        &&& self.visivel_depois.wf()
        &&& self.tamanho == t.len()
        &&& t.len() <= u32::MAX
        &&& t.len() == 0 ==> pos == 0
        &&& t.len() > 0 ==> pos < t.len()
        &&& self.visivel_antes@ == janela_antes(t, pos)
        &&& self.visivel_depois@ == janela_depois(t, pos)
        &&& t.len() > 0 ==> self.ponteiro_cursor == e[pos]
        &&& t.len() > 0 ==> self.ponteiro_inicio_visivel == e[pos - menor(pos, N_LER as int)]
        &&& t.len() > 0 ==> self.ponteiro_fim_visivel == e[pos + menor(
            N_LER as int,
            t.len() - pos,
        ) - 1]
    }

    /// What every well-formed editor shows: the cursor is on a character of
    /// the text (at 0 when the text is empty), and the visible parts are the
    /// windows around it.
    pub proof fn lema_janelas(&self)
        requires
            self.wf(),
        ensures
            self.texto().len() > 0 ==> 0 <= self.cursor() < self.texto().len(),
            self.texto().len() == 0 ==> self.cursor() == 0,
            self.texto().len() <= u32::MAX,
            self.antes() == janela_antes(self.texto(), self.cursor()),
            self.depois() == janela_depois(self.texto(), self.cursor()),
    {
    }

    /// Opens the text `lista_total` of the file at `path`, with the cursor at
    /// its first character (an empty text is opened too).
    pub fn novo(path: String, lista_total: ListaDupla<char>) -> (r: Editor)
        requires
            lista_total.wf(),
            lista_total@.len() <= u32::MAX,
        ensures
            r.wf(),
            r.texto() == lista_total@,
            r.cursor() == 0,
            r.caminho() == path@,
    {
        let mut visivel_depois: ListaDupla<char> = ListaDupla::<char>::novo();
        let mut ponteiro_fim_visivel: usize = lista_total.cabeca();
        proof {
            lista_total.lema_forma();
        }
        {
            let mut it = lista_total.into_iter();
            let mut i: usize = 0;
            let mut continuar = true;
            while i < N_LER && continuar
                invariant
                    it.wf(),
                    lista_total.wf(),
                    it.elementos() == lista_total@,
                    it.enderecos() == lista_total.enderecos(),
                    visivel_depois.wf(),
                    0 <= i <= N_LER,
                    it.vistos() <= lista_total@.len(),
                    it.vistos() == i,
                    !continuar ==> it.vistos() == lista_total@.len(),
                    visivel_depois@ == lista_total@.take(it.vistos() as int),
                    it.vistos() > 0 ==> ponteiro_fim_visivel == lista_total.enderecos()[it.vistos() - 1],
                decreases N_LER - i + (if continuar {
                    1int
                } else {
                    0int
                }),
            {
                match it.next() {
                    Some(letra) => {
                        let ghost v0 = visivel_depois@;
                        visivel_depois.colocar(letra);
                        ponteiro_fim_visivel = it.endereco_atual();
                        proof {
                            assert(lista_total@.take(it.vistos() as int) =~= v0.push(letra));
                        }
                        i = i + 1;
                    },
                    None => {
                        ponteiro_fim_visivel = it.endereco_atual();
                        continuar = false;
                    },
                }
            }
            proof {
                let t = lista_total@;
                if continuar {
                    assert(i == N_LER);
                }
                assert(menor(N_LER as int, t.len() as int) == it.vistos());
                assert(janela_depois(t, 0) =~= t.take(it.vistos() as int));
            }
        }
        let r = Editor {
            path: path,
            pos_cursor: 0,
            ponteiro_cursor: lista_total.cabeca(),
            ponteiro_inicio_visivel: lista_total.cabeca(),
            ponteiro_fim_visivel: ponteiro_fim_visivel,
            tamanho: lista_total.n(),
            lista_total: lista_total,
            visivel_antes: ListaDupla::<char>::novo(),
            visivel_depois: visivel_depois,
        };
        proof {
            assert(janela_antes(r.lista_total@, 0) =~= Seq::<char>::empty());
            lista_total.lema_forma();
        }
        r
    }

    /// Moves the cursor one character to the right, unless it is on the last
    /// one. The text must not be empty.
    pub fn passo_direita(&mut self)
        requires
            old(self).wf(),
            old(self).texto().len() > 0,
        ensures
            final(self).wf(),
            final(self).texto() == old(self).texto(),
            final(self).caminho() == old(self).caminho(),
            final(self).cursor() == (if old(self).cursor() + 1 < old(self).texto().len() {
                old(self).cursor() + 1
            } else {
                old(self).cursor()
            }),
    {
        if self.pos_cursor == (self.tamanho - 1) as u32 {
            return ;
        }
        let ghost t = self.lista_total@;
        let ghost e = self.lista_total.enderecos();
        let ghost pos = self.pos_cursor as int;
        proof {
            self.lista_total.lema_forma();
            assert(e[pos] == self.ponteiro_cursor);
            assert(self.lista_total.posicao(self.ponteiro_cursor) == pos);
        }
        let conteudo_cursor = self.lista_total.ler(self.ponteiro_cursor);
        let proximo = self.lista_total.proxima(self.ponteiro_cursor).unwrap().1;
        self.pos_cursor += 1;
        self.ponteiro_cursor = proximo;
        self.visivel_antes.colocar(conteudo_cursor);
        assert(self.visivel_antes@.len() <= N_LER + 1);
        self.visivel_depois.deletar_cabeca();
        if self.visivel_antes.n() == N_LER + 1 {
            self.visivel_antes.deletar_cabeca();
            proof {
                let k = pos - menor(pos, N_LER as int);
                assert(e[k] == self.ponteiro_inicio_visivel);
                assert(self.lista_total.posicao(self.ponteiro_inicio_visivel) == k);
            }
            let p = self.lista_total.proxima(self.ponteiro_inicio_visivel).unwrap().1;
            self.ponteiro_inicio_visivel = p;
        }
        proof {
            let k = pos + menor(N_LER as int, t.len() - pos) - 1;
            assert(e[k] == self.ponteiro_fim_visivel);
            assert(self.lista_total.posicao(self.ponteiro_fim_visivel) == k);
        }
        match self.lista_total.proxima(self.ponteiro_fim_visivel) {
            None => {},
            Some((letra, apontador)) => {
                self.visivel_depois.colocar(letra);
                self.ponteiro_fim_visivel = apontador;
            },
        }
        proof {
            let p2 = pos + 1;
            assert(self.visivel_antes@ =~= janela_antes(t, p2));
            assert(self.visivel_depois@ =~= janela_depois(t, p2));
        }
    }

    /// Moves the cursor one character to the left, unless it is on the first one.
    pub fn passo_esquerda(&mut self)
        requires
            old(self).wf(),
        ensures
            final(self).wf(),
            final(self).texto() == old(self).texto(),
            final(self).caminho() == old(self).caminho(),
            final(self).cursor() == (if old(self).cursor() > 0 {
                old(self).cursor() - 1
            } else {
                old(self).cursor()
            }),
    {
        if self.pos_cursor == 0 {
            return ;
        }
        let ghost t = self.lista_total@;
        let ghost e = self.lista_total.enderecos();
        let ghost pos = self.pos_cursor as int;
        proof {
            self.lista_total.lema_forma();
            assert(e[pos] == self.ponteiro_cursor);
            assert(self.lista_total.posicao(self.ponteiro_cursor) == pos);
            assert(self.ponteiro_cursor != self.lista_total.spec_cabeca());
        }
        let (novo_conteudo_cursor, anterior) = self.lista_total.anterior_mut(self.ponteiro_cursor).unwrap();
        self.pos_cursor -= 1;
        self.ponteiro_cursor = anterior;
        proof {
            self.visivel_antes.lema_forma();
            self.visivel_depois.lema_forma();
        }
        let pa = self.visivel_antes.ponta();
        proof {
            assert(self.visivel_antes.valido(pa)) by {
                assert(self.visivel_antes.enderecos()[self.visivel_antes@.len() - 1] == pa);
            }
            assert(self.visivel_antes.posicao(pa) == self.visivel_antes@.len() - 1);
        }
        self.visivel_antes.deletar(pa);
        if self.visivel_depois.n() == N_LER {
            let pd = self.visivel_depois.ponta();
            proof {
                assert(self.visivel_depois.valido(pd)) by {
                    assert(self.visivel_depois.enderecos()[self.visivel_depois@.len() - 1] == pd);
                }
                assert(self.visivel_depois.posicao(pd) == self.visivel_depois@.len() - 1);
                let k = pos + menor(N_LER as int, t.len() - pos) - 1;
                assert(e[k] == self.ponteiro_fim_visivel);
                assert(self.lista_total.posicao(self.ponteiro_fim_visivel) == k);
                assert(self.ponteiro_fim_visivel != self.lista_total.spec_cabeca());
            }
            self.visivel_depois.deletar(pd);
            let a = self.lista_total.anterior(self.ponteiro_fim_visivel).unwrap().1;
            self.ponteiro_fim_visivel = a;
        }
        proof {
            self.visivel_depois.lema_forma();
            assert(self.visivel_depois.valido(self.visivel_depois.spec_cabeca())) by {
                assert(self.visivel_depois.enderecos()[0] == self.visivel_depois.spec_cabeca());
            }
        }
        let cd = self.visivel_depois.cabeca();
        self.visivel_depois.inserir_antes(cd, novo_conteudo_cursor);
        proof {
            let k = pos - menor(pos, N_LER as int);
            assert(e[k] == self.ponteiro_inicio_visivel);
            assert(self.lista_total.posicao(self.ponteiro_inicio_visivel) == k);
            assert(k == 0 ==> self.ponteiro_inicio_visivel == self.lista_total.spec_cabeca());
            assert(k > 0 ==> self.ponteiro_inicio_visivel != self.lista_total.spec_cabeca());
        }
        match self.lista_total.anterior(self.ponteiro_inicio_visivel) {
            None => {},
            Some((letra, apontador)) => {
                proof {
                    self.visivel_antes.lema_forma();
                    assert(self.visivel_antes.valido(self.visivel_antes.spec_cabeca())) by {
                        assert(self.visivel_antes.enderecos()[0] == self.visivel_antes.spec_cabeca());
                    }
                }
                let ca = self.visivel_antes.cabeca();
                self.visivel_antes.inserir_antes(ca, letra);
                self.ponteiro_inicio_visivel = apontador;
            },
        }
        proof {
            let p2 = pos - 1;
            assert(self.visivel_antes@ =~= janela_antes(t, p2));
            assert(self.visivel_depois@ =~= janela_depois(t, p2));
        }
    }

    /// Writes `c` before the cursor; the cursor stays on its character. The
    /// text must not be empty: the cursor needs a character to stand on.
    pub fn escrever(&mut self, c: char)
        requires
            old(self).wf(),
            0 < old(self).texto().len() < u32::MAX,
        ensures
            final(self).wf(),
            final(self).texto() == old(self).texto().insert(old(self).cursor(), c),
            final(self).cursor() == old(self).cursor() + 1,
            final(self).caminho() == old(self).caminho(),
    {
        let ghost t = self.lista_total@;
        let ghost e = self.lista_total.enderecos();
        let ghost pos = self.pos_cursor as int;
        proof {
            self.lista_total.lema_forma();
            assert(e[pos] == self.ponteiro_cursor);
            assert(self.lista_total.posicao(self.ponteiro_cursor) == pos);
        }
        self.lista_total.inserir_antes(self.ponteiro_cursor, c);
        let ghost t2 = self.lista_total@;
        let ghost e2 = self.lista_total.enderecos();
        proof {
            self.lista_total.lema_forma();
            assert(e2[pos + 1] == e[pos]);
            assert(self.lista_total.posicao(self.ponteiro_cursor) == pos + 1);
            let f = pos + menor(N_LER as int, t.len() - pos) - 1;
            assert(e2[f + 1] == e[f]);
        }
        self.visivel_antes.colocar(c);
        if self.visivel_antes.n() == N_LER + 1 {
            self.visivel_antes.deletar_cabeca();
            proof {
                let k = pos - N_LER as int;
                assert(e2[k] == e[k]);
                assert(e2[k] == self.ponteiro_inicio_visivel);
                assert(self.lista_total.posicao(self.ponteiro_inicio_visivel) == k);
                assert(e2[k + 1] == e[k + 1]);
            }
            let p = self.lista_total.proxima(self.ponteiro_inicio_visivel).unwrap().1;
            self.ponteiro_inicio_visivel = p;
        } else if self.pos_cursor == 0 {
            self.ponteiro_inicio_visivel = self.lista_total.cabeca();
        } else {
            proof {
                assert(e2[0] == e[0]);
            }
        }
        self.pos_cursor += 1;
        self.tamanho += 1;
        proof {
            assert(self.visivel_antes@ =~= janela_antes(t2, pos + 1));
            assert(self.visivel_depois@ =~= janela_depois(t2, pos + 1));
        }
    }

    /// Deletes the character under the cursor. The cursor then stands on the
    /// character that followed it, or, when it was on the last character, on
    /// the one before.
    pub fn deletar(&mut self)
        requires
            old(self).wf(),
            old(self).texto().len() > 1,
        ensures
            final(self).wf(),
            final(self).texto() == old(self).texto().remove(old(self).cursor()),
            final(self).cursor() == (if old(self).cursor() + 1 == old(self).texto().len() {
                old(self).cursor() - 1
            } else {
                old(self).cursor()
            }),
            final(self).caminho() == old(self).caminho(),
    {
        proof {
            self.lema_janelas();
        }
        if self.pos_cursor == (self.tamanho - 1) as u32 {
            self.deletar_ultimo();
        } else {
            self.deletar_no_meio();
        }
    }

    /// `deletar` with the cursor on the last character.
    #[verifier::spinoff_prover]
    fn deletar_ultimo(&mut self)
        requires
            old(self).wf(),
            old(self).texto().len() > 1,
            old(self).cursor() + 1 == old(self).texto().len(),
        ensures
            final(self).wf(),
            final(self).texto() == old(self).texto().remove(old(self).cursor()),
            final(self).cursor() == (if old(self).cursor() + 1 == old(self).texto().len() {
                old(self).cursor() - 1
            } else {
                old(self).cursor()
            }),
            final(self).caminho() == old(self).caminho(),
    {
        let ghost t = self.lista_total@;
        let ghost e = self.lista_total.enderecos();
        let ghost pos = self.pos_cursor as int;
        proof {
            self.lista_total.lema_forma();
            self.visivel_antes.lema_forma();
            self.visivel_depois.lema_forma();
            assert(e[pos] == self.ponteiro_cursor);
            assert(self.lista_total.posicao(self.ponteiro_cursor) == pos);
        }
        proof {
            assert(self.ponteiro_cursor != self.lista_total.spec_cabeca());
        }
        let (letra, endereco_anterior) = self.lista_total.anterior_mut(
            self.ponteiro_cursor,
        ).unwrap();
        self.pos_cursor -= 1;
        self.ponteiro_cursor = endereco_anterior;
        let pt = self.lista_total.ponta();
        proof {
            assert(self.lista_total.posicao(pt) == pos);
        }
        self.lista_total.deletar(pt);
        let ghost t2 = self.lista_total@;
        let ghost e2 = self.lista_total.enderecos();
        proof {
            self.lista_total.lema_forma();
            assert(e2[pos - 1] == e[pos - 1]);
            assert(self.lista_total.posicao(self.ponteiro_cursor) == pos - 1);
            assert(self.visivel_depois.valido(self.visivel_depois.spec_cabeca())) by {
                assert(self.visivel_depois.enderecos()[0] == self.visivel_depois.spec_cabeca());
            }
        }
        let cd = self.visivel_depois.cabeca();
        self.visivel_depois.inserir_antes(cd, letra);
        let pd = self.visivel_depois.ponta();
        proof {
            self.visivel_depois.lema_forma();
            assert(self.visivel_depois.valido(pd)) by {
                assert(self.visivel_depois.enderecos()[1] == pd);
            }
            assert(self.visivel_depois.posicao(pd) == 1);
        }
        self.visivel_depois.deletar(pd);
        let pa = self.visivel_antes.ponta();
        proof {
            let na = self.visivel_antes@.len() - 1;
            assert(self.visivel_antes.valido(pa)) by {
                assert(self.visivel_antes.enderecos()[na] == pa);
            }
            assert(self.visivel_antes.posicao(pa) == na);
        }
        self.visivel_antes.deletar(pa);
        let ghost k = pos - menor(pos, N_LER as int);
        proof {
            assert(e2[k] == e[k]);
            assert(e2[k] == self.ponteiro_inicio_visivel);
            assert(self.lista_total.posicao(self.ponteiro_inicio_visivel) == k);
            assert(k == 0 ==> self.ponteiro_inicio_visivel == self.lista_total.spec_cabeca());
            assert(k > 0 ==> self.ponteiro_inicio_visivel != self.lista_total.spec_cabeca());
        }
        if self.visivel_antes.n() == N_LER - 1 {
            if let Some((letra, endereco)) = self.lista_total.anterior(
                self.ponteiro_inicio_visivel,
            ) {
                proof {
                    self.visivel_antes.lema_forma();
                    assert(self.visivel_antes.valido(self.visivel_antes.spec_cabeca())) by {
                        assert(self.visivel_antes.enderecos()[0]
                            == self.visivel_antes.spec_cabeca());
                    }
                    assert(e2[k - 1] == e[k - 1]);
                }
                let ca = self.visivel_antes.cabeca();
                self.visivel_antes.inserir_antes(ca, letra);
                self.ponteiro_inicio_visivel = endereco;
            }
        }
        self.ponteiro_fim_visivel = self.ponteiro_cursor;
        self.tamanho -= 1;
        proof {
            assert(t2 =~= t.remove(pos));
            assert(self.visivel_antes@ =~= janela_antes(t2, pos - 1));
            assert(self.visivel_depois@ =~= janela_depois(t2, pos - 1));
        }
    }

    /// `deletar` with the cursor before the last character.
    #[verifier::spinoff_prover]
    fn deletar_no_meio(&mut self)
        requires
            old(self).wf(),
            old(self).texto().len() > 1,
            old(self).cursor() + 1 < old(self).texto().len(),
        ensures
            final(self).wf(),
            final(self).texto() == old(self).texto().remove(old(self).cursor()),
            final(self).cursor() == (if old(self).cursor() + 1 == old(self).texto().len() {
                old(self).cursor() - 1
            } else {
                old(self).cursor()
            }),
            final(self).caminho() == old(self).caminho(),
    {
        let ghost t = self.lista_total@;
        let ghost e = self.lista_total.enderecos();
        let ghost pos = self.pos_cursor as int;
        proof {
            self.lista_total.lema_forma();
            self.visivel_antes.lema_forma();
            self.visivel_depois.lema_forma();
            assert(e[pos] == self.ponteiro_cursor);
            assert(self.lista_total.posicao(self.ponteiro_cursor) == pos);
        }
        let ponteiro_cursor_atual = self.ponteiro_cursor;
        match self.lista_total.proxima_mut(self.ponteiro_cursor) {
            None => {
                return ;
            },
            Some((_letra, ponteiro)) => {
                self.ponteiro_cursor = ponteiro;
            },
        }
        self.lista_total.deletar(ponteiro_cursor_atual);
        let ghost t2 = self.lista_total@;
        let ghost e2 = self.lista_total.enderecos();
        let ghost f = pos + menor(N_LER as int, t.len() - pos) - 1;
        proof {
            self.lista_total.lema_forma();
            assert(e2[pos] == e[pos + 1]);
            assert(self.lista_total.posicao(self.ponteiro_cursor) == pos);
            assert(e2[f - 1] == e[f]);
            assert(self.lista_total.posicao(self.ponteiro_fim_visivel) == f - 1);
            let k = pos - menor(pos, N_LER as int);
            if k < pos {
                assert(e2[k] == e[k]);
            }
        }
        if self.pos_cursor == 0 {
            self.ponteiro_inicio_visivel = self.ponteiro_cursor;
        }
        self.visivel_depois.deletar_cabeca();
        match self.lista_total.proxima(self.ponteiro_fim_visivel) {
            None => {},
            Some((letra, endereco)) => {
                self.visivel_depois.colocar(letra);
                self.ponteiro_fim_visivel = endereco;
            },
        }
        self.tamanho -= 1;
        proof {
            assert(self.visivel_antes@ =~= janela_antes(t2, pos));
            assert(self.visivel_depois@ =~= janela_depois(t2, pos));
        }
    }

    /// Deletes the character before the cursor, if there is one.
    pub fn backspace(&mut self)
        requires
            old(self).wf(),
        ensures
            final(self).wf(),
            final(self).caminho() == old(self).caminho(),
            old(self).cursor() == 0 ==> final(self).texto() == old(self).texto()
                && final(self).cursor() == 0,
            old(self).cursor() > 0 ==> final(self).texto() == old(self).texto().remove(
                old(self).cursor() - 1,
            ) && final(self).cursor() == old(self).cursor() - 1,
    {
        if self.pos_cursor == 0 {
            return ;
        }
        self.passo_esquerda();
        self.deletar();
    }

    /// Moves the cursor `passos` characters to the right (to the left when
    /// `passos` is negative), stopping at the ends of the text. Moving right
    /// needs a text that is not empty.
    pub fn andar_multiplos(&mut self, passos: i32)
        requires
            old(self).wf(),
            passos != i32::MIN,
            passos > 0 ==> old(self).texto().len() > 0,
        ensures
            final(self).wf(),
            final(self).texto() == old(self).texto(),
            final(self).caminho() == old(self).caminho(),
            final(self).cursor() == destino(
                old(self).cursor(),
                passos as int,
                old(self).texto().len() as int,
            ),
            passos >= 0 && old(self).cursor() + passos < old(self).texto().len() ==> final(self).cursor()
                == old(self).cursor() + passos,
            passos >= 0 && old(self).texto().len() > 0 && old(self).cursor() + passos
                >= old(self).texto().len() ==> final(self).cursor() == old(self).texto().len() - 1,
            passos < 0 && old(self).cursor() + passos >= 0 ==> final(self).cursor() == old(self).cursor()
                + passos,
            passos < 0 && old(self).cursor() + passos < 0 ==> final(self).cursor() == 0,
    {
        let ghost t0 = self.texto();
        let ghost c0 = self.cursor();
        let ghost p0 = self.caminho();
        if passos > 0 {
            let mut i: i32 = 0;
            while i < passos
                invariant
                    self.wf(),
                    0 <= i <= passos,
                    self.texto() == t0,
                    self.caminho() == p0,
                    0 <= c0 < t0.len(),
                    self.cursor() == menor(c0 + i, t0.len() - 1),
                    passos > 0,
                decreases passos - i,
            {
                self.passo_direita();
                i += 1;
            }
        } else {
            let n: i32 = -passos;
            let mut i: i32 = 0;
            while i < n
                invariant
                    self.wf(),
                    0 <= i <= n,
                    n == -passos,
                    self.texto() == t0,
                    self.caminho() == p0,
                    0 <= c0,
                    t0.len() > 0 ==> c0 < t0.len(),
                    t0.len() == 0 ==> c0 == 0,
                    self.cursor() == (if c0 - i > 0 {
                        c0 - i
                    } else {
                        0
                    }),
                decreases n - i,
            {
                self.passo_esquerda();
                i += 1;
            }
        }
    }

    /// Moves the cursor to the last character. The text must not be empty.
    pub fn ir_final(&mut self)
        requires
            old(self).wf(),
            old(self).texto().len() > 0,
        ensures
            final(self).wf(),
            final(self).texto() == old(self).texto(),
            final(self).caminho() == old(self).caminho(),
            final(self).cursor() == old(self).texto().len() - 1,
    {
        let ghost t0 = self.texto();
        let ghost p0 = self.caminho();
        loop
            invariant
                self.wf(),
                self.texto() == t0,
                self.caminho() == p0,
                t0 == old(self).texto(),
                p0 == old(self).caminho(),
                t0.len() > 0,
            decreases t0.len() - self.cursor(),
        {
            self.passo_direita();
            if self.pos_cursor + 1 == self.tamanho as u32 {
                return ;
            }
        }
    }

    /// Moves the cursor to the first character.
    pub fn ir_inicio(&mut self)
        requires
            old(self).wf(),
        ensures
            final(self).wf(),
            final(self).texto() == old(self).texto(),
            final(self).caminho() == old(self).caminho(),
            final(self).cursor() == 0,
    {
        let ghost t0 = self.texto();
        let ghost p0 = self.caminho();
        loop
            invariant
                self.wf(),
                self.texto() == t0,
                self.caminho() == p0,
                t0 == old(self).texto(),
                p0 == old(self).caminho(),
            decreases self.cursor(),
        {
            self.passo_esquerda();
            if self.pos_cursor == 0 {
                return ;
            }
        }
    }

    /// Position of the cursor in the text.
    pub fn posicao_cursor(&self) -> (r: u32)
        requires
            self.wf(),
        ensures
            r == self.cursor(),
    {
        self.pos_cursor
    }

    /// The list holding the whole text.
    pub fn lista_total(&self) -> (r: &ListaDupla<char>)
        requires
            self.wf(),
        ensures
            r.wf(),
            r@ == self.texto(),
    {
        &self.lista_total
    }

    /// Length of the text.
    pub fn tamanho(&self) -> (r: usize)
        requires
            self.wf(),
        ensures
            r == self.texto().len(),
    {
        self.tamanho
    }

    /// Path of the file the text belongs to.
    pub fn caminho_arquivo(&self) -> (r: &String)
        ensures
            r@ == self.caminho(),
    {
        &self.path
    }

    /// The whole text.
    pub fn texto_total(&self) -> (r: Vec<char>)
        requires
            self.wf(),
        ensures
            r@ == self.texto(),
    {
        self.lista_total.elementos()
    }

    /// The visible characters before the cursor.
    pub fn texto_antes(&self) -> (r: Vec<char>)
        requires
            self.wf(),
        ensures
            r@ == self.antes(),
    {
        self.visivel_antes.elementos()
    }

    /// The visible characters from the cursor on.
    pub fn texto_depois(&self) -> (r: Vec<char>)
        requires
            self.wf(),
        ensures
            r@ == self.depois(),
    {
        self.visivel_depois.elementos()
    }

    /// What the screen shows: the visible characters before the cursor, the
    /// cursor mark `CURSOR`, and the visible characters from the cursor on.
    pub fn tela(&self) -> (r: Vec<char>)
        requires
            self.wf(),
        ensures
            r@ == self.antes() + seq![CURSOR] + self.depois(),
    {
        let mut r = self.visivel_antes.elementos();
        r.push(CURSOR);
        let mut d = self.visivel_depois.elementos();
        r.append(&mut d);
        r
    }
}

/// Writing a character and then erasing it with backspace gives back the
/// text and the cursor.
pub proof fn lei_escrever_e_apagar(t: Seq<char>, pos: int, c: char)
    requires
        0 <= pos < t.len(),
    ensures
        pos + 1 > 0,
        t.insert(pos, c).remove(pos + 1 - 1) == t,
        (pos + 1) - 1 == pos,
{
    assert(t.insert(pos, c).remove(pos) =~= t);
}

/// Moving right is taking steps to the right one after the other: no move
/// leaves the cursor where it was, a move of `k + 1` characters ends one
/// character after a move of `k` unless that one is already on the last
/// character, and a move ends `k` characters further on, or on the last
/// character when the text ends before that.
pub proof fn lei_passos_direita(cursor: int, k: int, len: int)
    requires
        0 <= cursor < len,
        k >= 0,
    ensures
        destino(cursor, 0, len) == cursor,
        destino(cursor, k + 1, len) == (if destino(cursor, k, len) + 1 < len {
            destino(cursor, k, len) + 1
        } else {
            destino(cursor, k, len)
        }),
        cursor <= destino(cursor, k, len) < len,
        cursor + k < len ==> destino(cursor, k, len) == cursor + k,
        cursor + k >= len ==> destino(cursor, k, len) == len - 1,
{
}

/// Moving left is taking steps to the left one after the other: a move of
/// `k + 1` characters ends one character before a move of `k` unless that
/// one is already on the first character, and a move ends `k` characters
/// back, or on the first character when the text starts before that.
pub proof fn lei_passos_esquerda(cursor: int, k: int, len: int)
    requires
        0 <= cursor < len,
        k >= 0,
    ensures
        destino(cursor, -(k + 1), len) == (if destino(cursor, -k, len) > 0 {
            destino(cursor, -k, len) - 1
        } else {
            destino(cursor, -k, len)
        }),
        0 <= destino(cursor, -k, len) <= cursor,
        cursor - k >= 0 ==> destino(cursor, -k, len) == cursor - k,
        cursor - k < 0 ==> destino(cursor, -k, len) == 0,
{
}

/// Moving the cursor `passos` characters and then `-passos` characters gives
/// back the cursor when the first move did not stop at an end of the text.
pub proof fn lei_ida_e_volta(cursor: int, passos: int, len: int)
    requires
        0 <= cursor < len,
        0 <= cursor + passos < len,
    ensures
        destino(destino(cursor, passos, len), -passos, len) == cursor,
{
}

/// The cursor always stays on a character of the text, wherever it moves.
pub proof fn lei_cursor_no_texto(cursor: int, passos: int, len: int)
    requires
        0 <= cursor < len,
    ensures
        0 <= destino(cursor, passos, len) < len,
{
}

} // verus!
