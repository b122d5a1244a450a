use algoritmos::editor_texto::{lista_de_linhas, Editor, CURSOR, N_LER};
use algoritmos::multiplicacao_inteiros::{maior_pot_2, preenche_vetor, Int};
use std::cmp::Ordering;

fn valor(x: Int) -> i32 {
    x.into()
}

#[test]
fn soma_da_a_soma_dos_valores() {
    for (a, b) in [(0, 0), (1, 1), (-5, -7), (123456, 654321), (-3, 3), (2, -9), (-1073741823, -1)] {
        assert_eq!(valor(Int::from(a) + Int::from(b)), a + b, "{} + {}", a, b);
    }
}

#[test]
fn soma_com_sinais_diferentes_fica_com_o_sinal_do_maior() {
    assert_eq!(valor(Int::from(11) + Int::from(-7)), 4);
    assert_eq!(valor(Int::from(-11) + Int::from(7)), -4);
    assert_eq!(valor(Int::from(-7) + Int::from(11)), 4);
    assert_eq!(valor(Int::from(7) + Int::from(-11)), -4);
    assert_eq!(valor(Int::from(11) - Int::from(7)), 4);
    assert_eq!(valor(Int::from(-11) - Int::from(-7)), -4);
}

#[test]
fn soma_e_comutativa() {
    for (a, b) in [(11, -7), (-7, 11), (0, 5), (-3, -9), (100, -100), (1 << 20, -(1 << 25))] {
        assert_eq!(valor(Int::from(a) + Int::from(b)), valor(Int::from(b) + Int::from(a)));
    }
}

#[test]
fn conversao_de_todo_o_intervalo_de_i32() {
    assert_eq!(valor(Int::from(1 << 30)), 1 << 30);
    assert_eq!(valor(Int::from(i32::MAX)), i32::MAX);
    assert_eq!(valor(Int::from(-i32::MAX)), -i32::MAX);
    assert_eq!(valor(Int::from(i32::MIN) + Int::from(1)), i32::MIN + 1);
    assert_eq!(Int::from(i32::MIN).compara_valor_abs(&Int::from(i32::MAX)), Ordering::Greater);
    assert_eq!(Int::from(1 << 30).compara_valor_abs(&Int::from((1 << 30) - 1)), Ordering::Greater);
}

#[test]
fn subtracao_e_negacao() {
    assert_eq!(valor(Int::from(3) - Int::from(10)), -7);
    assert_eq!(valor(Int::from(-4) - Int::from(-4)), 0);
    assert_eq!(valor(-(-Int::from(5))), 5);
    assert_eq!(valor(-Int::from(5)), -5);
    assert_eq!(valor(Int::from(-8).abs()), 8);
}

#[test]
fn multiplicacao_da_o_produto() {
    assert_eq!(valor(Int::from(6) * Int::from(7)), 42);
    assert_eq!(valor(Int::from(3) * Int::from(-2)), -6);
    assert_eq!(valor(Int::from(-3) * Int::from(-2)), 6);
    assert_eq!(valor(Int::from(0) * Int::from(-9)), 0);
    assert_eq!(valor(Int::from(-9) * Int::from(0)), 0);
    assert_eq!(valor(Int::from(46340) * Int::from(46340)), 46340 * 46340);
    assert_eq!(valor(Int::from(-32768) * Int::from(65535)), -32768 * 65535);
    for (a, b) in [(13, -7), (255, 256), (-1, 1), (1000, -999)] {
        assert_eq!(valor(Int::from(a) * Int::from(b)), a * b);
        assert_eq!(valor(Int::from(a) * Int::from(b)), valor(Int::from(b) * Int::from(a)));
    }
}

#[test]
fn conversao_ida_e_volta() {
    for v in [0, 1, -1, 2, 1023, -1024, 1073741823, -1073741823, 1073741824, 2147483647, -2147483647] {
        assert_eq!(valor(Int::from(v)), v);
    }
}

#[test]
fn comparacao_dos_valores_absolutos() {
    assert_eq!(Int::from(-9).compara_valor_abs(&Int::from(8)), Ordering::Greater);
    assert_eq!(Int::from(2).compara_valor_abs(&Int::from(-2)), Ordering::Equal);
    assert_eq!(Int::from(0).compara_valor_abs(&Int::from(1)), Ordering::Less);
}

#[test]
fn preencher_corta_e_maior_potencia() {
    assert_eq!(preenche_vetor(&vec![true, true, false], 2), vec![true, true]);
    assert_eq!(preenche_vetor(&vec![], 2), vec![false, false]);
    assert_eq!(maior_pot_2(1), (0, 1));
    assert_eq!(maior_pot_2(2), (1, 2));
    assert_eq!(maior_pot_2(100), (6, 64));
    assert_eq!(maior_pot_2(0x7fff_ffff), (30, 0x4000_0000));
    assert_eq!(maior_pot_2(0x8000_0000), (31, 0x8000_0000));
    assert_eq!(maior_pot_2(u32::MAX), (31, 0x8000_0000));
}

fn editor(texto: &str) -> Editor {
    let quebra_final = texto.ends_with('\n');
    let mut linhas: Vec<Vec<char>> = texto.split('\n').map(|l| l.chars().collect()).collect();
    if quebra_final {
        linhas.pop();
    }
    Editor::novo(String::from("arquivo.txt"), lista_de_linhas(&linhas, quebra_final))
}

fn s(v: Vec<char>) -> String {
    v.into_iter().collect()
}

#[test]
fn lista_de_linhas_poe_quebras() {
    let linhas = vec![vec!['a', 'b'], vec![], vec!['c']];
    assert_eq!(lista_de_linhas(&linhas, true).elementos(), vec!['a', 'b', '\n', '\n', 'c', '\n']);
    assert_eq!(lista_de_linhas(&linhas, false).elementos(), vec!['a', 'b', '\n', '\n', 'c']);
}

#[test]
fn lista_de_linhas_guarda_o_texto_como_esta() {
    let linhas = vec![vec!['a', 'b'], vec!['c', 'd']];
    assert_eq!(lista_de_linhas(&linhas, false).elementos(), vec!['a', 'b', '\n', 'c', 'd']);
    assert_eq!(lista_de_linhas(&linhas, false).n(), 5);
    assert_eq!(lista_de_linhas(&vec![], false).n(), 0);
    assert_eq!(lista_de_linhas(&vec![vec![]], true).elementos(), vec!['\n']);
    for texto in ["", "\n", "ab\ncd", "ab\ncd\n", "\n\nx", "uma linha"] {
        assert_eq!(s(editor(texto).texto_total()), texto);
    }
}

#[test]
fn editor_abre_texto_vazio() {
    let mut ed = editor("");
    assert_eq!(ed.tamanho(), 0);
    assert_eq!(ed.posicao_cursor(), 0);
    assert_eq!(s(ed.tela()), format!("{}", CURSOR));
    ed.passo_esquerda();
    ed.backspace();
    ed.ir_inicio();
    ed.andar_multiplos(0);
    ed.andar_multiplos(-5);
    assert_eq!(ed.posicao_cursor(), 0);
    assert_eq!(ed.texto_total(), Vec::<char>::new());
    assert_eq!(ed.texto_antes(), Vec::<char>::new());
    assert_eq!(ed.texto_depois(), Vec::<char>::new());
}

#[test]
fn editor_abre_com_o_cursor_no_inicio() {
    let ed = editor("abc\n");
    assert_eq!(ed.posicao_cursor(), 0);
    assert_eq!(s(ed.texto_total()), "abc\n");
    assert_eq!(s(ed.texto_antes()), "");
    assert_eq!(s(ed.texto_depois()), "abc\n");
    assert_eq!(s(ed.tela()), format!("{}abc\n", CURSOR));
    assert_eq!(ed.caminho_arquivo(), "arquivo.txt");
}

#[test]
fn editor_janelas_de_n_ler_caracteres() {
    let texto: String = (0..200).map(|i| char::from(b'a' + (i % 26) as u8)).collect();
    let mut ed = editor(&format!("{}\n", texto));
    let total: Vec<char> = ed.texto_total();
    assert_eq!(ed.texto_depois(), total[0..N_LER].to_vec());
    ed.andar_multiplos(120);
    assert_eq!(ed.posicao_cursor(), 120);
    assert_eq!(ed.texto_antes(), total[70..120].to_vec());
    assert_eq!(ed.texto_depois(), total[120..170].to_vec());
    ed.andar_multiplos(-120);
    assert_eq!(ed.posicao_cursor(), 0);
    assert_eq!(ed.texto_depois(), total[0..50].to_vec());
    ed.ir_final();
    assert_eq!(ed.posicao_cursor() as usize, total.len() - 1);
    assert_eq!(ed.texto_depois(), vec!['\n']);
    assert_eq!(ed.texto_antes(), total[150..200].to_vec());
    ed.passo_direita();
    assert_eq!(ed.posicao_cursor() as usize, total.len() - 1);
    ed.ir_inicio();
    assert_eq!(ed.posicao_cursor(), 0);
    ed.passo_esquerda();
    assert_eq!(ed.posicao_cursor(), 0);
}

#[test]
fn editor_escrever_e_apagar_devolve_o_texto() {
    let mut ed = editor("casa\n");
    ed.passo_direita();
    ed.passo_direita();
    ed.escrever('x');
    assert_eq!(s(ed.texto_total()), "caxsa\n");
    assert_eq!(ed.posicao_cursor(), 3);
    assert_eq!(s(ed.texto_antes()), "cax");
    ed.backspace();
    assert_eq!(s(ed.texto_total()), "casa\n");
    assert_eq!(ed.posicao_cursor(), 2);
    assert_eq!(s(ed.texto_antes()), "ca");
    assert_eq!(s(ed.texto_depois()), "sa\n");
}

#[test]
fn editor_escrever_no_inicio_e_deletar() {
    let mut ed = editor("ab\n");
    ed.escrever('z');
    assert_eq!(s(ed.texto_total()), "zab\n");
    assert_eq!(s(ed.tela()), format!("z{}ab\n", CURSOR));
    ed.ir_inicio();
    ed.deletar();
    assert_eq!(s(ed.texto_total()), "ab\n");
    assert_eq!(s(ed.texto_depois()), "ab\n");
    ed.deletar();
    assert_eq!(s(ed.texto_total()), "b\n");
    ed.ir_final();
    ed.deletar();
    // deleting the last character moves the cursor back
    assert_eq!(s(ed.texto_total()), "b");
    assert_eq!(ed.posicao_cursor(), 0);
    assert_eq!(s(ed.texto_depois()), "b");
    ed.backspace();
    assert_eq!(s(ed.texto_total()), "b");
}

#[test]
fn editor_deletar_no_fim_de_texto_longo_puxa_a_janela() {
    let texto: String = std::iter::repeat('q').take(120).collect();
    let mut ed = editor(&format!("{}\n", texto));
    ed.ir_final();
    ed.deletar();
    assert_eq!(ed.texto_total().len(), 120);
    assert_eq!(ed.posicao_cursor(), 119);
    assert_eq!(ed.texto_antes().len(), N_LER);
    assert_eq!(s(ed.texto_depois()), "q");
}
