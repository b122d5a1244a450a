use algoritmos::grafos::{busca_largura, Cor, Decoracao, Grafo, Profundidade};
use algoritmos::lista_encadeada::{ListaDupla, ListaEncadeada};
use algoritmos::tabela_chave_valor::{Conjunto, ConjuntoIteravel, TabelaCV};

fn elementos_conjunto(c: &ConjuntoIteravel<u32>) -> Vec<u32> {
    c.elementos()
}

#[test]
fn lista_inserir_e_deletar_apos_devolve_a_lista() {
    let mut lista: ListaEncadeada<u32> = ListaEncadeada::novo();
    for x in [1, 2, 3, 4] {
        lista.colocar(x);
    }
    let (_, segunda) = lista.proxima(lista.cabeca()).unwrap();
    lista.inserir_apos(segunda, 99);
    assert_eq!(lista.elementos(), vec![1, 2, 99, 3, 4]);
    lista.deletar_apos(segunda);
    assert_eq!(lista.elementos(), vec![1, 2, 3, 4]);
    assert_eq!(lista.n(), 4);
}

#[test]
fn lista_dupla_enderecos_sobrevivem_a_mudancas() {
    let mut lista: ListaDupla<char> = ListaDupla::novo();
    for c in "abcd".chars() {
        lista.colocar(c);
    }
    let (_, b) = lista.proxima(lista.cabeca()).unwrap();
    let (_, c) = lista.proxima(b).unwrap();
    lista.inserir_antes(b, 'x');
    lista.deletar(lista.cabeca());
    // b and c still hold their letters after the changes elsewhere
    assert_eq!(lista.ler(b), 'b');
    assert_eq!(lista.ler(c), 'c');
    assert_eq!(lista.elementos(), vec!['x', 'b', 'c', 'd']);
    lista.inserir_apos(c, 'y');
    lista.deletar(b);
    assert_eq!(lista.elementos(), vec!['x', 'c', 'y', 'd']);
    assert_eq!(lista.anterior(lista.cabeca()), None);
    assert_eq!(lista.anterior(c), Some(('x', lista.cabeca())));
}

#[test]
fn lista_dupla_reaproveita_celulas_livres() {
    let mut lista: ListaDupla<u32> = ListaDupla::novo();
    lista.colocar(1);
    lista.colocar(2);
    lista.deletar_cabeca();
    lista.deletar_cabeca();
    assert_eq!(lista.n(), 0);
    assert_eq!(lista.elementos(), Vec::<u32>::new());
    lista.colocar(3);
    lista.colocar(4);
    assert_eq!(lista.elementos(), vec![3, 4]);
    assert_eq!(lista.ler_cabeca(), (3, Some(lista.ponta())));
    lista.alterar(lista.ponta(), 5);
    assert_eq!(lista.elementos(), vec![3, 5]);
    lista.deletar_apos(lista.cabeca());
    assert_eq!(lista.ler_cabeca(), (3, None));
}

#[test]
fn iteradores_devolvem_na_ordem_e_depois_nada() {
    let mut lista: ListaDupla<u32> = ListaDupla::novo();
    for x in [7, 8, 9] {
        lista.colocar(x);
    }
    let mut it = lista.into_iter();
    assert_eq!(it.next(), Some(7));
    assert_eq!(it.next(), Some(8));
    assert_eq!(it.next(), Some(9));
    assert_eq!(it.endereco_atual(), lista.ponta());
    assert_eq!(it.next(), None);
    assert_eq!(it.next(), None);
    let vazia: ListaEncadeada<u32> = ListaEncadeada::novo();
    let mut it2 = vazia.into_iter();
    assert_eq!(it2.next(), None);
}

#[test]
fn tabela_ler_apos_escrever_e_remover() {
    let mut t = TabelaCV::<u64, u32>::novo(3);
    for k in 0..20u64 {
        t.inserir(&k, (k * 10) as u32);
    }
    for k in 0..20u64 {
        assert_eq!(t.ler(&k), Some(&((k * 10) as u32)));
    }
    t.inserir(&5, 555);
    assert_eq!(t.ler(&5), Some(&555));
    assert_eq!(t.ler(&6), Some(&60));
    assert_eq!(t.retirar(&5), Some(555));
    assert_eq!(t.ler(&5), None);
    assert_eq!(t.retirar(&5), None);
    assert!(!t.contem(&5));
    assert!(t.contem(&4));
    assert_eq!(t.ler(&1000), None);
}

#[test]
fn tabela_com_um_balde_e_chaves_negativas() {
    let mut t = TabelaCV::<i64, char>::novo(1);
    t.inserir(&-1, 'a');
    t.inserir(&i64::MIN, 'b');
    t.inserir(&i64::MAX, 'c');
    assert_eq!(t.ler(&-1), Some(&'a'));
    assert_eq!(t.ler(&i64::MIN), Some(&'b'));
    assert_eq!(t.ler(&i64::MAX), Some(&'c'));
    t.remover(&i64::MIN);
    assert_eq!(t.ler(&i64::MIN), None);
    assert_eq!(t.ler(&i64::MAX), Some(&'c'));
}

#[test]
fn conjunto_poe_e_tira() {
    let mut c = Conjunto::<char>::novo(7);
    assert!(!c.contem(&'z'));
    c.inserir(&'z');
    c.inserir(&'z');
    assert!(c.contem(&'z'));
    c.remover(&'z');
    assert!(!c.contem(&'z'));
    c.remover(&'z');
    assert!(!c.contem(&'z'));
}

#[test]
fn conjunto_iteravel_guarda_a_ordem_de_entrada() {
    let mut c = ConjuntoIteravel::<u32>::novo(4);
    for x in [5, 3, 9, 3, 5, 1] {
        c.inserir(&x);
    }
    assert_eq!(elementos_conjunto(&c), vec![5, 3, 9, 1]);
    c.remover(&9);
    assert_eq!(elementos_conjunto(&c), vec![5, 3, 1]);
    c.remover(&42);
    assert_eq!(elementos_conjunto(&c), vec![5, 3, 1]);
    c.inserir(&9);
    assert_eq!(elementos_conjunto(&c), vec![5, 3, 1, 9]);
}

#[test]
fn grafo_inserir_e_remover_elo_devolve_o_grafo() {
    let mut g = Grafo::novo(3);
    for v in [1, 2, 3] {
        g.inserir_vertice(v);
    }
    g.inserir_elo(1, 2);
    g.inserir_elo(2, 3);
    assert!(g.contem_elo(3, 2));
    g.remover_elo(3, 2);
    assert!(!g.contem_elo(2, 3));
    assert!(!g.contem_elo(3, 2));
    assert!(g.contem_elo(2, 1));
    // the vertex stays with its edges when inserted again
    g.inserir_vertice(1);
    assert!(g.contem_elo(1, 2));
    g.remover_elo(5, 6);
    assert!(g.contem_elo(1, 2));
    g.remover_vertice(9);
    assert!(g.contem_vertice(3));
}

#[test]
fn busca_largura_da_profundidades_e_pais() {
    let mut g = Grafo::novo(5);
    for i in 1..=6 {
        g.inserir_vertice(i);
    }
    g.inserir_elo(1, 2);
    g.inserir_elo(1, 3);
    g.inserir_elo(4, 5);
    g.inserir_elo(3, 4);
    let t = busca_largura(&g, 1);
    assert_eq!(
        t.ler(&1),
        Some(&Decoracao { cor: Cor::Laranja, profundidade: Profundidade::Finita(0), pai: None })
    );
    assert_eq!(
        t.ler(&2),
        Some(&Decoracao { cor: Cor::Laranja, profundidade: Profundidade::Finita(1), pai: Some(1) })
    );
    assert_eq!(
        t.ler(&4),
        Some(&Decoracao { cor: Cor::Laranja, profundidade: Profundidade::Finita(2), pai: Some(3) })
    );
    assert_eq!(
        t.ler(&5),
        Some(&Decoracao { cor: Cor::Laranja, profundidade: Profundidade::Finita(3), pai: Some(4) })
    );
    assert_eq!(
        t.ler(&6),
        Some(&Decoracao { cor: Cor::Branco, profundidade: Profundidade::Infinita, pai: None })
    );
    g.remover_vertice(3);
    let t2 = busca_largura(&g, 1);
    assert_eq!(t2.ler(&4).unwrap().cor, Cor::Branco);
    assert_eq!(t2.ler(&5).unwrap().profundidade, Profundidade::Infinita);
    assert_eq!(t2.ler(&2).unwrap().profundidade, Profundidade::Finita(1));
    assert_eq!(t2.ler(&3), None);
}

#[test]
fn texto_das_listas_em_decimal_e_caracteres() {
    let mut l: ListaEncadeada<i32> = ListaEncadeada::novo();
    assert_eq!(l.texto_numeros(), "");
    for n in [0, -7, 105, i32::MIN, i32::MAX, 9, 10] {
        l.colocar(n);
    }
    assert_eq!(l.texto_numeros(), "0,-7,105,-2147483648,2147483647,9,10,");
    let mut d: ListaDupla<i32> = ListaDupla::novo();
    d.colocar(-1);
    d.colocar(20);
    assert_eq!(d.texto_numeros(), "-1,20,");
    let mut c: ListaDupla<char> = ListaDupla::novo();
    assert_eq!(c.texto(), "");
    for x in "olá\n".chars() {
        c.colocar(x);
    }
    assert_eq!(c.texto(), "olá\n");
}

#[test]
fn conjunto_de_palavras_como_dicionario() {
    let mut conj = Conjunto::<String>::novo(2);
    for s in ["a", "Aarao", "aba", "abacate", "abacateiro", "abacateiros", "abacates", "casa", "lagartixa"] {
        conj.inserir(&s.to_string());
        assert!(conj.contem(&s.to_string()));
    }
    assert!(conj.contem(&"casa".to_string()));
    assert!(conj.contem(&"lagartixa".to_string()));
    assert!(!conj.contem(&"largatixa".to_string()));
    assert!(conj.contem(&"abacate".to_string()));
    conj.remover(&"abacate".to_string());
    assert!(!conj.contem(&"abacate".to_string()));
    assert!(conj.contem(&"abacates".to_string()));
    assert!(!conj.contem(&"Lagrange".to_string()));
    conj.inserir(&"Lagrange".to_string());
    assert!(conj.contem(&"Lagrange".to_string()));
    assert!(!conj.contem(&"".to_string()));
    conj.inserir(&"".to_string());
    assert!(conj.contem(&"".to_string()));
}

#[test]
fn tabela_com_chaves_de_texto() {
    let mut t = TabelaCV::<String, i32>::novo(2);
    for s in ["a", "Aarao", "aba", "abacate", "abacateiro", "abacateiros", "abacates", "casa", "lagartixa"] {
        t.inserir(&s.to_string(), 1);
    }
    assert_eq!(t.ler(&"a".to_string()), Some(&1));
    t.inserir(&"casa".to_string(), 7);
    assert_eq!(t.ler(&"casa".to_string()), Some(&7));
    assert_eq!(t.retirar(&"casa".to_string()), Some(7));
    assert_eq!(t.ler(&"casa".to_string()), None);
    assert_eq!(t.ler(&"ç".to_string()), None);
}
