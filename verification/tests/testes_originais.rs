use algoritmos::grafos::Grafo;
use algoritmos::lista_encadeada::{ListaDupla, ListaEncadeada};
use algoritmos::multiplicacao_inteiros::{preenche_vetor, Int};
use algoritmos::tabela_chave_valor::{Conjunto, ConjuntoIteravel, TabelaCV};

#[test]
fn teste_erro() {
    assert!(true)
}

#[test]
fn _teste_bom_dia() {
    let mut lista: ListaEncadeada<char> = ListaEncadeada::novo();
    println!("Início");
    let mensagem: &str = "Bom dia!";
    let mut mensagem_fila = mensagem.chars();
    let mut letra_correta: char;
    lista.colocar('A');
    assert_eq!("A", lista.texto());
    lista.deletar_cabeca();
    for letra in mensagem.chars() {
        lista.colocar(letra);
        println!("{}", letra);
        letra_correta = mensagem_fila.next().unwrap();
        assert_eq!(letra_correta, letra);
    }
    assert_eq!("Bom dia!", lista.texto());
    println!("Escrevi\nLendo:");
    let mut endereco: usize = lista.cabeca();
    let mut pos_inserir: usize = lista.cabeca();
    let conteudo: char = lista.ler_cabeca().0;
    println!("{}", conteudo);
    for _i in 1..mensagem.chars().count() {
        let (conteudo, end) = lista.proxima_mut(endereco).expect("Não chegamos ao fim da lista");
        endereco = end;
        println!("{}", conteudo);
        if conteudo == 'm' {
            pos_inserir = endereco
        }
    }
    lista.inserir_apos(pos_inserir, 's');
    println!("\nTerminei de inserir");
    println!("{}", lista.texto());
    assert_eq!("Boms dia!", lista.texto());
    println!("Inserindo exclamação!");
    let (_c, pos_apos) = lista.proxima_mut(pos_inserir).expect("Não chegamos ao fim da lista");
    lista.alterar(pos_apos, '!');
    println!("{}", lista.texto());
    assert_eq!("Bom! dia!", lista.texto());
    println!("Removendo exclamação!");
    lista.deletar_apos(pos_inserir);
    println!("{}", lista.texto());
    assert_eq!("Bom dia!", lista.texto());
    println!("Removendo a primeira palavra");
    for _i in 1..=4 {
        lista.deletar_cabeca();
    }
    println!("{}", lista.texto());
    assert_eq!("dia!", lista.texto());
}

#[test]
fn _teste_numerico() {
    println!("Iniciando teste com dados numéricos e iterador");
    let numeros: [i32; 5] = [10, 20, 30, 40, 50];
    let mut lista: ListaEncadeada<i32> = ListaEncadeada::novo();
    for n in numeros {
        lista.colocar(n)
    }
    let mut it = lista.into_iter();
    while let Some(elem) = it.next() {
        println!("{},", elem);
    }
    println!("{}", lista.texto_numeros());
    let s = String::from("10,20,30,40,50,");
    assert_eq!(s, lista.texto_numeros());
}

#[test]
fn _teste_lista_dupla() {
    let mut lista: ListaDupla<char> = ListaDupla::novo();
    let mensagem: &str = "Palavra";
    for letra in mensagem.chars() {
        lista.colocar(letra);
        println!("{}", letra);
    }
    assert_eq!(lista.texto(), "Palavra");
    let mut endereco: usize = lista.ponta();
    println!("\nInserindo exclamações entre as letras");
    for _i in 1..mensagem.chars().count() {
        lista.inserir_antes(endereco, '!');
        let (_c, end) = lista.anterior_mut(endereco).expect("Não estamos no início da lista");
        let (_c, end) = lista.anterior_mut(end).expect("Não estamos no início da lista");
        endereco = end;
    }
    println!("{}", lista.texto());
    assert_eq!(lista.texto(), "P!a!l!a!v!r!a");
}

#[test]
fn teste_preencher() {
    let u = vec![true, false, true];
    let v = preenche_vetor(&u, 5);
    println!("{:?}", v);
    assert_eq!(v, vec![true, false, true, false, false])
}

#[test]
fn teste_conversao_soma() {
    let dez = Int::from(-10);
    println!("{:?}", dez);
    let dez_reconvertido: i32 = dez.into();
    println!("{}", dez_reconvertido);
    assert_eq!(dez_reconvertido, -10);
    let x = Int::from(53);
    let y = Int::from(47);
    println!("x = {:?}", x);
    println!("y = {:?}", y);
    let soma = x + y;
    println!("x+y = {:?}", soma);
    let soma_i32: i32 = soma.into();
    println!("soma = {}", soma_i32);
    assert_eq!(soma_i32, 100);
    let z = Int::from(7);
    let w = Int::from(-11);
    println!("7 = z = {:?}", z);
    println!("-11 = w = {:?}", w);
    let soma = z + w;
    println!("z+w = {:?}", soma);
    let soma_i32: i32 = soma.into();
    println!("7-11 = {}", soma_i32);
    assert_eq!(soma_i32, -4);
}

#[test]
fn teste_tabela() {
    let mut t = TabelaCV::<char, i32>::novo(5);
    assert_eq!(t.ler(&'a'), None);
    t.inserir(&'a', 1);
    t.inserir(&'b', 2);
    t.inserir(&'h', 8);
    assert_eq!(t.ler(&'a'), Some(&1));
    assert_eq!(t.ler(&'b'), Some(&2));
    t.inserir(&'b', 80);
    assert_eq!(t.ler(&'b'), Some(&80));
    t.remover(&'b');
    assert_eq!(t.ler(&'b'), None);
    t.remover(&'b');
    assert_eq!(t.ler(&'b'), None);
}

#[test]
fn teste_conjunto() {
    let mut conj = Conjunto::<i32>::novo(1000);
    for i in 1..=10000 {
        conj.inserir(&i)
    }
    for i in 1..=10000 {
        assert!(conj.contem(&i));
    }
    conj.remover(&7);
    assert!(!conj.contem(&7));
}

#[test]
fn teste_conjunto_iteravel() {
    let mut conj = ConjuntoIteravel::<i32>::novo(100);
    for i in 1..=10 {
        conj.inserir(&i)
    }
    for i in 1..=10 {
        assert!(conj.contem(&i));
    }
    conj.remover(&7);
    assert!(!conj.contem(&7));
    let mut v = Vec::<i32>::new();
    let mut it = conj.into_iter();
    while let Some(item) = it.next() {
        println!("{}", item);
        v.push(item);
    }
    assert!(v == vec![1, 2, 3, 4, 5, 6, 8, 9, 10]);
}

#[test]
fn teste_grafo() {
    let mut g = Grafo::novo(5);
    for i in 1..=5 {
        g.inserir_vertice(i);
    }
    g.inserir_elo(1, 2);
    g.inserir_elo(1, 3);
    g.inserir_elo(4, 5);
    for i in 1..=5 {
        assert!(g.contem_vertice(i));
    }
    assert!(g.contem_elo(1, 2));
    assert!(g.contem_elo(3, 1));
    assert!(!g.contem_elo(4, 1));
    assert!(g.contem_elo(4, 5));
    assert!(!g.contem_elo(5, 3));
    assert!(!g.contem_vertice(6));
    g.remover_vertice(1);
    assert!(!g.contem_vertice(1));
    assert!(!g.contem_elo(1, 2));
}
