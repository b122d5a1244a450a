use algoritmos::bootstrap::dois_vizinhos::{retangulos_tocam, BootstrapMod2Neighbor, ColecaoRetangulos};
use algoritmos::bootstrap::{
    array_para_vec, faixas, passo_sub, ErroBootstrap, FamiliaUpdate, ProcessoBootstrap, Tabuleiro,
};

fn familia_mod() -> FamiliaUpdate {
    FamiliaUpdate { v: vec![vec![[1, 0], [0, 1]], vec![[0, 1], [-1, 0]], vec![[-1, 0], [0, -1]], vec![[0, -1], [1, 0]]] }
}

fn familia_2n() -> FamiliaUpdate {
    let mut f = familia_mod();
    f.v.push(vec![[0, 1], [0, -1]]);
    f.v.push(vec![[1, 0], [-1, 0]]);
    f
}

fn tabuleiro(linhas: &[&str]) -> Tabuleiro {
    let n1 = linhas.len();
    let n2 = linhas[0].len();
    let v: Vec<bool> = linhas.iter().flat_map(|l| l.chars().map(|c| c == '#')).collect();
    Tabuleiro::de_vec(n1, n2, v).ok().unwrap()
}

fn desenho(t: &Tabuleiro) -> Vec<String> {
    array_para_vec(t).iter().map(|l| l.iter().map(|&b| if b { '#' } else { '.' }).collect()).collect()
}

fn aleatorio(n: usize, semente: u64, limite: u64) -> Tabuleiro {
    let mut x = semente;
    let mut v = Vec::new();
    for _ in 0..n * n {
        x = x.wrapping_mul(6364136223846793005).wrapping_add(1442695040888963407);
        v.push((x >> 33) % 100 < limite);
    }
    Tabuleiro::de_vec(n, n, v).ok().unwrap()
}

#[test]
fn tabuleiro_de_vec_e_erros_de_forma() {
    let t = tabuleiro(&["#..", "..#"]);
    assert_eq!(t.dimensoes(), (2, 3));
    assert_eq!(desenho(&t), vec!["#..", "..#"]);
    assert_eq!(Tabuleiro::de_vec(2, 2, vec![true; 3]).err(), Some(ErroBootstrap::FormaIncompativel));
    assert_eq!(Tabuleiro::de_vec(0, 5, vec![]).err(), None);
    assert_eq!(Tabuleiro::de_vec(usize::MAX, 2, vec![]).err(), Some(ErroBootstrap::FormaIncompativel));
}

#[test]
fn passo_sub_de_uma_parte() {
    let t = tabuleiro(&["#.#", ".#.", "..."]);
    let (sub, estavel) = passo_sub(3, &t, &familia_mod(), 0, 2, 0, 3).ok().unwrap();
    // (0,1) sees (1,1) below and (0,2) right; (1,0) sees (0,0) above and (1,1) right
    // and (1,2) sees (0,2) above and (1,1) left
    assert_eq!(desenho(&sub), vec!["###", "###"]);
    assert!(!estavel);
    let (sub, estavel) = passo_sub(3, &t, &familia_mod(), 2, 3, 1, 3).ok().unwrap();
    assert_eq!(desenho(&sub), vec![".."]);
    assert!(estavel);
    assert_eq!(passo_sub(3, &t, &familia_mod(), 1, 1, 0, 3).err(), Some(ErroBootstrap::ForaDosLimites));
    assert_eq!(passo_sub(3, &t, &familia_mod(), 0, 4, 0, 3).err(), Some(ErroBootstrap::ForaDosLimites));
    assert_eq!(passo_sub(3, &t, &familia_mod(), 0, 3, 2, 1).err(), Some(ErroBootstrap::ForaDosLimites));
}

#[test]
fn processo_serial_ate_o_fim() {
    let t = tabuleiro(&["#.#.", "....", "#...", "...."]);
    let mut p = ProcessoBootstrap::novo(4, t, familia_2n()).unwrap();
    assert_eq!(p.contar_infectados(), 3);
    p.atualiza_passo();
    assert_eq!(p.t(), 1);
    assert!(!p.config_final());
    p.resolver_total();
    assert!(p.config_final());
    assert_eq!(desenho(p.tabuleiro()), vec!["###.", "###.", "###.", "...."]);
    assert_eq!(p.contar_infectados(), 9);
    assert_eq!(p.t(), 5);
    let t_final = p.t();
    p.atualiza_passo();
    assert_eq!(p.t(), t_final);
}

#[test]
fn processo_novo_recusa_tabuleiro_que_nao_e_n_por_n() {
    assert!(ProcessoBootstrap::novo(3, tabuleiro(&["..", ".."]), familia_mod()).is_none());
    assert!(ProcessoBootstrap::novo(2, tabuleiro(&["..", ".."]), familia_mod()).is_some());
    assert!(BootstrapMod2Neighbor::novo(3, tabuleiro(&["..", ".."])).is_none());
}

#[test]
fn faixas_dividem_as_linhas() {
    assert_eq!(faixas(10, 3), vec![(0, 4), (4, 8), (8, 10)]);
    assert_eq!(faixas(3, 8), vec![(0, 1), (1, 2), (2, 3)]);
    assert_eq!(faixas(5, 1), vec![(0, 5)]);
}

#[test]
fn passo_por_faixas_igual_ao_serial() {
    for semente in 1..6 {
        let mut serial = ProcessoBootstrap::novo(16, aleatorio(16, semente, 15), familia_2n()).unwrap();
        let mut paralelo = ProcessoBootstrap::novo(16, aleatorio(16, semente, 15), familia_2n()).unwrap();
        while !serial.config_final() {
            serial.atualiza_passo();
            paralelo.passo_paralelo(3);
            assert_eq!(desenho(serial.tabuleiro()), desenho(paralelo.tabuleiro()));
            assert_eq!(serial.config_final(), paralelo.config_final());
            assert_eq!(serial.t(), paralelo.t());
        }
    }
}

#[test]
fn aplicar_faixas_recusa_faixas_erradas() {
    let mut p = ProcessoBootstrap::novo(4, aleatorio(4, 3, 30), familia_mod()).unwrap();
    let antes = desenho(p.tabuleiro());
    let sub = passo_sub(4, p.tabuleiro(), p.familia_update(), 0, 4, 0, 4).ok().unwrap();
    assert_eq!(p.aplicar_faixas(&vec![(0, 3)], vec![sub]), Err(ErroBootstrap::ForaDosLimites));
    let sub = passo_sub(4, p.tabuleiro(), p.familia_update(), 0, 2, 0, 4).ok().unwrap();
    assert_eq!(p.aplicar_faixas(&vec![(0, 4)], vec![sub]), Err(ErroBootstrap::FormaIncompativel));
    assert_eq!(p.aplicar_faixas(&vec![(0, 2), (2, 4)], vec![]), Err(ErroBootstrap::FormaIncompativel));
    assert_eq!(desenho(p.tabuleiro()), antes);
    assert_eq!(p.t(), 0);
}

#[test]
fn retangulos_que_se_tocam() {
    assert!(retangulos_tocam([0, 2, 0, 2], [2, 3, 2, 3]));
    assert!(retangulos_tocam([0, 2, 0, 2], [1, 3, 0, 1]));
    assert!(!retangulos_tocam([0, 2, 0, 2], [3, 4, 0, 2]));
    assert!(!retangulos_tocam([0, 2, 0, 2], [0, 2, 3, 5]));
}

#[test]
fn merge_funde_retangulos_que_se_tocam() {
    let mut a = ColecaoRetangulos::nova([0, 2, 0, 2]);
    a.inserir([0, 1, 1, 2]);
    let mut b = ColecaoRetangulos::nova([0, 2, 2, 4]);
    b.inserir([1, 2, 2, 3]);
    b.inserir([0, 1, 3, 4]);
    let m = a.merge(b);
    assert_eq!(m.limites(), [0, 2, 0, 4]);
    let mut r = m.lista();
    r.sort();
    assert_eq!(r, vec![[0, 2, 1, 4]]);
    let mut c = ColecaoRetangulos::nova([0, 4, 0, 4]);
    c.inserir([0, 1, 0, 1]);
    c.inserir([0, 1, 0, 1]);
    c.remover(&[2, 3, 2, 3]);
    assert_eq!(c.lista(), vec![[0, 1, 0, 1]]);
    c.remover(&[0, 1, 0, 1]);
    assert_eq!(c.lista(), Vec::<[usize; 4]>::new());
}

#[test]
fn resolver_sub_de_um_quadrado() {
    let t = tabuleiro(&["#...", ".#..", "....", "...#"]);
    let b = BootstrapMod2Neighbor::novo(4, t).unwrap();
    let mut r = b.resolver_sub(0, 0, 4).lista();
    r.sort();
    assert_eq!(r, vec![[0, 2, 0, 2], [3, 4, 3, 4]]);
    assert_eq!(b.resolver_sub(2, 2, 2).limites(), [2, 4, 2, 4]);
}

#[test]
fn metodos_dao_o_mesmo_resultado() {
    for semente in 1..8 {
        let n = 32;
        let mut serial = ProcessoBootstrap::novo(n, aleatorio(n, semente, 10), familia_mod()).unwrap();
        let mut paralelo = ProcessoBootstrap::novo(n, aleatorio(n, semente, 10), familia_mod()).unwrap();
        let mut dc = BootstrapMod2Neighbor::novo(n, aleatorio(n, semente, 10)).unwrap();
        serial.resolver_total();
        while !paralelo.config_final() {
            paralelo.passo_paralelo(8);
        }
        dc.resolver_total();
        assert!(dc.processo_bootstrap().config_final());
        assert_eq!(desenho(dc.processo_bootstrap().tabuleiro()), desenho(serial.tabuleiro()));
        assert_eq!(desenho(serial.tabuleiro()), desenho(paralelo.tabuleiro()));
        assert!(dc.processo_bootstrap().contar_infectados() >= aleatorio_infectados(n, semente, 10));
    }
}

fn aleatorio_infectados(n: usize, semente: u64, limite: u64) -> u64 {
    array_para_vec(&aleatorio(n, semente, limite)).iter().flatten().filter(|&&b| b).count() as u64
}

#[test]
fn dc_da_configuracao_estavel() {
    for semente in 20..25 {
        let n = 16;
        let mut dc = BootstrapMod2Neighbor::novo(n, aleatorio(n, semente, 20)).unwrap();
        dc.resolver_total();
        let celulas: Vec<bool> = array_para_vec(dc.processo_bootstrap().tabuleiro()).into_iter().flatten().collect();
        let mut p = ProcessoBootstrap::novo(n, Tabuleiro::de_vec(n, n, celulas).ok().unwrap(), familia_mod()).unwrap();
        let antes = desenho(p.tabuleiro());
        p.atualiza_passo();
        assert!(p.config_final());
        assert_eq!(desenho(p.tabuleiro()), antes);
        assert_eq!(p.t(), 1);
    }
}

#[test]
fn passo_paralelo_parado_no_final_e_com_uma_thread() {
    let mut p = ProcessoBootstrap::novo(5, aleatorio(5, 9, 40), familia_mod()).unwrap();
    let mut q = ProcessoBootstrap::novo(5, aleatorio(5, 9, 40), familia_mod()).unwrap();
    while !q.config_final() {
        q.atualiza_passo();
        p.passo_paralelo(1);
        assert_eq!(desenho(p.tabuleiro()), desenho(q.tabuleiro()));
        assert_eq!(p.t(), q.t());
    }
    assert!(p.config_final());
    let antes = desenho(p.tabuleiro());
    p.passo_paralelo(4);
    assert_eq!(desenho(p.tabuleiro()), antes);
    assert_eq!(p.t(), q.t());
}

#[test]
fn resolver_total_da_um_passo_a_mais_que_o_necessario() {
    let mut estavel = ProcessoBootstrap::novo(3, tabuleiro(&["...", "...", "..."]), familia_mod()).unwrap();
    estavel.resolver_total();
    assert!(estavel.config_final());
    assert_eq!(estavel.t(), 1);
    for semente in 1..5 {
        let mut p = ProcessoBootstrap::novo(12, aleatorio(12, semente, 20), familia_mod()).unwrap();
        let mut passos_ate_estavel = 0;
        let mut q = ProcessoBootstrap::novo(12, aleatorio(12, semente, 20), familia_mod()).unwrap();
        loop {
            let antes = desenho(q.tabuleiro());
            q.atualiza_passo();
            if desenho(q.tabuleiro()) == antes {
                break;
            }
            passos_ate_estavel += 1;
        }
        p.resolver_total();
        assert_eq!(p.t(), passos_ate_estavel + 1);
        assert_eq!(desenho(p.tabuleiro()), desenho(q.tabuleiro()));
    }
}
