pub mod lista_encadeada;
pub mod tabela_chave_valor;
pub mod multiplicacao_inteiros;
pub mod grafos;
pub mod editor_texto;
pub mod bootstrap;
