//! Solucionador exato do problema do caixeiro viajante por forca bruta:
//! enumera todos os ciclos hamiltonianos de um grafo completo com pesos,
//! dados por uma matriz de adjacencia, e devolve o menor e o maior peso.
//!
//! O espaco de busca e o conjunto das permutacoes dos vertices com o
//! vertice inicial fixado, indexado pelo sistema de numeracao fatorial.

pub mod fatorial;
pub mod permutacao;
pub mod ciclo;
pub mod particao;
pub mod busca;
