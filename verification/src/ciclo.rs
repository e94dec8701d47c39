//! Avaliacao do peso de um ciclo hamiltoniano dado pela ordem de visita
//! dos vertices e pela matriz de adjacencia.

use vstd::prelude::*;

verus! {

/// A matriz e quadrada: cada linha tem tantas colunas quantas linhas.
pub open spec fn matriz_quadrada(grafo: Seq<Seq<u32>>) -> bool {
    forall|i: int| 0 <= i < grafo.len() ==> (#[trigger] grafo[i]).len() == grafo.len()
}

/// O caminho so visita vertices da matriz.
pub open spec fn caminho_valido(caminho: Seq<usize>, n: nat) -> bool {
    forall|k: int| 0 <= k < caminho.len() ==> (#[trigger] caminho[k]) < n
}

/// A soma dos pesos das arestas do ciclo a partir da posicao `i`:
/// de cada vertice ao seguinte, e do ultimo de volta ao primeiro.
pub open spec fn soma_arestas(caminho: Seq<usize>, grafo: Seq<Seq<u32>>, i: nat) -> nat
    decreases caminho.len() - i,
{
    if i >= caminho.len() {
        0
    } else {
        (grafo[caminho[i as int] as int][caminho[((i + 1) % caminho.len()) as int] as int]
            as nat) + soma_arestas(caminho, grafo, i + 1)
    }
}

/// O peso total do ciclo hamiltoniano induzido pela ordem `caminho`.
pub open spec fn peso_do_ciclo_espec(caminho: Seq<usize>, grafo: Seq<Seq<u32>>) -> nat {
    soma_arestas(caminho, grafo, 0)
}

/// Cada parcela restante cabe em `(len - i) * (2^32 - 1)`.
proof fn lema_soma_limite(caminho: Seq<usize>, grafo: Seq<Seq<u32>>, i: nat)
    requires
        i <= caminho.len(),
    ensures
        soma_arestas(caminho, grafo, i) <= (caminho.len() - i) * 0xffff_ffff,
    decreases caminho.len() - i,
{
    if i < caminho.len() {
        lema_soma_limite(caminho, grafo, i + 1);
        assert(grafo[caminho[i as int] as int][caminho[((i + 1) % caminho.len()) as int] as int]
            <= 0xffff_ffff);
        assert((caminho.len() - i - 1) * 0xffff_ffff + 0xffff_ffff == (caminho.len() - i)
            * 0xffff_ffff) by (nonlinear_arith);
    }
}

/// O peso do ciclo fica abaixo de `len * (2^32 - 1)`.
pub proof fn lema_peso_limite(caminho: Seq<usize>, grafo: Seq<Seq<u32>>)
    ensures
        peso_do_ciclo_espec(caminho, grafo) <= caminho.len() * 0xffff_ffff,
{
    lema_soma_limite(caminho, grafo, 0);
}

/// Soma os pesos das arestas do ciclo: de cada vertice ao seguinte na
/// ordem dada, e do ultimo de volta ao primeiro.
pub fn peso_do_ciclo(caminho: &Vec<usize>, grafo: &Vec<Vec<u32>>) -> (peso: u64)
    requires
        matriz_quadrada(grafo@.map_values(|linha: Vec<u32>| linha@)),
        caminho_valido(caminho@, grafo@.len() as nat),
        caminho@.len() <= 0xffff_ffff,
    ensures
        peso == peso_do_ciclo_espec(caminho@, grafo@.map_values(|linha: Vec<u32>| linha@)),
{
    let ghost g = grafo@.map_values(|linha: Vec<u32>| linha@);
    let mut peso: u64 = 0;
    let mut indice: usize = 0;
    proof {
        lema_soma_limite(caminho@, g, 0);
    }
    while indice < caminho.len()
        invariant
            indice <= caminho@.len(),
            caminho@.len() <= 0xffff_ffff,
            matriz_quadrada(g),
            caminho_valido(caminho@, g.len() as nat),
            g == grafo@.map_values(|linha: Vec<u32>| linha@),
            peso + soma_arestas(caminho@, g, indice as nat) == peso_do_ciclo_espec(caminho@, g),
            peso_do_ciclo_espec(caminho@, g) <= caminho@.len() * 0xffff_ffff,
        decreases caminho@.len() - indice,
    {
        proof {
            assert(caminho@.len() * 0xffff_ffff <= 0xffff_ffff * 0xffff_ffff)
                by (nonlinear_arith)
                requires
                    caminho@.len() <= 0xffff_ffff,
            ;
        }
        let vizinho = if indice + 1 == caminho.len() {
            0
        } else {
            indice + 1
        };
        proof {
            if indice + 1 < caminho@.len() {
                vstd::arithmetic::div_mod::lemma_small_mod((indice + 1) as nat, caminho@.len() as nat);
            } else {
                assert((indice + 1) as nat % caminho@.len() as nat == 0) by {
                    vstd::arithmetic::div_mod::lemma_mod_self_0(caminho@.len() as int);
                }
            }
            assert(vizinho as nat == (indice + 1) as nat % caminho@.len());
            assert(grafo@[caminho@[indice as int] as int]@ == g[caminho@[indice as int] as int]);
        }
        let de = caminho[indice];
        let para = caminho[vizinho];
        let aresta = grafo[de][para];
        peso = peso + aresta as u64;
        indice += 1;
    }
    peso
}

} // verus!
