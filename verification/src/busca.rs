//! A busca exaustiva: cada trabalhador percorre a sua faixa de indices
//! de permutacao, avalia cada ciclo e anuncia melhorias locais
//! estritas; o agregador reduz os anuncios ao minimo e maximo globais.

use vstd::prelude::*;
use crate::fatorial::{fatorial_de, lema_fatorial_positivo, lema_fatorial_nao_decrescente};
use crate::permutacao::{
    enesima_permutacao, estritamente_crescente, nao_decrescente, sem_duplicatas, e_sucessora,
    lex_menor, lex_menor_igual, lema_lex_antissimetrica, lema_sucessora_da_enesima,
    lema_enesima_elementos, lema_mesmo_multiset_sem_duplicatas, n_esima_ordem_lexicografica,
    proxima_ordem_lexicografica,
};
use crate::ciclo::{matriz_quadrada, caminho_valido, peso_do_ciclo_espec, peso_do_ciclo,
    lema_peso_limite};

verus! {

/// A permutacao identidade `0, 1, ..., n-1`, o ponto de partida da
/// enumeracao.
pub open spec fn identidade(n: nat) -> Seq<usize> {
    Seq::new(n, |i: int| i as usize)
}

/// O peso do ciclo dado pela permutacao de indice `r` dos vertices.
pub open spec fn peso_da_enesima(grafo: Seq<Seq<u32>>, r: nat) -> nat {
    peso_do_ciclo_espec(enesima_permutacao(identidade(grafo.len() as nat), r), grafo)
}

/// `w` e o menor peso entre os ciclos de indice em `[a, b)`.
pub open spec fn e_menor_no_intervalo(grafo: Seq<Seq<u32>>, a: nat, b: nat, w: nat) -> bool {
    &&& exists|r: nat| a <= r < b && #[trigger] peso_da_enesima(grafo, r) == w
    &&& forall|r: nat| a <= r < b ==> #[trigger] peso_da_enesima(grafo, r) >= w
}

/// `w` e o maior peso entre os ciclos de indice em `[a, b)`.
pub open spec fn e_maior_no_intervalo(grafo: Seq<Seq<u32>>, a: nat, b: nat, w: nat) -> bool {
    &&& exists|r: nat| a <= r < b && #[trigger] peso_da_enesima(grafo, r) == w
    &&& forall|r: nat| a <= r < b ==> #[trigger] peso_da_enesima(grafo, r) <= w
}

/// O menor e o maior peso de um intervalo sao unicos: dois resultados
/// que satisfazem a mesma caracterizacao coincidem. E por isso que o
/// minimo e o maximo globais nao dependem de quantos trabalhadores
/// repartiram a busca.
pub proof fn lema_extremos_unicos(grafo: Seq<Seq<u32>>, a: nat, b: nat, w1: nat, w2: nat)
    requires
        e_menor_no_intervalo(grafo, a, b, w1) || e_maior_no_intervalo(grafo, a, b, w1),
        e_menor_no_intervalo(grafo, a, b, w1) ==> e_menor_no_intervalo(grafo, a, b, w2),
        e_maior_no_intervalo(grafo, a, b, w1) ==> e_maior_no_intervalo(grafo, a, b, w2),
    ensures
        w1 == w2,
{
}

/// Uma melhoria local estrita anunciada por um trabalhador: um novo
/// menor peso, ou um novo maior peso, com o indice da permutacao.
#[derive(Clone, Copy, PartialEq, Eq, Structural, Debug)]
pub enum Mensagem {
    Minimo(u64, u64),
    Maximo(u64, u64),
}

/// A mensagem anuncia um novo minimo.
pub open spec fn e_mensagem_de_minimo(m: Mensagem) -> bool {
    match m {
        Mensagem::Minimo(_, _) => true,
        Mensagem::Maximo(_, _) => false,
    }
}

/// O peso anunciado pela mensagem.
pub open spec fn peso_da_mensagem(m: Mensagem) -> u64 {
    match m {
        Mensagem::Minimo(w, _) => w,
        Mensagem::Maximo(w, _) => w,
    }
}

/// O indice de permutacao anunciado pela mensagem.
pub open spec fn indice_da_mensagem(m: Mensagem) -> u64 {
    match m {
        Mensagem::Minimo(_, i) => i,
        Mensagem::Maximo(_, i) => i,
    }
}

/// Dentro do fluxo de um trabalhador, as mensagens de minimo trazem
/// pesos estritamente decrescentes e as de maximo, estritamente
/// crescentes.
pub open spec fn fluxo_monotonico(ms: Seq<Mensagem>) -> bool {
    &&& forall|p: int, q: int|
        0 <= p < q < ms.len() && e_mensagem_de_minimo(ms[p]) && e_mensagem_de_minimo(ms[q])
            ==> peso_da_mensagem(ms[p]) > peso_da_mensagem(ms[q])
    &&& forall|p: int, q: int|
        0 <= p < q < ms.len() && !e_mensagem_de_minimo(ms[p]) && !e_mensagem_de_minimo(ms[q])
            ==> peso_da_mensagem(ms[p]) < peso_da_mensagem(ms[q])
}

/// Resultado local de um trabalhador sobre a sua faixa.
#[derive(Clone, Copy, PartialEq, Eq, Structural, Debug)]
pub struct ResultadoLocal {
    pub minimo: u64,
    pub indice_minimo: u64,
    pub maximo: u64,
    pub indice_maximo: u64,
}


/// Fatos diretos sobre a permutacao identidade.
pub proof fn lema_identidade(n: nat)
    requires
        n <= usize::MAX,
    ensures
        identidade(n).len() == n,
        forall|i: int| 0 <= i < n ==> #[trigger] identidade(n)[i] == i as usize,
        estritamente_crescente(identidade(n)),
        nao_decrescente(identidade(n)),
        sem_duplicatas(identidade(n)),
{
    assert forall|i: int| 0 <= i < n implies #[trigger] identidade(n)[i] == i as usize by {
    }
}

/// Um elemento contido segue contido depois de acrescentar outro.
proof fn lema_contem_apos_push(antes: Seq<Mensagem>, depois: Seq<Mensagem>, m: Mensagem, x: Mensagem)
    requires
        depois == antes.push(m),
        antes.contains(x),
    ensures
        depois.contains(x),
{
    let p = choose|p: int| 0 <= p < antes.len() && antes[p] == x;
    assert(depois[p] == x);
}

/// Quem rearranja a identidade so visita vertices validos.
proof fn lema_permutacao_valida(n: nat, s: Seq<usize>)
    requires
        s.to_multiset() == identidade(n).to_multiset(),
    ensures
        caminho_valido(s, n),
        s.len() == n,
    decreases 0nat,
{
    broadcast use vstd::seq_lib::group_to_multiset_ensures;

    assert(s.to_multiset().len() == s.len());
    assert(identidade(n).to_multiset().len() == identidade(n).len());
    assert forall|k: int| 0 <= k < s.len() implies (#[trigger] s[k]) < n by {
        assert(s.contains(s[k]));
        assert(s.to_multiset().count(s[k]) > 0);
        assert(identidade(n).to_multiset().count(s[k]) > 0);
        assert(identidade(n).contains(s[k]));
        let m = choose|m: int| 0 <= m < identidade(n).len() && identidade(n)[m] == s[k];
        assert(identidade(n)[m] == m as usize);
    }
}

/// Percorre os ciclos de indice em `[indice_primeira_permutacao,
/// indice_ultima_permutacao)`: parte da permutacao desindexada, avanca
/// pela sucessora lexicografica, avalia cada ciclo, e anuncia cada
/// melhoria local estrita. Devolve o menor e o maior peso da faixa,
/// com os indices das primeiras permutacoes que os atingem, e o fluxo
/// de mensagens na ordem em que seriam enviadas.
#[verifier::rlimit(100)]
pub fn tsp_forca_bruta(
    grafo: &Vec<Vec<u32>>,
    indice_primeira_permutacao: u64,
    indice_ultima_permutacao: u64,
) -> (saida: (ResultadoLocal, Vec<Mensagem>))
    requires
        matriz_quadrada(grafo@.map_values(|linha: Vec<u32>| linha@)),
        1 <= grafo@.len() <= 0xffff_ffff,
        fatorial_de(grafo@.len() as nat) <= usize::MAX,
        indice_primeira_permutacao <= indice_ultima_permutacao,
        indice_ultima_permutacao as nat <= fatorial_de(grafo@.len() as nat),
    ensures
        ({
            let g = grafo@.map_values(|linha: Vec<u32>| linha@);
            let a = indice_primeira_permutacao as nat;
            let b = indice_ultima_permutacao as nat;
            let local = saida.0;
            let ms = saida.1@;
            &&& (a == b ==> local == (ResultadoLocal {
                minimo: u64::MAX,
                indice_minimo: 0,
                maximo: 0,
                indice_maximo: 0,
            }) && ms.len() == 0)
            &&& (a < b ==> {
                &&& e_menor_no_intervalo(g, a, b, local.minimo as nat)
                &&& a <= local.indice_minimo < b
                &&& peso_da_enesima(g, local.indice_minimo as nat) == local.minimo
                &&& forall|r: nat|
                    a <= r < local.indice_minimo ==> #[trigger] peso_da_enesima(g, r)
                        > local.minimo
                &&& e_maior_no_intervalo(g, a, b, local.maximo as nat)
                &&& (local.maximo > 0 ==> a <= local.indice_maximo < b && peso_da_enesima(
                    g,
                    local.indice_maximo as nat,
                ) == local.maximo && (forall|r: nat|
                    a <= r < local.indice_maximo ==> #[trigger] peso_da_enesima(g, r)
                        < local.maximo))
                &&& (local.maximo == 0 ==> local.indice_maximo == 0)
                &&& ms.contains(Mensagem::Minimo(local.minimo, local.indice_minimo))
                &&& (local.maximo > 0 ==> ms.contains(
                    Mensagem::Maximo(local.maximo, local.indice_maximo),
                ))
            })
            &&& fluxo_monotonico(ms)
            &&& forall|p: int|
                0 <= p < ms.len() && e_mensagem_de_minimo(#[trigger] ms[p]) ==> {
                    &&& a <= indice_da_mensagem(ms[p]) < b
                    &&& peso_da_enesima(g, indice_da_mensagem(ms[p]) as nat) == peso_da_mensagem(
                        ms[p],
                    )
                    &&& forall|r: nat|
                        a <= r < indice_da_mensagem(ms[p]) ==> #[trigger] peso_da_enesima(g, r)
                            > peso_da_mensagem(ms[p])
                }
            &&& forall|p: int|
                0 <= p < ms.len() && !e_mensagem_de_minimo(#[trigger] ms[p]) ==> {
                    &&& a <= indice_da_mensagem(ms[p]) < b
                    &&& peso_da_enesima(g, indice_da_mensagem(ms[p]) as nat) == peso_da_mensagem(
                        ms[p],
                    )
                    &&& forall|r: nat|
                        a <= r < indice_da_mensagem(ms[p]) ==> #[trigger] peso_da_enesima(g, r)
                            < peso_da_mensagem(ms[p])
                }
        }),
{
    let ghost g = grafo@.map_values(|linha: Vec<u32>| linha@);
    let ghost a = indice_primeira_permutacao as nat;
    let ghost b = indice_ultima_permutacao as nat;
    let n = grafo.len();
    let mut minimo: u64 = u64::MAX;
    let mut indice_minimo: u64 = 0;
    let mut maximo: u64 = 0;
    let mut indice_maximo: u64 = 0;
    let mut mensagens: Vec<Mensagem> = Vec::new();
    let mut permutacao_atual = indice_primeira_permutacao;
    let mut caminho: Vec<usize> = Vec::new();
    let mut k: usize = 0;
    while k < n
        invariant
            k <= n,
            caminho@.len() == k,
            forall|m: int| 0 <= m < k ==> #[trigger] caminho@[m] == m as usize,
        decreases n - k,
    {
        caminho.push(k);
        k += 1;
    }
    proof {
        lema_identidade(n as nat);
        assert(caminho@ =~= identidade(n as nat));
        lema_fatorial_positivo(n as nat);
    }
    n_esima_ordem_lexicografica(&mut caminho, indice_primeira_permutacao);
    while permutacao_atual < indice_ultima_permutacao
        invariant
            g == grafo@.map_values(|linha: Vec<u32>| linha@),
            matriz_quadrada(g),
            1 <= n == g.len() <= 0xffff_ffff,
            fatorial_de(n as nat) <= usize::MAX,
            a == indice_primeira_permutacao as nat,
            b == indice_ultima_permutacao as nat,
            indice_primeira_permutacao <= permutacao_atual <= indice_ultima_permutacao,
            indice_ultima_permutacao as nat <= fatorial_de(n as nat),
            permutacao_atual < indice_ultima_permutacao ==> caminho@ == enesima_permutacao(
                identidade(n as nat),
                permutacao_atual as nat,
            ),
            permutacao_atual == indice_primeira_permutacao ==> minimo == u64::MAX
                && indice_minimo == 0 && maximo == 0 && indice_maximo == 0 && mensagens@.len()
                == 0,
            permutacao_atual > indice_primeira_permutacao ==> {
                &&& indice_primeira_permutacao <= indice_minimo < permutacao_atual
                &&& peso_da_enesima(g, indice_minimo as nat) == minimo
                &&& forall|r: nat|
                    a <= r < indice_minimo ==> #[trigger] peso_da_enesima(g, r) > minimo
            },
            forall|r: nat|
                a <= r < permutacao_atual as nat ==> #[trigger] peso_da_enesima(g, r) >= minimo,
            forall|r: nat|
                a <= r < permutacao_atual as nat ==> #[trigger] peso_da_enesima(g, r) <= maximo,
            maximo > 0 ==> {
                &&& indice_primeira_permutacao <= indice_maximo < permutacao_atual
                &&& peso_da_enesima(g, indice_maximo as nat) == maximo
                &&& forall|r: nat|
                    a <= r < indice_maximo ==> #[trigger] peso_da_enesima(g, r) < maximo
            },
            maximo == 0 ==> indice_maximo == 0,
            fluxo_monotonico(mensagens@),
            forall|p: int|
                0 <= p < mensagens@.len() && e_mensagem_de_minimo(#[trigger] mensagens@[p]) ==> {
                    &&& a <= indice_da_mensagem(mensagens@[p]) < permutacao_atual as nat
                    &&& peso_da_enesima(g, indice_da_mensagem(mensagens@[p]) as nat)
                        == peso_da_mensagem(mensagens@[p])
                    &&& peso_da_mensagem(mensagens@[p]) >= minimo
                    &&& forall|r: nat|
                        a <= r < indice_da_mensagem(mensagens@[p])
                            ==> #[trigger] peso_da_enesima(g, r) > peso_da_mensagem(
                            mensagens@[p],
                        )
                },
            forall|p: int|
                0 <= p < mensagens@.len() && !e_mensagem_de_minimo(#[trigger] mensagens@[p])
                    ==> {
                    &&& a <= indice_da_mensagem(mensagens@[p]) < permutacao_atual as nat
                    &&& peso_da_enesima(g, indice_da_mensagem(mensagens@[p]) as nat)
                        == peso_da_mensagem(mensagens@[p])
                    &&& 0 < peso_da_mensagem(mensagens@[p]) <= maximo
                    &&& forall|r: nat|
                        a <= r < indice_da_mensagem(mensagens@[p])
                            ==> #[trigger] peso_da_enesima(g, r) < peso_da_mensagem(
                            mensagens@[p],
                        )
                },
            permutacao_atual > indice_primeira_permutacao ==> mensagens@.contains(
                Mensagem::Minimo(minimo, indice_minimo),
            ),
            maximo > 0 ==> mensagens@.contains(Mensagem::Maximo(maximo, indice_maximo)),
        decreases indice_ultima_permutacao - permutacao_atual,
    {
        proof {
            lema_identidade(n as nat);
            lema_enesima_elementos(identidade(n as nat), permutacao_atual as nat);
            lema_permutacao_valida(n as nat, caminho@);
            lema_mesmo_multiset_sem_duplicatas(identidade(n as nat), caminho@);
            lema_peso_limite(caminho@, g);
            assert(caminho@.len() * 0xffff_ffff < u64::MAX) by (nonlinear_arith)
                requires
                    caminho@.len() <= 0xffff_ffff,
            ;
        }
        let peso_caminho_atual = peso_do_ciclo(&caminho, grafo);
        proof {
            assert(peso_caminho_atual == peso_da_enesima(g, permutacao_atual as nat));
            assert(peso_caminho_atual < u64::MAX);
        }
        let ghost msgs_antes = mensagens@;
        if peso_caminho_atual < minimo {
            indice_minimo = permutacao_atual;
            minimo = peso_caminho_atual;
            mensagens.push(Mensagem::Minimo(minimo, indice_minimo));
        }
        let ghost msgs_meio = mensagens@;
        if peso_caminho_atual > maximo {
            indice_maximo = permutacao_atual;
            maximo = peso_caminho_atual;
            mensagens.push(Mensagem::Maximo(maximo, indice_maximo));
        }
        proof {
            if msgs_meio.len() > msgs_antes.len() {
                assert(msgs_meio[msgs_antes.len() as int] == Mensagem::Minimo(
                    minimo,
                    indice_minimo,
                ));
                assert(msgs_meio.contains(Mensagem::Minimo(minimo, indice_minimo)));
            } else {
                assert(msgs_meio == msgs_antes);
                assert(msgs_meio.contains(Mensagem::Minimo(minimo, indice_minimo)));
            }
            if mensagens@.len() > msgs_meio.len() {
                assert(mensagens@[msgs_meio.len() as int] == Mensagem::Maximo(
                    maximo,
                    indice_maximo,
                ));
                assert(mensagens@.contains(Mensagem::Maximo(maximo, indice_maximo)));
                lema_contem_apos_push(
                    msgs_meio,
                    mensagens@,
                    Mensagem::Maximo(maximo, indice_maximo),
                    Mensagem::Minimo(minimo, indice_minimo),
                );
            } else {
                assert(mensagens@ == msgs_meio);
                if maximo > 0 {
                    if msgs_meio.len() > msgs_antes.len() {
                        lema_contem_apos_push(
                            msgs_antes,
                            msgs_meio,
                            Mensagem::Minimo(minimo, indice_minimo),
                            Mensagem::Maximo(maximo, indice_maximo),
                        );
                    } else {
                        assert(msgs_meio == msgs_antes);
                    }
                }
            }
        }
        permutacao_atual += 1;
        if permutacao_atual < indice_ultima_permutacao {
            let ghost caminho_antes = caminho@;
            let avancou = proxima_ordem_lexicografica(&mut caminho);
            proof {
                lema_identidade(n as nat);
                lema_sucessora_da_enesima(
                    identidade(n as nat),
                    (permutacao_atual - 1) as nat,
                );
                let proxima = enesima_permutacao(identidade(n as nat), permutacao_atual as nat);
                assert(e_sucessora(caminho_antes, proxima));
                // dentro da faixa a caminhada nunca se esgota: a sucessora existe
                assert(avancou) by {
                    assert(proxima.to_multiset() == caminho_antes.to_multiset() && lex_menor(
                        caminho_antes,
                        proxima,
                    ));
                }
                assert(e_sucessora(caminho_antes, caminho@));
                assert(lex_menor_igual(caminho@, proxima));
                assert(lex_menor_igual(proxima, caminho@));
                lema_lex_antissimetrica(caminho@, proxima);
                assert(caminho@ == proxima);
            }
        }
    }
    proof {
        if a < b {
            assert(permutacao_atual == indice_ultima_permutacao);
            if maximo == 0 {
                assert(peso_da_enesima(g, a) <= maximo);
                assert(peso_da_enesima(g, a) == 0);
            }
        }
    }
    (
        ResultadoLocal {
            minimo,
            indice_minimo,
            maximo,
            indice_maximo,
        },
        mensagens,
    )
}


/// Erros fatais da busca: entrada mal formada, ou um espaco de busca
/// cujo tamanho nao cabe na aritmetica da maquina.
#[derive(Clone, Copy, PartialEq, Eq, Structural, Debug)]
pub enum Erro {
    EntradaInvalida,
    Estouro,
}

/// O resultado global da enumeracao completa.
#[derive(Clone, Copy, PartialEq, Eq, Structural, Debug)]
pub struct Resultado {
    pub menor_peso: u64,
    pub indice_menor: u64,
    pub maior_peso: u64,
    pub indice_maior: u64,
}

/// O redutor central: recebe anuncios `(peso, indice)` dos
/// trabalhadores, em qualquer ordem, e guarda o menor e o maior pesos
/// vistos, com os indices correspondentes.
pub struct Agregador {
    pub minimo: u64,
    pub indice_minimo: u64,
    pub maximo: u64,
    pub indice_maximo: u64,
}

impl Agregador {
    /// Estado inicial, antes de qualquer anuncio.
    pub fn novo() -> (a: Agregador)
        ensures
            a.minimo == u64::MAX,
            a.indice_minimo == 0,
            a.maximo == 0,
            a.indice_maximo == 0,
    {
        Agregador { minimo: u64::MAX, indice_minimo: 0, maximo: 0, indice_maximo: 0 }
    }

    /// Processa um anuncio: um peso abaixo do minimo corrente passa a
    /// ser o minimo; senao, um peso acima do maximo corrente passa a
    /// ser o maximo; qualquer outro anuncio e ignorado.
    pub fn processa(&mut self, peso: u64, indice: u64)
        ensures
            peso < old(self).minimo ==> final(self).minimo == peso && final(self).indice_minimo
                == indice && final(self).maximo == old(self).maximo && final(self).indice_maximo
                == old(self).indice_maximo,
            peso >= old(self).minimo && peso > old(self).maximo ==> final(self).maximo == peso
                && final(self).indice_maximo == indice && final(self).minimo == old(self).minimo
                && final(self).indice_minimo == old(self).indice_minimo,
            peso >= old(self).minimo && peso <= old(self).maximo ==> *final(self) == *old(self),
    {
        if peso < self.minimo {
            self.minimo = peso;
            self.indice_minimo = indice;
        } else if peso > self.maximo {
            self.maximo = peso;
            self.indice_maximo = indice;
        }
    }
}

/// Dentro de uma cobertura contigua de `[0, total)`, cada faixa
/// termina antes de `total`.
proof fn lema_faixa_dentro(faixas: Seq<(u64, u64)>, total: u64, k: int)
    requires
        crate::particao::cobre_intervalo(faixas, total),
        0 <= k < faixas.len(),
    ensures
        faixas[k].1 <= total,
        faixas[k].0 == (if k == 0 { 0 } else { faixas[k - 1].1 }),
    decreases faixas.len() - k,
{
    if k < faixas.len() - 1 {
        lema_faixa_dentro(faixas, total, k + 1);
    }
}

/// Um espaco de busca que cabe na maquina tem poucos vertices.
proof fn lema_fatorial_pequeno(n: nat)
    requires
        fatorial_de(n) <= usize::MAX,
    ensures
        n <= 20,
{
    if n > 20 {
        lema_fatorial_nao_decrescente(21, n);
        assert(fatorial_de(0) == 1);
        assert(fatorial_de(1) == 1);
        assert(fatorial_de(2) == 2);
        assert(fatorial_de(3) == 6);
        assert(fatorial_de(4) == 24);
        assert(fatorial_de(5) == 120);
        assert(fatorial_de(6) == 720);
        assert(fatorial_de(7) == 5040);
        assert(fatorial_de(8) == 40320);
        assert(fatorial_de(9) == 362880);
        assert(fatorial_de(10) == 3628800);
        assert(fatorial_de(11) == 39916800);
        assert(fatorial_de(12) == 479001600);
        assert(fatorial_de(13) == 6227020800);
        assert(fatorial_de(14) == 87178291200);
        assert(fatorial_de(15) == 1307674368000);
        assert(fatorial_de(16) == 20922789888000);
        assert(fatorial_de(17) == 355687428096000);
        assert(fatorial_de(18) == 6402373705728000);
        assert(fatorial_de(19) == 121645100408832000);
        assert(fatorial_de(20) == 2432902008176640000);
        assert(fatorial_de(21) == 51090942171709440000);
    }
}

/// Resolve o problema inteiro: valida a matriz, reparte o espaco de
/// indices `[0, (n-1)!)` entre os trabalhadores pedidos, percorre cada
/// faixa e reduz os resultados ao menor e maior ciclo globais. O
/// resultado nao depende de `numero_trabalhadores`: o contrato fixa o
/// menor e o maior peso sobre o espaco inteiro.
#[verifier::rlimit(100)]
pub fn resolve_tsp(grafo: &Vec<Vec<u32>>, numero_trabalhadores: usize) -> (saida: Result<
    Resultado,
    Erro,
>)
    requires
        numero_trabalhadores >= 1,
    ensures
        ({
            let g = grafo@.map_values(|linha: Vec<u32>| linha@);
            let total = fatorial_de((g.len() - 1) as nat);
            &&& (saida matches Err(Erro::EntradaInvalida) <==> (g.len() < 2 || !matriz_quadrada(
                g,
            )))
            &&& (g.len() >= 2 && matriz_quadrada(g) ==> (saida matches Err(Erro::Estouro)
                <==> fatorial_de(g.len() as nat) > usize::MAX))
            &&& (saida matches Ok(r) ==> {
                &&& e_menor_no_intervalo(g, 0, total, r.menor_peso as nat)
                &&& r.indice_menor < total
                &&& peso_da_enesima(g, r.indice_menor as nat) == r.menor_peso
                &&& e_maior_no_intervalo(g, 0, total, r.maior_peso as nat)
                &&& (r.maior_peso > 0 ==> r.indice_maior < total && peso_da_enesima(
                    g,
                    r.indice_maior as nat,
                ) == r.maior_peso)
            })
        }),
{
    let ghost g = grafo@.map_values(|linha: Vec<u32>| linha@);
    let n = grafo.len();
    if n < 2 {
        return Err(Erro::EntradaInvalida);
    }
    let mut linha: usize = 0;
    while linha < n
        invariant
            linha <= n,
            n == grafo@.len(),
            g == grafo@.map_values(|l: Vec<u32>| l@),
            forall|i: int| 0 <= i < linha ==> (#[trigger] g[i]).len() == n,
        decreases n - linha,
    {
        if grafo[linha].len() != n {
            proof {
                assert(g[linha as int].len() != n);
            }
            return Err(Erro::EntradaInvalida);
        }
        proof {
            assert(g[linha as int].len() == n);
        }
        linha += 1;
    }
    proof {
        assert(matriz_quadrada(g));
    }
    let fatorial_completo = crate::fatorial::calcula_fatorial_checado(n);
    if fatorial_completo.is_none() {
        return Err(Erro::Estouro);
    }
    proof {
        lema_fatorial_pequeno(n as nat);
        lema_fatorial_nao_decrescente((n - 1) as nat, n as nat);
        lema_fatorial_positivo((n - 1) as nat);
    }
    let total = crate::fatorial::calcula_fatorial(n - 1) as u64;
    let faixas = crate::particao::particiona(total, numero_trabalhadores);
    let mut menor_peso: u64 = u64::MAX;
    let mut indice_menor: u64 = 0;
    let mut maior_peso: u64 = 0;
    let mut indice_maior: u64 = 0;
    let mut k: usize = 0;
    let ghost processado: nat = 0;
    while k < faixas.len()
        invariant
            k <= faixas@.len(),
            n == grafo@.len(),
            g == grafo@.map_values(|l: Vec<u32>| l@),
            matriz_quadrada(g),
            2 <= n <= 20,
            fatorial_de(n as nat) <= usize::MAX,
            total as nat == fatorial_de((n - 1) as nat),
            crate::particao::cobre_intervalo(faixas@, total),
            processado == (if k == 0 { 0nat } else { faixas@[k - 1].1 as nat }),
            processado <= total as nat,
            processado == 0 ==> menor_peso == u64::MAX && indice_menor == 0 && maior_peso == 0
                && indice_maior == 0,
            processado > 0 ==> {
                &&& (indice_menor as nat) < processado
                &&& peso_da_enesima(g, indice_menor as nat) == menor_peso
                &&& forall|r: nat|
                    r < processado ==> #[trigger] peso_da_enesima(g, r) >= menor_peso
            },
            forall|r: nat| r < processado ==> #[trigger] peso_da_enesima(g, r) <= maior_peso,
            maior_peso > 0 ==> (indice_maior as nat) < processado && peso_da_enesima(
                g,
                indice_maior as nat,
            ) == maior_peso,
            maior_peso == 0 ==> indice_maior == 0,
        decreases faixas@.len() - k,
    {
        proof {
            lema_faixa_dentro(faixas@, total, k as int);
        }
        let faixa = faixas[k];
        let inicio = faixa.0;
        let fim = faixa.1;
        proof {
            if k > 0 {
                lema_faixa_dentro(faixas@, total, k as int - 1);
            }
            assert(inicio as nat == processado);
            assert(fim as nat <= fatorial_de(n as nat)) by {
                lema_fatorial_nao_decrescente((n - 1) as nat, n as nat);
            }
        }
        let saida_local = tsp_forca_bruta(grafo, inicio, fim);
        let local = saida_local.0;
        proof {
            if inicio < fim {
                crate::ciclo::lema_peso_limite(
                    enesima_permutacao(identidade(n as nat), local.indice_minimo as nat),
                    g,
                );
                lema_identidade(n as nat);
                lema_enesima_elementos(identidade(n as nat), local.indice_minimo as nat);
                assert(local.minimo < u64::MAX) by (nonlinear_arith)
                    requires
                        local.minimo as nat <= n * 0xffff_ffff,
                        n <= 20,
                ;
            }
        }
        if local.minimo < menor_peso {
            menor_peso = local.minimo;
            indice_menor = local.indice_minimo;
        }
        if local.maximo > maior_peso {
            maior_peso = local.maximo;
            indice_maior = local.indice_maximo;
        }
        proof {
            processado = fim as nat;
        }
        k += 1;
    }
    proof {
        assert(k == faixas@.len());
        assert(processado == total as nat);
        if maior_peso == 0 {
            assert(peso_da_enesima(g, 0) <= maior_peso);
            assert(peso_da_enesima(g, 0) == 0);
        }
    }
    Ok(
        Resultado {
            menor_peso,
            indice_menor,
            maior_peso,
            indice_maior,
        },
    )
}

} // verus!
