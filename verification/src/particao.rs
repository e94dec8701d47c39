//! Reparticao do intervalo de indices `[0, total)` entre os
//! trabalhadores: faixas contiguas, sem lacunas e sem sobreposicao.

use vstd::prelude::*;

verus! {

/// As faixas devolvidas cobrem `[0, total)` exatamente: comecam em 0,
/// terminam em `total`, e cada faixa retoma onde a anterior parou.
pub open spec fn cobre_intervalo(faixas: Seq<(u64, u64)>, total: u64) -> bool {
    &&& faixas.len() > 0
    &&& faixas[0].0 == 0
    &&& faixas[faixas.len() - 1].1 == total
    &&& forall|k: int| 0 <= k < faixas.len() ==> (#[trigger] faixas[k]).0 <= faixas[k].1
    &&& forall|k: int| 0 < k < faixas.len() ==> (#[trigger] faixas[k]).0 == faixas[k - 1].1
}

/// Escolhe quantos trabalhadores usar: um pedido de 0, ou acima do que
/// a maquina oferece, significa usar todos os disponiveis.
pub fn escolhe_numero_trabalhadores(pedido: usize, disponiveis: usize) -> (escolhido: usize)
    requires
        disponiveis >= 1,
    ensures
        escolhido >= 1,
        pedido == 0 || disponiveis < pedido ==> escolhido == disponiveis,
        1 <= pedido <= disponiveis ==> escolhido == pedido,
{
    if disponiveis < pedido || pedido == 0 {
        disponiveis
    } else {
        pedido
    }
}

/// Divide `[0, total)` em `trabalhadores` faixas contiguas `[inicio, fim)`.
/// A divisao inteira e corrigida: os primeiros `total % trabalhadores`
/// trabalhadores recebem um indice a mais, e nenhum indice fica de fora.
pub fn particiona(total: u64, trabalhadores: usize) -> (faixas: Vec<(u64, u64)>)
    requires
        trabalhadores >= 1,
    ensures
        faixas@.len() == trabalhadores,
        cobre_intervalo(faixas@, total),
{
    let base = total / (trabalhadores as u64);
    let resto = total % (trabalhadores as u64);
    let mut faixas: Vec<(u64, u64)> = Vec::new();
    let mut inicio: u64 = 0;
    let mut k: usize = 0;
    proof {
        vstd::arithmetic::div_mod::lemma_fundamental_div_mod(
            total as int,
            trabalhadores as int,
        );
        vstd::arithmetic::div_mod::lemma_mod_division_less_than_divisor(
            total as int,
            trabalhadores as int,
        );
    }
    while k < trabalhadores
        invariant
            k <= trabalhadores,
            faixas@.len() == k,
            total as int == (trabalhadores as int) * (base as int) + (resto as int),
            resto < trabalhadores as u64,
            inicio as int == (k as int) * (base as int) + (if (k as u64) <= resto {
                k as int
            } else {
                resto as int
            }),
            k > 0 ==> faixas@[0].0 == 0,
            k > 0 ==> faixas@[k - 1].1 == inicio,
            forall|m: int| 0 <= m < k ==> (#[trigger] faixas@[m]).0 <= faixas@[m].1,
            forall|m: int| 0 < m < k ==> (#[trigger] faixas@[m]).0 == faixas@[m - 1].1,
        decreases trabalhadores - k,
    {
        proof {
            if (k as u64) < resto {
                assert(inicio as int == (k as int) * (base as int) + (k as int));
                assert(inicio as int + (base as int) + 1 <= total as int) by (nonlinear_arith)
                    requires
                        total as int == (trabalhadores as int) * (base as int) + (resto as int),
                        inicio as int == (k as int) * (base as int) + (k as int),
                        0 <= k,
                        (k as u64) < resto,
                        resto < trabalhadores as u64,
                ;
            } else {
                assert(inicio as int == (k as int) * (base as int) + (resto as int));
                assert(inicio as int + (base as int) <= total as int) by (nonlinear_arith)
                    requires
                        total as int == (trabalhadores as int) * (base as int) + (resto as int),
                        inicio as int == (k as int) * (base as int) + (resto as int),
                        0 <= k < trabalhadores,
                ;
            }
        }
        let quota = if (k as u64) < resto {
            base + 1
        } else {
            base
        };
        let fim = inicio + quota;
        faixas.push((inicio, fim));
        proof {
            if (k as u64) < resto {
                assert(fim as int == ((k + 1) as int) * (base as int) + ((k + 1) as int))
                    by (nonlinear_arith)
                    requires
                        inicio as int == (k as int) * (base as int) + (k as int),
                        fim as int == inicio as int + (base as int) + 1,
                        0 <= k,
                ;
            } else {
                assert(fim as int == ((k + 1) as int) * (base as int) + (resto as int))
                    by (nonlinear_arith)
                    requires
                        inicio as int == (k as int) * (base as int) + (resto as int),
                        fim as int == inicio as int + (base as int),
                        0 <= k,
                ;
            }
        }
        inicio = fim;
        k += 1;
    }
    proof {
        assert(inicio == total) by (nonlinear_arith)
            requires
                inicio as int == (trabalhadores as int) * (base as int) + (if (trabalhadores
                    as u64) <= resto {
                    trabalhadores as int
                } else {
                    resto as int
                }),
                total as int == (trabalhadores as int) * (base as int) + (resto as int),
                resto < trabalhadores as u64,
        ;
    }
    faixas
}

} // verus!
