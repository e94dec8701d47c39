//! Aritmetica de fatoriais, usada para dimensionar o espaco de busca e
//! para a decomposicao no sistema de numeracao fatorial.

use vstd::prelude::*;

verus! {

/// `n!` como funcao matematica.
pub open spec fn fatorial_de(n: nat) -> nat
    decreases n,
{
    if n == 0 {
        1
    } else {
        n * fatorial_de((n - 1) as nat)
    }
}

/// Todo fatorial e pelo menos 1.
pub proof fn lema_fatorial_positivo(n: nat)
    ensures
        fatorial_de(n) >= 1,
    decreases n,
{
    if n > 0 {
        lema_fatorial_positivo((n - 1) as nat);
        assert(n * fatorial_de((n - 1) as nat) >= 1) by (nonlinear_arith)
            requires
                n >= 1,
                fatorial_de((n - 1) as nat) >= 1,
        ;
    }
}

/// O fatorial nunca decresce quando o argumento cresce.
pub proof fn lema_fatorial_nao_decrescente(a: nat, b: nat)
    requires
        a <= b,
    ensures
        fatorial_de(a) <= fatorial_de(b),
    decreases b,
{
    if a < b {
        lema_fatorial_nao_decrescente(a, (b - 1) as nat);
        lema_fatorial_positivo((b - 1) as nat);
        assert(fatorial_de((b - 1) as nat) <= b * fatorial_de((b - 1) as nat))
            by (nonlinear_arith)
            requires
                b >= 1,
                fatorial_de((b - 1) as nat) >= 1,
        ;
    }
}

/// Multiplicar por `p >= 1` cabe em `m` exatamente quando o fator nao
/// passa de `m / p`.
proof fn lema_produto_versus_divisao(x: nat, p: nat, m: nat)
    requires
        p >= 1,
    ensures
        x <= m / p ==> x * p <= m,
        x > m / p ==> x * p > m,
{
    let d = m / p;
    let r = m % p;
    vstd::arithmetic::div_mod::lemma_fundamental_div_mod(m as int, p as int);
    vstd::arithmetic::div_mod::lemma_mod_division_less_than_divisor(m as int, p as int);
    assert(x <= d ==> x * p <= d * p) by (nonlinear_arith)
        requires
            p >= 1,
    ;
    assert(d * p <= m) by (nonlinear_arith)
        requires
            m == p * d + r,
            r >= 0,
    ;
    assert(x > d ==> x * p >= d * p + p) by (nonlinear_arith)
        requires
            p >= 1,
    ;
    assert(d * p + p > m) by (nonlinear_arith)
        requires
            m == p * d + r,
            r < p,
    ;
}

/// Calcula `numero!`; o chamador garante que o resultado cabe em `usize`.
pub fn calcula_fatorial(numero: usize) -> (resultado: usize)
    requires
        fatorial_de(numero as nat) <= usize::MAX,
    ensures
        resultado == fatorial_de(numero as nat),
{
    let ghost alvo = numero as nat;
    let mut resultado: usize = 1;
    let mut numero = numero;
    if numero > 1 {
        while numero > 0
            invariant
                fatorial_de(numero as nat) * resultado == fatorial_de(alvo),
                fatorial_de(alvo) <= usize::MAX,
                resultado >= 1,
            decreases numero,
        {
            proof {
                lema_fatorial_positivo((numero - 1) as nat);
                assert(fatorial_de(numero as nat) == numero * fatorial_de((numero - 1) as nat));
                assert(fatorial_de((numero - 1) as nat) * (resultado * numero) == fatorial_de(
                    numero as nat,
                ) * resultado) by (nonlinear_arith)
                    requires
                        fatorial_de(numero as nat) == numero * fatorial_de((numero - 1) as nat),
                ;
                assert(resultado * numero <= fatorial_de(alvo)) by (nonlinear_arith)
                    requires
                        fatorial_de((numero - 1) as nat) * (resultado * numero) == fatorial_de(
                            alvo,
                        ),
                        fatorial_de((numero - 1) as nat) >= 1,
                        resultado >= 1,
                        numero >= 1,
                ;
                assert(resultado * numero >= 1) by (nonlinear_arith)
                    requires
                        resultado >= 1,
                        numero >= 1,
                ;
            }
            resultado *= numero;
            numero -= 1;
        }
        proof {
            assert(fatorial_de(numero as nat) == 1);
            assert(fatorial_de(numero as nat) * resultado == resultado) by (nonlinear_arith)
                requires
                    fatorial_de(numero as nat) == 1,
            ;
        }
    }
    proof {
        assert(fatorial_de(0) == 1);
        assert(fatorial_de(1) == 1 * fatorial_de(0));
    }
    resultado
}

/// Calcula `numero!` com deteccao de estouro: devolve `None` exatamente
/// quando o valor nao cabe em `usize`.
pub fn calcula_fatorial_checado(numero: usize) -> (resultado: Option<usize>)
    ensures
        match resultado {
            Some(f) => f == fatorial_de(numero as nat) && fatorial_de(numero as nat) <= usize::MAX,
            None => fatorial_de(numero as nat) > usize::MAX,
        },
{
    let mut resultado: usize = 1;
    let mut i: usize = 0;
    while i < numero
        invariant
            i <= numero,
            resultado == fatorial_de(i as nat),
        decreases numero - i,
    {
        let proximo = i + 1;
        proof {
            lema_produto_versus_divisao(resultado as nat, proximo as nat, usize::MAX as nat);
            assert(resultado * proximo == proximo * resultado) by (nonlinear_arith);
        }
        if resultado > usize::MAX / proximo {
            proof {
                lema_estouro_propaga(proximo as nat, numero as nat, resultado as nat);
            }
            return None;
        }
        resultado = resultado * proximo;
        i = proximo;
    }
    Some(resultado)
}

/// Se o produto parcial `(i-1)! * i` ja estoura, entao `n!` estoura.
proof fn lema_estouro_propaga(i: nat, n: nat, parcial: nat)
    requires
        1 <= i <= n,
        parcial == fatorial_de((i - 1) as nat),
        parcial * i > usize::MAX,
    ensures
        fatorial_de(n) > usize::MAX,
{
    assert(fatorial_de(i) == i * fatorial_de((i - 1) as nat));
    assert(i * parcial == parcial * i) by (nonlinear_arith);
    lema_fatorial_nao_decrescente(i, n);
}

} // verus!
