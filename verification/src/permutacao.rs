//! Permutacoes em ordem lexicografica: desindexacao pelo sistema de
//! numeracao fatorial (codigo de Lehmer), indexacao inversa e o passo
//! para a permutacao sucessora.

use vstd::prelude::*;
use vstd::pervasive::VecAdditionalExecFns;
use vstd::multiset::Multiset;
use crate::fatorial::{fatorial_de, lema_fatorial_positivo, lema_fatorial_nao_decrescente};

verus! {

/// Sequencia em ordem nao decrescente.
pub open spec fn nao_decrescente(s: Seq<usize>) -> bool {
    forall|i: int, j: int| 0 <= i < j < s.len() ==> s[i] <= s[j]
}

/// Sequencia estritamente crescente.
pub open spec fn estritamente_crescente(s: Seq<usize>) -> bool {
    forall|i: int, j: int| 0 <= i < j < s.len() ==> s[i] < s[j]
}

/// Sequencia sem elementos repetidos.
pub open spec fn sem_duplicatas(s: Seq<usize>) -> bool {
    forall|i: int, j: int| 0 <= i < j < s.len() ==> s[i] != s[j]
}

/// A `n`-esima permutacao (comecando em 0) dos elementos de `base` em
/// ordem lexicografica, pela decomposicao no sistema de numeracao
/// fatorial: o primeiro elemento e o quociente por `(len-1)!` aplicado
/// ao conjunto restante, e assim por diante.
pub open spec fn enesima_permutacao(base: Seq<usize>, n: nat) -> Seq<usize>
    decreases base.len(),
    via enesima_permutacao_termina
{
    if base.len() == 0 {
        Seq::empty()
    } else {
        let f = fatorial_de((base.len() - 1) as nat);
        let d = n / f;
        if d < base.len() {
            seq![base[d as int]] + enesima_permutacao(base.remove(d as int), n % f)
        } else {
            base
        }
    }
}

#[via_fn]
proof fn enesima_permutacao_termina(base: Seq<usize>, n: nat) {
    if base.len() > 0 {
        lema_fatorial_positivo((base.len() - 1) as nat);
        let f = fatorial_de((base.len() - 1) as nat);
        let d = n / f;
        if d < base.len() {
            base.remove_ensures(d as int);
        }
    }
}

/// Quantos elementos de `s` sao menores do que `x`.
pub open spec fn conta_menores(s: Seq<usize>, x: usize) -> nat
    decreases s.len(),
{
    if s.len() == 0 {
        0
    } else {
        (if s[0] < x {
            1nat
        } else {
            0nat
        }) + conta_menores(s.drop_first(), x)
    }
}

/// O indice (posicao lexicografica, comecando em 0) de uma permutacao
/// entre os rearranjos dos seus proprios elementos: em cada posicao,
/// o numero de elementos menores ainda restantes vezes o fatorial
/// correspondente.
pub open spec fn indice_da_permutacao(s: Seq<usize>) -> nat
    decreases s.len(),
{
    if s.len() == 0 {
        0
    } else {
        conta_menores(s.drop_first(), s[0]) * fatorial_de((s.len() - 1) as nat)
            + indice_da_permutacao(s.drop_first())
    }
}

/// Sequencia estritamente decrescente.
pub open spec fn estritamente_decrescente(s: Seq<usize>) -> bool {
    forall|i: int, j: int| 0 <= i < j < s.len() ==> s[i] > s[j]
}

/// `a` vem estritamente antes de `b` na ordem lexicografica: em alguma
/// posicao `k`, depois de um prefixo comum, `a` traz o elemento menor.
pub open spec fn lex_menor(a: Seq<usize>, b: Seq<usize>) -> bool {
    exists|k: int|
        0 <= k < a.len() && k < b.len() && a.subrange(0, k) == b.subrange(0, k) && a[k] < b[k]
}

/// `a` e igual a `b` ou vem antes na ordem lexicografica.
pub open spec fn lex_menor_igual(a: Seq<usize>, b: Seq<usize>) -> bool {
    a == b || lex_menor(a, b)
}

/// `b` e a sucessora imediata de `a`: um rearranjo dos mesmos elementos,
/// estritamente maior, e nenhum rearranjo maior do que `a` fica antes
/// de `b`.
pub open spec fn e_sucessora(a: Seq<usize>, b: Seq<usize>) -> bool {
    &&& b.to_multiset() == a.to_multiset()
    &&& lex_menor(a, b)
    &&& forall|t: Seq<usize>|
        t.to_multiset() == a.to_multiset() && lex_menor(a, t) ==> lex_menor_igual(b, t)
}

/// Algum rearranjo dos elementos de `a` vem depois de `a`.
pub open spec fn tem_sucessora(a: Seq<usize>) -> bool {
    exists|t: Seq<usize>| t.to_multiset() == a.to_multiset() && lex_menor(a, t)
}

/// A ordem lexicografica e antissimetrica.
pub proof fn lema_lex_antissimetrica(a: Seq<usize>, b: Seq<usize>)
    ensures
        !(lex_menor(a, b) && lex_menor(b, a)),
{
    if lex_menor(a, b) && lex_menor(b, a) {
        let k1 = choose|k: int|
            0 <= k < a.len() && k < b.len() && a.subrange(0, k) == b.subrange(0, k) && a[k]
                < b[k];
        let k2 = choose|k: int|
            0 <= k < b.len() && k < a.len() && b.subrange(0, k) == a.subrange(0, k) && b[k]
                < a[k];
        if k1 < k2 {
            assert(b.subrange(0, k2)[k1] == a.subrange(0, k2)[k1]);
        } else if k2 < k1 {
            assert(a.subrange(0, k1)[k2] == b.subrange(0, k1)[k2]);
        }
    }
}

/// Duas sequencias do mesmo comprimento ou sao iguais ou uma vem antes
/// da outra na ordem lexicografica.
pub proof fn lema_lex_tricotomia(a: Seq<usize>, b: Seq<usize>)
    requires
        a.len() == b.len(),
    ensures
        a == b || lex_menor(a, b) || lex_menor(b, a),
    decreases a.len(),
{
    if a.len() == 0 {
        assert(a =~= b);
    } else if a[0] != b[0] {
        assert(a.subrange(0, 0) =~= b.subrange(0, 0));
        if a[0] < b[0] {
            assert(lex_menor(a, b));
        } else {
            assert(lex_menor(b, a));
        }
    } else {
        lema_lex_tricotomia(a.drop_first(), b.drop_first());
        assert(a.drop_first() =~= a.subrange(1, a.len() as int));
        assert(b.drop_first() =~= b.subrange(1, b.len() as int));
        assert(a.subrange(0, 1) =~= b.subrange(0, 1));
        if a.drop_first() == b.drop_first() {
            assert forall|k: int| 0 <= k < a.len() implies a[k] == b[k] by {
                if k > 0 {
                    assert(a[k] == a.drop_first()[k - 1]);
                    assert(b[k] == b.drop_first()[k - 1]);
                }
            }
            assert(a =~= b);
        } else if lex_menor(a.drop_first(), b.drop_first()) {
            lema_lex_sobe(a, b, 1);
        } else {
            lema_lex_sobe(b, a, 1);
        }
    }
}

/// Um testemunho lexicografico nas caudas sobe para as sequencias
/// inteiras, dado um prefixo comum de comprimento `p`.
pub proof fn lema_lex_sobe(a: Seq<usize>, b: Seq<usize>, p: int)
    requires
        0 <= p <= a.len(),
        p <= b.len(),
        a.subrange(0, p) == b.subrange(0, p),
        lex_menor(a.subrange(p, a.len() as int), b.subrange(p, b.len() as int)),
    ensures
        lex_menor(a, b),
{
    let ca = a.subrange(p, a.len() as int);
    let cb = b.subrange(p, b.len() as int);
    let k = choose|k: int|
        0 <= k < ca.len() && k < cb.len() && ca.subrange(0, k) == cb.subrange(0, k) && ca[k]
            < cb[k];
    assert(a.subrange(0, p + k) =~= b.subrange(0, p + k)) by {
        assert forall|m: int| 0 <= m < p + k implies a[m] == b[m] by {
            if m < p {
                assert(a.subrange(0, p)[m] == a[m]);
                assert(b.subrange(0, p)[m] == b[m]);
                assert(a.subrange(0, p)[m] == b.subrange(0, p)[m]);
            } else {
                assert(ca.subrange(0, k)[m - p] == ca[m - p]);
                assert(cb.subrange(0, k)[m - p] == cb[m - p]);
                assert(ca[m - p] == a[m]);
                assert(cb[m - p] == b[m]);
                assert(ca.subrange(0, k)[m - p] == cb.subrange(0, k)[m - p]);
            }
        }
    }
    assert(ca[k] == a[p + k]);
    assert(cb[k] == b[p + k]);
    assert(a[p + k] < b[p + k]);
}

/// Um testemunho lexicografico depois de um prefixo comum desce para as
/// caudas.
pub proof fn lema_lex_desce(a: Seq<usize>, b: Seq<usize>, p: int)
    requires
        0 <= p <= a.len(),
        p <= b.len(),
        a.subrange(0, p) == b.subrange(0, p),
        lex_menor(a, b),
    ensures
        lex_menor(a.subrange(p, a.len() as int), b.subrange(p, b.len() as int)),
{
    let k = choose|k: int|
        0 <= k < a.len() && k < b.len() && a.subrange(0, k) == b.subrange(0, k) && a[k] < b[k];
    if k < p {
        assert(a.subrange(0, p)[k] == a[k]);
        assert(b.subrange(0, p)[k] == b[k]);
        assert(a.subrange(0, p)[k] == b.subrange(0, p)[k]);
        assert(false);
    } else {
        let ca = a.subrange(p, a.len() as int);
        let cb = b.subrange(p, b.len() as int);
        assert(ca.subrange(0, k - p) =~= cb.subrange(0, k - p)) by {
            assert forall|m: int| 0 <= m < k - p implies ca[m] == cb[m] by {
                assert(a.subrange(0, k)[m + p] == a[m + p]);
                assert(b.subrange(0, k)[m + p] == b[m + p]);
                assert(a.subrange(0, k)[m + p] == b.subrange(0, k)[m + p]);
                assert(ca[m] == a[m + p]);
                assert(cb[m] == b[m + p]);
            }
        }
        assert(ca[k - p] == a[k]);
        assert(cb[k - p] == b[k]);
        assert(ca[k - p] < cb[k - p]);
    }
}

/// Com os mesmos elementos e um prefixo comum, as caudas tambem tem os
/// mesmos elementos.
pub proof fn lema_multiset_caudas(x: Seq<usize>, y: Seq<usize>, p: int)
    requires
        x.len() == y.len(),
        0 <= p <= x.len(),
        x.to_multiset() == y.to_multiset(),
        x.subrange(0, p) == y.subrange(0, p),
    ensures
        x.subrange(p, x.len() as int).to_multiset() == y.subrange(
            p,
            y.len() as int,
        ).to_multiset(),
{
    let px = x.subrange(0, p);
    let cx = x.subrange(p, x.len() as int);
    let cy = y.subrange(p, y.len() as int);
    assert(x =~= px + cx);
    assert(y =~= px + cy);
    vstd::seq_lib::lemma_multiset_commutative(px, cx);
    vstd::seq_lib::lemma_multiset_commutative(px, cy);
    assert(px.to_multiset().add(cx.to_multiset()) == px.to_multiset().add(cy.to_multiset()));
    assert(cx.to_multiset() =~= cy.to_multiset()) by {
        broadcast use vstd::multiset::group_multiset_axioms;

        assert forall|e: usize| #[trigger] cx.to_multiset().count(e) == cy.to_multiset().count(e)
        by {
            assert(px.to_multiset().add(cx.to_multiset()).count(e) == px.to_multiset().count(e)
                + cx.to_multiset().count(e));
            assert(px.to_multiset().add(cy.to_multiset()).count(e) == px.to_multiset().count(e)
                + cy.to_multiset().count(e));
        }
    }
}

/// Uma sequencia estritamente decrescente e o maior rearranjo dos seus
/// elementos na ordem lexicografica.
pub proof fn lema_decrescente_maxima(s: Seq<usize>, t: Seq<usize>)
    requires
        estritamente_decrescente(s),
        t.to_multiset() == s.to_multiset(),
    ensures
        lex_menor_igual(t, s),
    decreases s.len(),
{
    broadcast use vstd::seq_lib::group_to_multiset_ensures;

    assert(t.to_multiset().len() == t.len());
    assert(s.to_multiset().len() == s.len());
    if s.len() == 0 {
        assert(t =~= s);
    } else {
        assert(t.contains(t[0]));
        assert(t.to_multiset().count(t[0]) > 0);
        assert(s.to_multiset().count(t[0]) > 0);
        assert(s.contains(t[0]));
        let i = choose|i: int| 0 <= i < s.len() && s[i] == t[0];
        assert(t[0] <= s[0]);
        if t[0] < s[0] {
            assert(t.subrange(0, 0) =~= s.subrange(0, 0));
            assert(lex_menor(t, s));
        } else {
            assert(t.drop_first().to_multiset() == s.drop_first().to_multiset()) by {
                assert(t.drop_first() =~= t.remove(0));
                assert(s.drop_first() =~= s.remove(0));
            }
            assert(estritamente_decrescente(s.drop_first())) by {
                assert forall|a: int, b: int|
                    0 <= a < b < s.drop_first().len() implies s.drop_first()[a] > s.drop_first()[b]
                by {
                    assert(s.drop_first()[a] == s[a + 1]);
                    assert(s.drop_first()[b] == s[b + 1]);
                }
            }
            lema_decrescente_maxima(s.drop_first(), t.drop_first());
            if t.drop_first() == s.drop_first() {
                assert forall|m: int| 0 <= m < t.len() implies t[m] == s[m] by {
                    if m > 0 {
                        assert(t[m] == t.drop_first()[m - 1]);
                        assert(s[m] == s.drop_first()[m - 1]);
                    }
                }
                assert(t =~= s);
            } else {
                assert(t.subrange(0, 1) =~= s.subrange(0, 1));
                assert(t.drop_first() =~= t.subrange(1, t.len() as int));
                assert(s.drop_first() =~= s.subrange(1, s.len() as int));
                lema_lex_sobe(t, s, 1);
            }
        }
    }
}

/// Uma sequencia estritamente crescente e o menor rearranjo dos seus
/// elementos na ordem lexicografica.
pub proof fn lema_crescente_minima(s: Seq<usize>, t: Seq<usize>)
    requires
        estritamente_crescente(s),
        t.to_multiset() == s.to_multiset(),
    ensures
        lex_menor_igual(s, t),
    decreases s.len(),
{
    broadcast use vstd::seq_lib::group_to_multiset_ensures;

    assert(t.to_multiset().len() == t.len());
    assert(s.to_multiset().len() == s.len());
    if s.len() == 0 {
        assert(s =~= t);
    } else {
        assert(t.contains(t[0]));
        assert(t.to_multiset().count(t[0]) > 0);
        assert(s.to_multiset().count(t[0]) > 0);
        assert(s.contains(t[0]));
        let i = choose|i: int| 0 <= i < s.len() && s[i] == t[0];
        assert(s[0] <= t[0]);
        if s[0] < t[0] {
            assert(s.subrange(0, 0) =~= t.subrange(0, 0));
            assert(lex_menor(s, t));
        } else {
            assert(t.drop_first().to_multiset() == s.drop_first().to_multiset()) by {
                assert(t.drop_first() =~= t.remove(0));
                assert(s.drop_first() =~= s.remove(0));
            }
            assert(estritamente_crescente(s.drop_first())) by {
                assert forall|a: int, b: int|
                    0 <= a < b < s.drop_first().len() implies s.drop_first()[a] < s.drop_first()[b]
                by {
                    assert(s.drop_first()[a] == s[a + 1]);
                    assert(s.drop_first()[b] == s[b + 1]);
                }
            }
            lema_crescente_minima(s.drop_first(), t.drop_first());
            if s.drop_first() == t.drop_first() {
                assert forall|m: int| 0 <= m < s.len() implies s[m] == t[m] by {
                    if m > 0 {
                        assert(s[m] == s.drop_first()[m - 1]);
                        assert(t[m] == t.drop_first()[m - 1]);
                    }
                }
                assert(s =~= t);
            } else {
                assert(s.subrange(0, 1) =~= t.subrange(0, 1));
                assert(s.drop_first() =~= s.subrange(1, s.len() as int));
                assert(t.drop_first() =~= t.subrange(1, t.len() as int));
                lema_lex_sobe(s, t, 1);
            }
        }
    }
}

/// Duas sequencias nao decrescentes com os mesmos elementos (como
/// multiconjunto) sao iguais.
pub proof fn lema_ordenacao_unica(x: Seq<usize>, y: Seq<usize>)
    requires
        nao_decrescente(x),
        nao_decrescente(y),
        x.to_multiset() == y.to_multiset(),
    ensures
        x == y,
    decreases x.len(),
{
    broadcast use vstd::seq_lib::group_to_multiset_ensures;

    assert(x.to_multiset().len() == x.len());
    assert(y.to_multiset().len() == y.len());
    if x.len() == 0 {
        assert(x =~= y);
    } else {
        assert(x.contains(x[0]));
        assert(y.contains(y[0]));
        assert(x.to_multiset().count(x[0]) > 0);
        assert(y.to_multiset().count(y[0]) > 0);
        assert(y.to_multiset().count(x[0]) > 0);
        assert(x.to_multiset().count(y[0]) > 0);
        assert(y.contains(x[0]));
        assert(x.contains(y[0]));
        let i = choose|i: int| 0 <= i < y.len() && y[i] == x[0];
        let j = choose|j: int| 0 <= j < x.len() && x[j] == y[0];
        assert(y[0] <= y[i]);
        assert(x[0] <= x[j]);
        assert(x[0] == y[0]);
        assert(x.drop_first().to_multiset() == x.to_multiset().remove(x[0])) by {
            assert(x.drop_first() =~= x.remove(0));
        }
        assert(y.drop_first().to_multiset() == y.to_multiset().remove(y[0])) by {
            assert(y.drop_first() =~= y.remove(0));
        }
        lema_ordenacao_unica(x.drop_first(), y.drop_first());
        assert forall|k: int| 0 <= k < x.len() implies x[k] == y[k] by {
            if k > 0 {
                assert(x[k] == x.drop_first()[k - 1]);
                assert(y[k] == y.drop_first()[k - 1]);
            }
        }
        assert(x =~= y);
    }
}

/// Comparacoes adjacentes decrescentes dao a ordem decrescente em todo par.
proof fn lema_adjacente_ate(s: Seq<usize>, a: int, b: int)
    requires
        forall|k: int| 0 <= k < s.len() - 1 ==> #[trigger] s[k] > s[k + 1],
        0 <= a < b < s.len(),
    ensures
        s[a] > s[b],
    decreases b - a,
{
    if a + 1 < b {
        lema_adjacente_ate(s, a + 1, b);
    }
}

/// Uma sequencia com cada elemento maior do que o seguinte e
/// estritamente decrescente.
proof fn lema_adjacente_decrescente(s: Seq<usize>)
    requires
        forall|k: int| 0 <= k < s.len() - 1 ==> #[trigger] s[k] > s[k + 1],
    ensures
        estritamente_decrescente(s),
{
    assert forall|a: int, b: int| 0 <= a < b < s.len() implies s[a] > s[b] by {
        lema_adjacente_ate(s, a, b);
    }
}

/// Comparacoes adjacentes crescentes dao a ordem crescente em todo par.
proof fn lema_adjacente_ate_cresce(s: Seq<usize>, a: int, b: int)
    requires
        forall|k: int| 0 <= k < s.len() - 1 ==> #[trigger] s[k] < s[k + 1],
        0 <= a < b < s.len(),
    ensures
        s[a] < s[b],
    decreases b - a,
{
    if a + 1 < b {
        lema_adjacente_ate_cresce(s, a + 1, b);
    }
}

/// Uma sequencia com cada elemento menor do que o seguinte e
/// estritamente crescente.
proof fn lema_adjacente_crescente(s: Seq<usize>)
    requires
        forall|k: int| 0 <= k < s.len() - 1 ==> #[trigger] s[k] < s[k + 1],
    ensures
        estritamente_crescente(s),
{
    assert forall|a: int, b: int| 0 <= a < b < s.len() implies s[a] < s[b] by {
        lema_adjacente_ate_cresce(s, a, b);
    }
}

/// O passo central do avanco lexicografico: se a cauda de `v` depois da
/// posicao `i` e decrescente, `v[j]` e o menor elemento da cauda maior
/// do que `v[i]`, e `u` comeca como `v`, traz `v[j]` na posicao `i` e
/// segue com os elementos restantes em ordem crescente, entao `u` e a
/// sucessora imediata de `v`.
#[verifier::rlimit(100)]
pub proof fn lema_passo_sucessor(v: Seq<usize>, u: Seq<usize>, i: int, j: int)
    requires
        sem_duplicatas(v),
        0 <= i < j < v.len(),
        forall|k: int| i < k < v.len() - 1 ==> #[trigger] v[k] > v[k + 1],
        forall|k: int| j < k < v.len() ==> v[k] < v[i],
        v[j] > v[i],
        u.len() == v.len(),
        forall|k: int| 0 <= k < i ==> u[k] == v[k],
        u[i] == v[j],
        u.to_multiset() == v.to_multiset(),
        forall|k: int| i < k < u.len() - 1 ==> #[trigger] u[k] < u[k + 1],
    ensures
        e_sucessora(v, u),
{
    broadcast use vstd::seq_lib::group_to_multiset_ensures;

    assert(u.subrange(0, i) =~= v.subrange(0, i));
    assert(lex_menor(v, u));
    assert forall|t: Seq<usize>|
        t.to_multiset() == v.to_multiset() && lex_menor(v, t) implies lex_menor_igual(u, t) by {
        assert(t.to_multiset().len() == t.len());
        assert(u.to_multiset().len() == u.len());
        lema_lex_tricotomia(u, t);
        if t != u && lex_menor(t, u) {
            let k = choose|k: int|
                0 <= k < v.len() && k < t.len() && v.subrange(0, k) == t.subrange(0, k) && v[k]
                    < t[k];
            if k < i {
                assert(u.subrange(0, k) =~= t.subrange(0, k)) by {
                    assert forall|m: int| 0 <= m < k implies u[m] == t[m] by {
                        assert(v.subrange(0, k)[m] == t.subrange(0, k)[m]);
                    }
                }
                assert(u[k] == v[k] < t[k]);
                assert(lex_menor(u, t));
                lema_lex_antissimetrica(u, t);
            } else if k == i {
                assert(t.subrange(0, i) =~= v.subrange(0, i));
                lema_multiset_caudas(v, t, i);
                let cv = v.subrange(i, v.len() as int);
                let ct = t.subrange(i, t.len() as int);
                assert(ct[0] == t[i]);
                assert(ct.contains(t[i]));
                assert(ct.to_multiset().count(t[i]) > 0);
                assert(cv.to_multiset().count(t[i]) > 0);
                assert(cv.contains(t[i]));
                let mc = choose|m: int| 0 <= m < cv.len() && cv[m] == t[i];
                let m = mc + i;
                assert(v[m] == t[i]);
                assert(m != i);
                assert(m <= j) by {
                    if m > j {
                        assert(v[m] < v[i]);
                    }
                }
                assert(v[m] >= v[j]) by {
                    if m < j {
                        lema_adjacente_ate(v.subrange(i + 1, v.len() as int), m - i - 1, j - i
                            - 1);
                    }
                }
                assert(t[i] >= u[i]);
                if t[i] > u[i] {
                    assert(u.subrange(0, i) =~= t.subrange(0, i)) by {
                        assert forall|mm: int| 0 <= mm < i implies u[mm] == t[mm] by {
                            assert(v.subrange(0, i)[mm] == t.subrange(0, i)[mm]);
                        }
                    }
                    assert(lex_menor(u, t));
                    lema_lex_antissimetrica(u, t);
                } else {
                    assert(u.subrange(0, i + 1) =~= t.subrange(0, i + 1)) by {
                        assert forall|mm: int| 0 <= mm < i + 1 implies u[mm] == t[mm] by {
                            if mm < i {
                                assert(v.subrange(0, i)[mm] == t.subrange(0, i)[mm]);
                            }
                        }
                    }
                    lema_multiset_caudas(u, t, i + 1);
                    let cu2 = u.subrange(i + 1, u.len() as int);
                    let ct2 = t.subrange(i + 1, t.len() as int);
                    assert(estritamente_crescente(cu2)) by {
                        lema_adjacente_crescente(cu2);
                    }
                    lema_crescente_minima(cu2, ct2);
                    if cu2 == ct2 {
                        assert forall|mm: int| 0 <= mm < u.len() implies u[mm] == t[mm] by {
                            if mm < i + 1 {
                                assert(u.subrange(0, i + 1)[mm] == u[mm]);
                                assert(t.subrange(0, i + 1)[mm] == t[mm]);
                            } else {
                                assert(cu2[mm - i - 1] == u[mm]);
                                assert(ct2[mm - i - 1] == t[mm]);
                            }
                        }
                        assert(u =~= t);
                        assert(lex_menor(t, t));
                        lema_lex_antissimetrica(t, t);
                    } else {
                        lema_lex_sobe(u, t, i + 1);
                        lema_lex_antissimetrica(u, t);
                    }
                }
            } else {
                assert(t.subrange(0, i + 1) =~= v.subrange(0, i + 1)) by {
                    assert forall|mm: int| 0 <= mm < i + 1 implies t[mm] == v[mm] by {
                        assert(v.subrange(0, k)[mm] == t.subrange(0, k)[mm]);
                    }
                }
                lema_multiset_caudas(v, t, i + 1);
                let cv2 = v.subrange(i + 1, v.len() as int);
                let ct2 = t.subrange(i + 1, t.len() as int);
                assert(estritamente_decrescente(cv2)) by {
                    lema_adjacente_decrescente(cv2);
                }
                lema_decrescente_maxima(cv2, ct2);
                lema_lex_desce(v, t, i + 1);
                if ct2 == cv2 {
                    lema_lex_antissimetrica(cv2, cv2);
                } else {
                    lema_lex_antissimetrica(cv2, ct2);
                }
            }
        }
    }
}

/// Trocar dois elementos de lugar preserva o multiconjunto.
proof fn lema_troca_multiset(s: Seq<usize>, i: int, j: int)
    requires
        0 <= i < s.len(),
        0 <= j < s.len(),
    ensures
        s.update(i, s[j]).update(j, s[i]).to_multiset() == s.to_multiset(),
{
    broadcast use vstd::seq_lib::group_to_multiset_ensures;

    assert(s.update(i, s[j]).update(j, s[i]).to_multiset() == s.to_multiset());
}

/// Troca os elementos das posicoes `a` e `b`.
fn troca(vetor: &mut Vec<usize>, a: usize, b: usize)
    requires
        a < old(vetor)@.len(),
        b < old(vetor)@.len(),
    ensures
        final(vetor)@ == old(vetor)@.update(a as int, old(vetor)@[b as int]).update(
            b as int,
            old(vetor)@[a as int],
        ),
{
    let x = vetor[a];
    let y = vetor[b];
    vetor.set(a, y);
    vetor.set(b, x);
}

/// Ordenacao por insercao, usada para obter a primeira ordem
/// lexicografica dos elementos dados.
fn ordena(vetor: &mut Vec<usize>)
    ensures
        nao_decrescente(final(vetor)@),
        final(vetor)@.to_multiset() == old(vetor)@.to_multiset(),
        final(vetor)@.len() == old(vetor)@.len(),
{
    let ghost original = vetor@;
    let mut i: usize = 1;
    while i < vetor.len()
        invariant
            1 <= i,
            vetor@.len() == original.len(),
            vetor@.to_multiset() == original.to_multiset(),
            forall|a: int, b: int| 0 <= a < b < i && b < vetor@.len() ==> vetor@[a] <= vetor@[b],
        decreases vetor@.len() - i,
    {
        let mut j: usize = i;
        while j > 0 && vetor[j - 1] > vetor[j]
            invariant
                j <= i < vetor@.len(),
                vetor@.len() == original.len(),
                vetor@.to_multiset() == original.to_multiset(),
                forall|a: int, b: int|
                    0 <= a < b <= i && b != j ==> vetor@[a] <= vetor@[b],
                forall|b: int| j < b <= i ==> vetor@[j as int] < vetor@[b],
            decreases j,
        {
            proof {
                lema_troca_multiset(vetor@, j - 1, j as int);
            }
            troca(vetor, j - 1, j);
            j -= 1;
        }
        i += 1;
    }
}

/// Inverte, no lugar, o trecho do vetor a partir da posicao `a`.
fn inverte_sufixo(vetor: &mut Vec<usize>, a: usize)
    requires
        a <= old(vetor)@.len(),
    ensures
        final(vetor)@.len() == old(vetor)@.len(),
        final(vetor)@.to_multiset() == old(vetor)@.to_multiset(),
        forall|k: int| 0 <= k < a ==> final(vetor)@[k] == old(vetor)@[k],
        forall|k: int|
            a <= k < old(vetor)@.len() ==> final(vetor)@[k] == old(vetor)@[a + old(
                vetor,
            )@.len() - 1 - k],
{
    broadcast use vstd::seq_lib::group_to_multiset_ensures;

    if vetor.len() == 0 || a >= vetor.len() - 1 {
        return ;
    }
    let ghost original = vetor@;
    let mut e = a;
    let mut d = vetor.len() - 1;
    while e < d
        invariant
            a <= e,
            d < vetor@.len(),
            e + d == a + vetor@.len() - 1,
            vetor@.len() == original.len(),
            vetor@.to_multiset() == original.to_multiset(),
            forall|k: int| 0 <= k < a ==> vetor@[k] == original[k],
            forall|k: int| a <= k < e ==> vetor@[k] == original[a + original.len() - 1 - k],
            forall|k: int| d < k < vetor@.len() ==> vetor@[k] == original[a + original.len() - 1
                - k],
            forall|k: int| e <= k <= d ==> vetor@[k] == original[k],
        decreases d + 1 - e,
    {
        proof {
            lema_troca_multiset(vetor@, e as int, d as int);
        }
        troca(vetor, e, d);
        e += 1;
        d -= 1;
    }
}

/// A permutacao de indice 0 e a propria base.
pub proof fn lema_enesima_zero(base: Seq<usize>)
    ensures
        enesima_permutacao(base, 0) == base,
    decreases base.len(),
{
    if base.len() > 0 {
        lema_fatorial_positivo((base.len() - 1) as nat);
        let f = fatorial_de((base.len() - 1) as nat);
        assert((0 as nat) / f == 0) by (nonlinear_arith)
            requires
                f >= 1,
        ;
        assert((0 as nat) % f == 0) by (nonlinear_arith)
            requires
                f >= 1,
        ;
        lema_enesima_zero(base.remove(0));
        assert(seq![base[0]] + base.remove(0) =~= base);
    } else {
        assert(enesima_permutacao(base, 0) =~= base);
    }
}

/// Para um indice valido, a permutacao devolvida rearranja exatamente
/// os elementos da base.
pub proof fn lema_enesima_elementos(base: Seq<usize>, n: nat)
    requires
        n < fatorial_de(base.len() as nat),
    ensures
        enesima_permutacao(base, n).to_multiset() == base.to_multiset(),
        enesima_permutacao(base, n).len() == base.len(),
    decreases base.len(),
{
    broadcast use vstd::seq_lib::group_to_multiset_ensures;

    if base.len() > 0 {
        lema_fatorial_positivo((base.len() - 1) as nat);
        let f = fatorial_de((base.len() - 1) as nat);
        let d = n / f;
        assert(fatorial_de(base.len() as nat) == base.len() * f);
        vstd::arithmetic::div_mod::lemma_multiply_divide_lt(n as int, f as int, base.len() as int);
        assert(d < base.len());
        vstd::arithmetic::div_mod::lemma_mod_division_less_than_divisor(n as int, f as int);
        assert(n % f < f);
        assert(base.remove(d as int).len() == base.len() - 1);
        lema_enesima_elementos(base.remove(d as int), n % f);
        let cauda = enesima_permutacao(base.remove(d as int), n % f);
        assert(enesima_permutacao(base, n) == seq![base[d as int]] + cauda);
        vstd::seq_lib::lemma_multiset_commutative(seq![base[d as int]], cauda);
        assert(seq![base[d as int]].to_multiset() =~= Multiset::<usize>::empty().insert(
            base[d as int],
        )) by {
            assert(seq![base[d as int]] =~= Seq::<usize>::empty().push(base[d as int]));
        }
        assert(base.remove(d as int).to_multiset() == base.to_multiset().remove(base[d as int]));
        assert(enesima_permutacao(base, n).to_multiset() =~= base.to_multiset()) by {
            broadcast use vstd::multiset::group_multiset_axioms;

        }
    } else {
        assert(enesima_permutacao(base, n).to_multiset() =~= base.to_multiset());
    }
}

/// Retirar um elemento preserva a ordem estritamente crescente.
proof fn lema_remove_crescente(s: Seq<usize>, d: int)
    requires
        estritamente_crescente(s),
        0 <= d < s.len(),
    ensures
        estritamente_crescente(s.remove(d)),
{
    s.remove_ensures(d);
    assert forall|a: int, b: int|
        0 <= a < b < s.remove(d).len() implies s.remove(d)[a] < s.remove(d)[b] by {
        if a < d {
            assert(s.remove(d)[a] == s[a]);
        } else {
            assert(s.remove(d)[a] == s[a + 1]);
        }
        if b < d {
            assert(s.remove(d)[b] == s[b]);
        } else {
            assert(s.remove(d)[b] == s[b + 1]);
        }
    }
}

/// A permutacao de maior indice e a base em ordem invertida
/// (estritamente decrescente, para uma base estritamente crescente).
pub proof fn lema_enesima_ultima(base: Seq<usize>)
    requires
        estritamente_crescente(base),
    ensures
        estritamente_decrescente(
            enesima_permutacao(base, (fatorial_de(base.len() as nat) - 1) as nat),
        ),
    decreases base.len(),
{
    broadcast use vstd::seq_lib::group_to_multiset_ensures;

    if base.len() > 0 {
        let len = base.len() as int;
        lema_fatorial_positivo((base.len() - 1) as nat);
        lema_fatorial_positivo(base.len() as nat);
        let f = fatorial_de((base.len() - 1) as nat);
        let r = (fatorial_de(base.len() as nat) - 1) as nat;
        assert(fatorial_de(base.len() as nat) == base.len() * f);
        assert(r == base.len() * f - 1);
        assert(r as int == f * (len - 1) + (f - 1)) by (nonlinear_arith)
            requires
                r as int == len * f - 1,
                f >= 1,
        ;
        vstd::arithmetic::div_mod::lemma_fundamental_div_mod_converse_div(
            r as int,
            f as int,
            len - 1,
            f - 1,
        );
        vstd::arithmetic::div_mod::lemma_fundamental_div_mod_converse_mod(
            r as int,
            f as int,
            len - 1,
            f - 1,
        );
        let d = r / f;
        assert(d == len - 1);
        assert(r % f == f - 1);
        let resto = base.remove(d as int);
        assert(resto.len() == base.len() - 1);
        lema_remove_crescente(base, d as int);
        assert(fatorial_de(resto.len() as nat) == f);
        lema_enesima_ultima(resto);
        let cauda = enesima_permutacao(resto, (f - 1) as nat);
        assert(enesima_permutacao(base, r) == seq![base[d as int]] + cauda);
        if f - 1 < f {
            lema_enesima_elementos(resto, (f - 1) as nat);
        }
        let todo = enesima_permutacao(base, r);
        assert forall|a: int, b: int| 0 <= a < b < todo.len() implies todo[a] > todo[b] by {
            if a == 0 {
                assert(todo[b] == cauda[b - 1]);
                assert(cauda.contains(cauda[b - 1]));
                assert(cauda.to_multiset().count(cauda[b - 1]) > 0);
                assert(resto.to_multiset().count(cauda[b - 1]) > 0);
                assert(resto.contains(cauda[b - 1]));
                let m = choose|m: int| 0 <= m < resto.len() && resto[m] == cauda[b - 1];
                resto.remove_ensures(0);
                base.remove_ensures(d as int);
                assert(resto[m] == base[m]);
                assert(base[m] < base[d as int]);
            } else {
                assert(todo[a] == cauda[a - 1]);
                assert(todo[b] == cauda[b - 1]);
            }
        }
    }
}

/// Se uma posicao se repete, o elemento aparece pelo menos duas vezes
/// no multiconjunto.
proof fn lema_duplicata_conta(s: Seq<usize>, p: int, q: int)
    requires
        0 <= p < q < s.len(),
        s[p] == s[q],
    ensures
        s.to_multiset().count(s[p]) >= 2,
{
    broadcast use vstd::seq_lib::group_to_multiset_ensures;

    let sem = s.remove(p);
    s.remove_ensures(p);
    assert(sem[q - 1] == s[q]);
    assert(sem.contains(s[q]));
    assert(sem.to_multiset().count(s[q]) > 0);
    assert(sem.to_multiset() == s.to_multiset().remove(s[p]));
    broadcast use vstd::multiset::group_multiset_axioms;

    assert(s.to_multiset().contains(s[p])) by {
        assert(s.contains(s[p]));
    }
}

/// Quem rearranja uma sequencia sem repeticoes tambem nao repete.
pub proof fn lema_mesmo_multiset_sem_duplicatas(base: Seq<usize>, v: Seq<usize>)
    requires
        sem_duplicatas(base),
        v.to_multiset() == base.to_multiset(),
    ensures
        sem_duplicatas(v),
{
    broadcast use vstd::seq_lib::group_to_multiset_ensures;

    assert forall|p: int, q: int| 0 <= p < q < v.len() implies v[p] != v[q] by {
        if v[p] == v[q] {
            lema_duplicata_conta(v, p, q);
            assert(base.to_multiset().count(v[p]) >= 2);
            assert(base.contains(v[p]));
            let m1 = choose|m: int| 0 <= m < base.len() && base[m] == v[p];
            let sem = base.remove(m1);
            base.remove_ensures(m1);
            assert(sem.to_multiset() == base.to_multiset().remove(base[m1]));
            assert(sem.to_multiset().count(v[p]) >= 1);
            assert(sem.contains(v[p]));
            let m2 = choose|m: int| 0 <= m < sem.len() && sem[m] == v[p];
            if m2 < m1 {
                assert(sem[m2] == base[m2]);
            } else {
                assert(sem[m2] == base[m2 + 1]);
            }
        }
    }
}

/// Acrescentar o mesmo primeiro elemento preserva a relacao de
/// sucessao imediata.
pub proof fn lema_levanta_sucessora(x: usize, a: Seq<usize>, b: Seq<usize>)
    requires
        e_sucessora(a, b),
    ensures
        e_sucessora(seq![x] + a, seq![x] + b),
{
    broadcast use vstd::seq_lib::group_to_multiset_ensures;

    let xa = seq![x] + a;
    let xb = seq![x] + b;
    vstd::seq_lib::lemma_multiset_commutative(seq![x], a);
    vstd::seq_lib::lemma_multiset_commutative(seq![x], b);
    assert(xb.to_multiset() == xa.to_multiset());
    assert(xa.subrange(1, xa.len() as int) =~= a);
    assert(xb.subrange(1, xb.len() as int) =~= b);
    assert(xa.subrange(0, 1) =~= xb.subrange(0, 1));
    assert(a.to_multiset().len() == a.len());
    assert(b.to_multiset().len() == b.len());
    lema_lex_sobe(xa, xb, 1);
    assert forall|t: Seq<usize>|
        t.to_multiset() == xa.to_multiset() && lex_menor(xa, t) implies lex_menor_igual(xb, t) by {
        assert(t.to_multiset().len() == t.len());
        assert(xa.to_multiset().len() == xa.len());
        if t[0] == x {
            assert(t.subrange(0, 1) =~= xa.subrange(0, 1));
            lema_multiset_caudas(xa, t, 1);
            lema_lex_desce(xa, t, 1);
            let tc = t.subrange(1, t.len() as int);
            assert(lex_menor(a, tc));
            assert(tc.to_multiset() == a.to_multiset());
            assert(lex_menor_igual(b, tc));
            if b == tc {
                assert(xb =~= t) by {
                    assert forall|m: int| 0 <= m < xb.len() implies xb[m] == t[m] by {
                        if m >= 1 {
                            assert(tc[m - 1] == t[m]);
                            assert(xb[m] == b[m - 1]);
                        }
                    }
                }
            } else {
                lema_lex_sobe(xb, t, 1);
            }
        } else {
            let k = choose|k: int|
                0 <= k < xa.len() && k < t.len() && xa.subrange(0, k) == t.subrange(0, k)
                    && xa[k] < t[k];
            if k > 0 {
                assert(xa.subrange(0, k)[0] == t.subrange(0, k)[0]);
                assert(xa[0] == t[0]);
                assert(false);
            }
            assert(xa[0] < t[0]);
            assert(xb.subrange(0, 0) =~= t.subrange(0, 0));
            assert(xb[0] == x < t[0]);
            assert(lex_menor(xb, t));
        }
    }
}

/// O caso do avanco de indice em que o resto do sistema fatorial
/// transborda: o primeiro elemento muda para o seguinte da base e a
/// cauda recomeca em ordem crescente.
#[verifier::rlimit(100)]
proof fn lema_sucessora_vira_digito(base: Seq<usize>, n: nat)
    requires
        estritamente_crescente(base),
        base.len() >= 2,
        n + 1 < fatorial_de(base.len() as nat),
        n % fatorial_de((base.len() - 1) as nat) + 1 == fatorial_de((base.len() - 1) as nat),
    ensures
        e_sucessora(enesima_permutacao(base, n), enesima_permutacao(base, n + 1)),
{
    broadcast use vstd::seq_lib::group_to_multiset_ensures;

    let len = base.len() as int;
    lema_fatorial_positivo((base.len() - 1) as nat);
    let f = fatorial_de((base.len() - 1) as nat);
    assert(fatorial_de(base.len() as nat) == base.len() * f);
    let d1 = n / f;
    let r1 = n % f;
    vstd::arithmetic::div_mod::lemma_fundamental_div_mod(n as int, f as int);
    vstd::arithmetic::div_mod::lemma_mod_division_less_than_divisor(n as int, f as int);
    assert(len * f == f * len) by (nonlinear_arith);
    vstd::arithmetic::div_mod::lemma_multiply_divide_lt(n as int, f as int, len);
    vstd::arithmetic::div_mod::lemma_multiply_divide_lt(n as int + 1, f as int, len);
    assert(d1 < base.len());
    let resto1 = base.remove(d1 as int);
    lema_remove_crescente(base, d1 as int);
    assert(resto1.len() == base.len() - 1);
    assert(fatorial_de(resto1.len() as nat) == f);
    let v = enesima_permutacao(base, n);
    let u = enesima_permutacao(base, n + 1);
    assert(r1 + 1 == f);
    assert(n as int + 1 == f * (d1 as int + 1) + 0) by (nonlinear_arith)
        requires
            n as int == f * d1 + r1,
            r1 + 1 == f,
    ;
    vstd::arithmetic::div_mod::lemma_fundamental_div_mod_converse_div(
        n as int + 1,
        f as int,
        d1 as int + 1,
        0,
    );
    vstd::arithmetic::div_mod::lemma_fundamental_div_mod_converse_mod(
        n as int + 1,
        f as int,
        d1 as int + 1,
        0,
    );
    let d2 = (n + 1) / f;
    assert(d2 == d1 + 1);
    assert(d2 < base.len());
    let resto2 = base.remove(d2 as int);
    assert(r1 == f - 1);
    assert(v == seq![base[d1 as int]] + enesima_permutacao(resto1, (f - 1) as nat));
    lema_enesima_zero(resto2);
    assert(u == seq![base[d2 as int]] + resto2);
    let cauda1 = enesima_permutacao(resto1, (f - 1) as nat);
    lema_fatorial_positivo(resto1.len() as nat);
    lema_enesima_elementos(resto1, (f - 1) as nat);
    lema_enesima_ultima(resto1);
    lema_enesima_elementos(base, n);
    lema_enesima_elementos(base, n + 1);
    lema_mesmo_multiset_sem_duplicatas(base, v);
    // posicao do elemento base[d2] dentro de v
    base.remove_ensures(d1 as int);
    base.remove_ensures(d2 as int);
    assert(resto1[d1 as int] == base[d2 as int]);
    assert(resto1.contains(base[d2 as int]));
    assert(resto1.to_multiset().count(base[d2 as int]) > 0);
    assert(cauda1.to_multiset().count(base[d2 as int]) > 0);
    assert(cauda1.contains(base[d2 as int]));
    let m = choose|m: int| 0 <= m < cauda1.len() && cauda1[m] == base[d2 as int];
    let j = m + 1;
    assert(v.len() == base.len());
    assert(v[j] == cauda1[m]);
    assert(v[0] == base[d1 as int]);
    assert(v[j] > v[0]);
    // cauda de v estritamente decrescente, em pares adjacentes
    assert(forall|k: int| 0 < k < len - 1 ==> #[trigger] v[k] > v[k + 1]) by {
        assert forall|k: int| 0 < k < len - 1 implies #[trigger] v[k] > v[k + 1] by {
            assert(v[k] == cauda1[k - 1]);
            assert(v[k + 1] == cauda1[k]);
        }
    }
    // depois da posicao j, todos os elementos ficam abaixo de v[0]
    assert(forall|k: int| j < k < len ==> #[trigger] v[k] < v[0]) by {
        assert forall|k: int| j < k < len implies #[trigger] v[k] < v[0] by {
            assert(v[k] == cauda1[k - 1]);
            assert(cauda1[k - 1] < cauda1[m]);
            assert(cauda1.contains(cauda1[k - 1]));
            assert(cauda1.to_multiset().count(cauda1[k - 1]) > 0);
            assert(resto1.to_multiset().count(cauda1[k - 1]) > 0);
            assert(resto1.contains(cauda1[k - 1]));
            let p = choose|p: int| 0 <= p < resto1.len() && resto1[p] == cauda1[k - 1];
            if p < d1 {
                assert(resto1[p] == base[p]);
                assert(base[p] < base[d1 as int]);
            } else {
                assert(resto1[p] == base[p + 1]);
                assert(base[p + 1] >= base[d2 as int]) by {
                    if p + 1 > d2 {
                        assert(base[d2 as int] < base[p + 1]);
                    }
                }
                assert(false);
            }
        }
    }
    // u comeca em v[j] e segue com os restantes em ordem crescente
    lema_remove_crescente(base, d2 as int);
    assert(u[0] == v[j]);
    assert(forall|k: int| 0 < k < len - 1 ==> #[trigger] u[k] < u[k + 1]) by {
        assert forall|k: int| 0 < k < len - 1 implies #[trigger] u[k] < u[k + 1] by {
            assert(u[k] == resto2[k - 1]);
            assert(u[k + 1] == resto2[k]);
        }
    }
    assert(u.to_multiset() == v.to_multiset());
    assert(0 < j < v.len()) by {
        assert(m < cauda1.len());
        assert(cauda1.len() == resto1.len());
    }
    lema_passo_sucessor(v, u, 0, j);
}

/// Avancar o indice em 1 avanca a permutacao para a sua sucessora
/// imediata: a enumeracao pelo sistema de numeracao fatorial percorre
/// as permutacoes exatamente na ordem lexicografica.
#[verifier::rlimit(100)]
pub proof fn lema_sucessora_da_enesima(base: Seq<usize>, n: nat)
    requires
        estritamente_crescente(base),
        n + 1 < fatorial_de(base.len() as nat),
    ensures
        e_sucessora(enesima_permutacao(base, n), enesima_permutacao(base, n + 1)),
    decreases base.len(),
{
    broadcast use vstd::seq_lib::group_to_multiset_ensures;

    let len = base.len() as int;
    if base.len() <= 1 {
        assert(fatorial_de(0) == 1);
        assert(fatorial_de(1) == 1 * fatorial_de(0));
        assert(fatorial_de(base.len() as nat) == 1);
        assert(false);
    }
    lema_fatorial_positivo((base.len() - 1) as nat);
    let f = fatorial_de((base.len() - 1) as nat);
    assert(fatorial_de(base.len() as nat) == base.len() * f);
    let d1 = n / f;
    let r1 = n % f;
    vstd::arithmetic::div_mod::lemma_fundamental_div_mod(n as int, f as int);
    vstd::arithmetic::div_mod::lemma_mod_division_less_than_divisor(n as int, f as int);
    assert(len * f == f * len) by (nonlinear_arith);
    vstd::arithmetic::div_mod::lemma_multiply_divide_lt(n as int, f as int, len);
    vstd::arithmetic::div_mod::lemma_multiply_divide_lt(n as int + 1, f as int, len);
    assert(d1 < base.len());
    let resto1 = base.remove(d1 as int);
    lema_remove_crescente(base, d1 as int);
    assert(resto1.len() == base.len() - 1);
    assert(fatorial_de(resto1.len() as nat) == f);
    let v = enesima_permutacao(base, n);
    let u = enesima_permutacao(base, n + 1);
    if r1 + 1 < f {
        vstd::arithmetic::div_mod::lemma_fundamental_div_mod_converse_div(
            n as int + 1,
            f as int,
            d1 as int,
            r1 as int + 1,
        );
        vstd::arithmetic::div_mod::lemma_fundamental_div_mod_converse_mod(
            n as int + 1,
            f as int,
            d1 as int,
            r1 as int + 1,
        );
        assert((n + 1) / f == d1);
        assert((n + 1) % f == r1 + 1);
        assert(v == seq![base[d1 as int]] + enesima_permutacao(resto1, r1));
        assert(u == seq![base[d1 as int]] + enesima_permutacao(resto1, (r1 + 1) as nat));
        lema_sucessora_da_enesima(resto1, r1);
        lema_levanta_sucessora(
            base[d1 as int],
            enesima_permutacao(resto1, r1),
            enesima_permutacao(resto1, (r1 + 1) as nat),
        );
    } else {
        lema_sucessora_vira_digito(base, n);
    }
}

/// Contar os menores e indiferente a remocao: sai um, desconta um.
proof fn lema_conta_menores_remove(s: Seq<usize>, i: int, x: usize)
    requires
        0 <= i < s.len(),
    ensures
        conta_menores(s, x) == conta_menores(s.remove(i), x) + (if s[i] < x {
            1nat
        } else {
            0nat
        }),
    decreases s.len(),
{
    s.remove_ensures(i);
    if i == 0 {
        assert(s.remove(0) =~= s.drop_first());
    } else {
        assert(s.remove(i)[0] == s[0]);
        assert(s.remove(i).drop_first() =~= s.drop_first().remove(i - 1));
        assert(s.drop_first()[i - 1] == s[i]);
        lema_conta_menores_remove(s.drop_first(), i - 1, x);
    }
}

/// A contagem dos menores so depende do multiconjunto dos elementos.
proof fn lema_conta_menores_multiset(s1: Seq<usize>, s2: Seq<usize>, x: usize)
    requires
        s1.to_multiset() == s2.to_multiset(),
    ensures
        conta_menores(s1, x) == conta_menores(s2, x),
    decreases s1.len(),
{
    broadcast use vstd::seq_lib::group_to_multiset_ensures;

    assert(s1.to_multiset().len() == s1.len());
    assert(s2.to_multiset().len() == s2.len());
    if s1.len() > 0 {
        let e = s1[0];
        assert(s1.contains(e));
        assert(s1.to_multiset().count(e) > 0);
        assert(s2.to_multiset().count(e) > 0);
        assert(s2.contains(e));
        let idx = choose|idx: int| 0 <= idx < s2.len() && s2[idx] == e;
        lema_conta_menores_remove(s2, idx, x);
        assert(s1.drop_first().to_multiset() == s1.to_multiset().remove(e)) by {
            assert(s1.drop_first() =~= s1.remove(0));
        }
        assert(s2.remove(idx).to_multiset() == s2.to_multiset().remove(e));
        lema_conta_menores_multiset(s1.drop_first(), s2.remove(idx), x);
    }
}

/// Numa sequencia em que ninguem fica abaixo de `x`, a contagem e zero.
proof fn lema_conta_menores_nenhum(s: Seq<usize>, x: usize)
    requires
        forall|k: int| 0 <= k < s.len() ==> #[trigger] s[k] >= x,
    ensures
        conta_menores(s, x) == 0,
    decreases s.len(),
{
    if s.len() > 0 {
        assert(forall|k: int|
            0 <= k < s.drop_first().len() ==> #[trigger] s.drop_first()[k] == s[k + 1]);
        lema_conta_menores_nenhum(s.drop_first(), x);
    }
}

/// Numa sequencia estritamente crescente, o elemento da posicao `d`
/// tem exatamente `d` elementos menores.
proof fn lema_conta_menores_ordenada(s: Seq<usize>, d: int)
    requires
        estritamente_crescente(s),
        0 <= d < s.len(),
    ensures
        conta_menores(s, s[d]) == d,
    decreases d,
{
    if d == 0 {
        assert(forall|k: int|
            0 <= k < s.drop_first().len() ==> #[trigger] s.drop_first()[k] == s[k + 1]);
        lema_conta_menores_nenhum(s.drop_first(), s[0]);
    } else {
        assert(estritamente_crescente(s.drop_first())) by {
            assert(forall|k: int|
                0 <= k < s.drop_first().len() ==> #[trigger] s.drop_first()[k] == s[k + 1]);
        }
        assert(s.drop_first()[d - 1] == s[d]);
        lema_conta_menores_ordenada(s.drop_first(), d - 1);
        assert(s[0] < s[d]);
    }
}

/// Ninguem conta mais menores do que elementos.
proof fn lema_conta_menores_limite(s: Seq<usize>, x: usize)
    ensures
        conta_menores(s, x) <= s.len(),
    decreases s.len(),
{
    if s.len() > 0 {
        lema_conta_menores_limite(s.drop_first(), x);
    }
}

/// O indice de qualquer permutacao fica abaixo de `len!`.
pub proof fn lema_indice_limite(s: Seq<usize>)
    ensures
        indice_da_permutacao(s) < fatorial_de(s.len() as nat),
    decreases s.len(),
{
    if s.len() == 0 {
    } else {
        let f = fatorial_de((s.len() - 1) as nat);
        lema_fatorial_positivo((s.len() - 1) as nat);
        lema_conta_menores_limite(s.drop_first(), s[0]);
        lema_indice_limite(s.drop_first());
        assert(conta_menores(s.drop_first(), s[0]) * f + indice_da_permutacao(s.drop_first())
            < s.len() * f) by (nonlinear_arith)
            requires
                conta_menores(s.drop_first(), s[0]) <= s.len() - 1,
                indice_da_permutacao(s.drop_first()) < f,
                f >= 1,
                s.len() >= 1,
        ;
        assert(fatorial_de(s.len() as nat) == s.len() * f);
    }
}

/// A indexacao desfaz a desindexacao: recuperar o indice da `n`-esima
/// permutacao devolve `n`. As duas operacoes formam uma bijecao entre
/// `[0, len!)` e as permutacoes da base.
pub proof fn lema_bijecao_do_indice(base: Seq<usize>, n: nat)
    requires
        estritamente_crescente(base),
        n < fatorial_de(base.len() as nat),
    ensures
        indice_da_permutacao(enesima_permutacao(base, n)) == n,
    decreases base.len(),
{
    if base.len() == 0 {
        assert(fatorial_de(0) == 1);
    } else {
        let len = base.len() as int;
        lema_fatorial_positivo((base.len() - 1) as nat);
        let f = fatorial_de((base.len() - 1) as nat);
        assert(fatorial_de(base.len() as nat) == base.len() * f);
        let d = n / f;
        vstd::arithmetic::div_mod::lemma_fundamental_div_mod(n as int, f as int);
        vstd::arithmetic::div_mod::lemma_mod_division_less_than_divisor(n as int, f as int);
        assert(len * f == f * len) by (nonlinear_arith);
        vstd::arithmetic::div_mod::lemma_multiply_divide_lt(n as int, f as int, len);
        assert(d < base.len());
        let resto = base.remove(d as int);
        lema_remove_crescente(base, d as int);
        assert(resto.len() == base.len() - 1);
        assert(fatorial_de(resto.len() as nat) == f);
        let cauda = enesima_permutacao(resto, n % f);
        let v = enesima_permutacao(base, n);
        assert(v == seq![base[d as int]] + cauda);
        lema_bijecao_do_indice(resto, n % f);
        lema_enesima_elementos(resto, n % f);
        assert(v.drop_first() =~= cauda);
        assert(v[0] == base[d as int]);
        lema_conta_menores_multiset(cauda, resto, base[d as int]);
        lema_conta_menores_remove(base, d as int, base[d as int]);
        lema_conta_menores_ordenada(base, d as int);
        assert(conta_menores(cauda, base[d as int]) == d);
        assert(v.len() == 1 + cauda.len());
        assert(indice_da_permutacao(v) == d * f + indice_da_permutacao(cauda));
        assert(d * f == f * d) by (nonlinear_arith);
    }
}

/// A desindexacao desfaz a indexacao: toda permutacao dos elementos da
/// base e alcancada, pelo seu proprio indice. Com o lema da bijecao,
/// a caminhada pelos indices `0, 1, ..., len! - 1` visita cada
/// rearranjo exatamente uma vez.
pub proof fn lema_enesima_do_indice(base: Seq<usize>, p: Seq<usize>)
    requires
        estritamente_crescente(base),
        p.to_multiset() == base.to_multiset(),
    ensures
        indice_da_permutacao(p) < fatorial_de(base.len() as nat),
        enesima_permutacao(base, indice_da_permutacao(p)) == p,
    decreases base.len(),
{
    broadcast use vstd::seq_lib::group_to_multiset_ensures;

    assert(p.to_multiset().len() == p.len());
    assert(base.to_multiset().len() == base.len());
    lema_indice_limite(p);
    if base.len() == 0 {
        assert(enesima_permutacao(base, indice_da_permutacao(p)) =~= p);
    } else {
        let len = base.len() as int;
        lema_fatorial_positivo((base.len() - 1) as nat);
        let f = fatorial_de((base.len() - 1) as nat);
        assert(fatorial_de(base.len() as nat) == base.len() * f);
        let e = p[0];
        assert(p.contains(e));
        assert(p.to_multiset().count(e) > 0);
        assert(base.to_multiset().count(e) > 0);
        assert(base.contains(e));
        let dpos = choose|d: int| 0 <= d < base.len() && base[d] == e;
        let resto = base.remove(dpos);
        base.remove_ensures(dpos);
        lema_remove_crescente(base, dpos);
        assert(fatorial_de(resto.len() as nat) == f);
        assert(p.drop_first().to_multiset() == resto.to_multiset()) by {
            assert(p.drop_first() =~= p.remove(0));
            assert(p.remove(0).to_multiset() == p.to_multiset().remove(e));
            assert(resto.to_multiset() == base.to_multiset().remove(e));
        }
        let c = conta_menores(p.drop_first(), e);
        lema_conta_menores_multiset(p.drop_first(), resto, e);
        lema_conta_menores_remove(base, dpos, e);
        lema_conta_menores_ordenada(base, dpos);
        assert(c == dpos);
        lema_indice_limite(p.drop_first());
        assert(p.drop_first().len() == resto.len());
        let ind = indice_da_permutacao(p);
        assert(ind == c * f + indice_da_permutacao(p.drop_first()));
        vstd::arithmetic::div_mod::lemma_fundamental_div_mod_converse_div(
            ind as int,
            f as int,
            c as int,
            indice_da_permutacao(p.drop_first()) as int,
        );
        vstd::arithmetic::div_mod::lemma_fundamental_div_mod_converse_mod(
            ind as int,
            f as int,
            c as int,
            indice_da_permutacao(p.drop_first()) as int,
        );
        assert(ind / f == c);
        assert(ind % f == indice_da_permutacao(p.drop_first()));
        lema_enesima_do_indice(resto, p.drop_first());
        assert(enesima_permutacao(base, ind) == seq![e] + p.drop_first());
        assert(seq![e] + p.drop_first() =~= p);
        assert(ind < base.len() * f) by (nonlinear_arith)
            requires
                ind == c * f + indice_da_permutacao(p.drop_first()),
                c < base.len(),
                indice_da_permutacao(p.drop_first()) < f,
                f >= 1,
        ;
    }
}

/// Recupera o indice (posicao lexicografica, comecando em 0) da
/// permutacao guardada em `vetor` entre os rearranjos dos seus proprios
/// elementos: em cada posicao, conta os elementos menores que ainda
/// estao a direita e pesa a contagem pelo fatorial correspondente.
pub fn indice_ordem_lexicografica(vetor: &Vec<usize>) -> (indice: u64)
    requires
        fatorial_de(vetor@.len() as nat) <= usize::MAX,
    ensures
        indice == indice_da_permutacao(vetor@),
        indice < fatorial_de(vetor@.len() as nat),
{
    proof {
        lema_indice_limite(vetor@);
    }
    let n = vetor.len();
    if n == 0 {
        return 0;
    }
    proof {
        lema_fatorial_nao_decrescente((n - 1) as nat, n as nat);
        lema_fatorial_positivo((n - 1) as nat);
    }
    let mut fatorial: usize = crate::fatorial::calcula_fatorial(n - 1);
    let mut soma: usize = 0;
    let mut pos: usize = 0;
    proof {
        assert(vetor@.subrange(0, n as int) =~= vetor@);
    }
    while pos < n
        invariant
            pos <= n == vetor@.len(),
            fatorial_de(n as nat) <= usize::MAX,
            indice_da_permutacao(vetor@) < fatorial_de(n as nat),
            pos < n ==> fatorial == fatorial_de((n - pos - 1) as nat),
            soma + indice_da_permutacao(vetor@.subrange(pos as int, n as int))
                == indice_da_permutacao(vetor@),
        decreases n - pos,
    {
        let ghost sufixo = vetor@.subrange(pos as int, n as int);
        let mut conta: usize = 0;
        let mut q: usize = pos + 1;
        while q < n
            invariant
                pos < q <= n == vetor@.len(),
                conta == conta_menores(
                    vetor@.subrange(pos as int + 1, q as int),
                    vetor@[pos as int],
                ),
                conta <= q - pos - 1,
            decreases n - q,
        {
            let ghost antes = vetor@.subrange(pos as int + 1, q as int);
            proof {
                assert(vetor@.subrange(pos as int + 1, q as int + 1) =~= antes.push(
                    vetor@[q as int],
                ));
                lema_conta_menores_push(antes, vetor@[pos as int], vetor@[q as int]);
            }
            if vetor[q] < vetor[pos] {
                conta += 1;
            }
            q += 1;
        }
        proof {
            assert(sufixo[0] == vetor@[pos as int]);
            assert(sufixo.drop_first() =~= vetor@.subrange(pos as int + 1, n as int));
            assert(sufixo.len() == n - pos);
            assert(indice_da_permutacao(sufixo) == conta_menores(
                sufixo.drop_first(),
                sufixo[0],
            ) * fatorial + indice_da_permutacao(sufixo.drop_first()));
            assert(conta_menores(sufixo.drop_first(), sufixo[0]) == conta);
            assert(conta * fatorial <= indice_da_permutacao(sufixo));
        }
        soma = soma + conta * fatorial;
        if n - pos - 1 > 0 {
            proof {
                assert(fatorial_de((n - pos - 1) as nat) == (n - pos - 1) * fatorial_de(
                    (n - pos - 2) as nat,
                ));
                vstd::arithmetic::div_mod::lemma_div_multiples_vanish(
                    fatorial_de((n - pos - 2) as nat) as int,
                    (n - pos - 1) as int,
                );
                lema_fatorial_positivo((n - pos - 2) as nat);
            }
            fatorial = fatorial / (n - pos - 1);
        } else {
            fatorial = 1;
        }
        pos += 1;
    }
    proof {
        assert(vetor@.subrange(n as int, n as int) =~= Seq::<usize>::empty());
        assert(indice_da_permutacao(Seq::<usize>::empty()) == 0);
    }
    soma as u64
}

/// Acrescentar um elemento no fim soma um a contagem se ele for menor.
proof fn lema_conta_menores_push(s: Seq<usize>, x: usize, e: usize)
    ensures
        conta_menores(s.push(e), x) == conta_menores(s, x) + (if e < x {
            1nat
        } else {
            0nat
        }),
    decreases s.len(),
{
    if s.len() == 0 {
        assert(s.push(e).drop_first() =~= Seq::<usize>::empty());
        assert(s.push(e)[0] == e);
        assert(conta_menores(Seq::<usize>::empty(), x) == 0);
        assert(conta_menores(s, x) == 0);
    } else {
        assert(s.push(e).drop_first() =~= s.drop_first().push(e));
        assert(s.push(e)[0] == s[0]);
        lema_conta_menores_push(s.drop_first(), x, e);
    }
}

/// Uma sequencia estritamente decrescente nao tem sucessora.
pub proof fn lema_decrescente_sem_sucessora(v: Seq<usize>)
    requires
        estritamente_decrescente(v),
    ensures
        !tem_sucessora(v),
{
    assert forall|t: Seq<usize>| t.to_multiset() == v.to_multiset() implies !lex_menor(v, t) by {
        lema_decrescente_maxima(v, t);
        if lex_menor(v, t) {
            lema_lex_antissimetrica(v, t);
        }
    }
}

/// Liga o que o algoritmo de avanco constroi (a troca e a inversao da
/// cauda) a forma exigida por `lema_passo_sucessor`.
proof fn lema_monta_sucessora(v0: Seq<usize>, w: Seq<usize>, u: Seq<usize>, i: int, j: int)
    requires
        sem_duplicatas(v0),
        0 <= i < j < v0.len(),
        forall|k: int| i < k < v0.len() - 1 ==> #[trigger] v0[k] > v0[k + 1],
        forall|k: int| j < k < v0.len() ==> v0[k] < v0[i],
        v0[j] > v0[i],
        w == v0.update(i, v0[j]).update(j, v0[i]),
        u.len() == v0.len(),
        forall|k: int| 0 <= k < i + 1 ==> u[k] == w[k],
        forall|k: int| i + 1 <= k < v0.len() ==> u[k] == w[i + 1 + v0.len() - 1 - k],
        u.to_multiset() == v0.to_multiset(),
    ensures
        e_sucessora(v0, u),
{
    let n = v0.len() as int;
    assert(forall|k: int| i < k < n - 1 ==> #[trigger] w[k] > w[k + 1]) by {
        assert forall|k: int| i < k < n - 1 implies #[trigger] w[k] > w[k + 1] by {
            if k == j {
                assert(w[k] == v0[i]);
                assert(w[k + 1] == v0[k + 1]);
            } else if k + 1 == j {
                assert(w[k] == v0[k]);
                assert(w[k + 1] == v0[i]);
                assert(v0[k] > v0[k + 1]);
                assert(v0[j] > v0[i]);
            }
        }
    }
    assert(forall|k: int| i < k < n - 1 ==> #[trigger] u[k] < u[k + 1]) by {
        assert forall|k: int| i < k < n - 1 implies #[trigger] u[k] < u[k + 1] by {
            assert(u[k] == w[i + 1 + n - 1 - k]);
            assert(u[k + 1] == w[i + 1 + n - 1 - (k + 1)]);
        }
    }
    assert(u[i] == w[i]);
    assert(w[i] == v0[j]);
    lema_passo_sucessor(v0, u, i, j);
}

/// Avanca `vetor` para a sua sucessora imediata na ordem lexicografica.
/// Devolve `false`, sem mexer no vetor, exatamente quando nao ha
/// sucessora: o vetor ja esta em ordem decrescente, ou tem um so
/// elemento.
#[verifier::rlimit(100)]
pub fn proxima_ordem_lexicografica(vetor: &mut Vec<usize>) -> (avancou: bool)
    requires
        sem_duplicatas(old(vetor)@),
    ensures
        final(vetor)@.len() == old(vetor)@.len(),
        final(vetor)@.to_multiset() == old(vetor)@.to_multiset(),
        avancou == tem_sucessora(old(vetor)@),
        !avancou ==> final(vetor)@ == old(vetor)@,
        avancou ==> e_sucessora(old(vetor)@, final(vetor)@),
{
    if vetor.len() <= 1 {
        proof {
            lema_decrescente_sem_sucessora(vetor@);
        }
        return false;
    }
    let mut i: usize = vetor.len() - 2;
    let mut j: usize = vetor.len() - 1;
    while i > 0 && vetor[i] > vetor[i + 1]
        invariant
            2 <= vetor@.len() <= usize::MAX,
            i <= vetor@.len() - 2,
            vetor@ == old(vetor)@,
            sem_duplicatas(vetor@),
            forall|k: int| i < k < vetor@.len() - 1 ==> #[trigger] vetor@[k] > vetor@[k + 1],
        decreases i,
    {
        i -= 1;
    }
    while j > 0 && vetor[j] < vetor[i]
        invariant
            2 <= vetor@.len() <= usize::MAX,
            i <= j < vetor@.len(),
            i <= vetor@.len() - 2,
            vetor@ == old(vetor)@,
            sem_duplicatas(vetor@),
            forall|k: int| i < k < vetor@.len() - 1 ==> #[trigger] vetor@[k] > vetor@[k + 1],
            forall|k: int| j < k < vetor@.len() ==> vetor@[k] < vetor@[i as int],
        decreases j,
    {
        j -= 1;
    }
    if i != j {
        let ghost v0 = vetor@;
        proof {
            assert(v0[j as int] >= v0[i as int]);
            assert(v0[j as int] != v0[i as int]);
            lema_troca_multiset(vetor@, i as int, j as int);
        }
        troca(vetor, i, j);
        let ghost w = vetor@;
        inverte_sufixo(vetor, i + 1);
        proof {
            lema_monta_sucessora(v0, w, vetor@, i as int, j as int);
            assert(tem_sucessora(v0)) by {
                assert(vetor@.to_multiset() == v0.to_multiset() && lex_menor(v0, vetor@));
            }
        }
        return true;
    }
    proof {
        let v = vetor@;
        let n = v.len() as int;
        assert(i == 0) by {
            if i > 0 {
                assert(v[i as int] < v[i as int + 1]);
                assert(v[i as int + 1] < v[i as int]);
            }
        }
        assert(forall|k: int| 0 <= k < n - 1 ==> #[trigger] v[k] > v[k + 1]) by {
            assert forall|k: int| 0 <= k < n - 1 implies #[trigger] v[k] > v[k + 1] by {
                if k == 0 {
                    assert(v[1] < v[0]);
                }
            }
        }
        lema_adjacente_decrescente(v);
        lema_decrescente_sem_sucessora(v);
    }
    return false;
}

/// Reconstroi em `vetor` a `n`-esima ordem lexicografica (comecando em 0)
/// dos seus proprios elementos, pela decomposicao de `n` no sistema de
/// numeracao fatorial. Um vetor vazio, ou um `n` alem de `len!`, deixa o
/// vetor como estava.
pub fn n_esima_ordem_lexicografica(vetor: &mut Vec<usize>, n: u64)
    requires
        fatorial_de(old(vetor)@.len() as nat) <= usize::MAX,
    ensures
        final(vetor)@.to_multiset() == old(vetor)@.to_multiset(),
        final(vetor)@.len() == old(vetor)@.len(),
        old(vetor)@.len() == 0 || n as nat >= fatorial_de(old(vetor)@.len() as nat)
            ==> final(vetor)@ == old(vetor)@,
        old(vetor)@.len() > 0 && (n as nat) < fatorial_de(old(vetor)@.len() as nat)
            ==> (exists|b: Seq<usize>|
                nao_decrescente(b) && b.to_multiset() == old(vetor)@.to_multiset()
                    && final(vetor)@ == enesima_permutacao(b, n as nat)),
        old(vetor)@.len() > 0 && (n as nat) < fatorial_de(old(vetor)@.len() as nat)
            && nao_decrescente(old(vetor)@)
            ==> final(vetor)@ == enesima_permutacao(old(vetor)@, n as nat),
{
    broadcast use vstd::seq_lib::group_to_multiset_ensures;

    if vetor.len() < 1 {
        return ;
    }
    let tamanho = vetor.len();
    proof {
        lema_fatorial_nao_decrescente((tamanho - 1) as nat, tamanho as nat);
        lema_fatorial_positivo((tamanho - 1) as nat);
    }
    let mut fatorial: usize = crate::fatorial::calcula_fatorial(tamanho - 1);
    proof {
        assert(fatorial_de(tamanho as nat) == tamanho * fatorial_de((tamanho - 1) as nat));
        assert(fatorial * tamanho == tamanho * fatorial) by (nonlinear_arith);
    }
    let espaco: usize = fatorial * tamanho;
    if n >= espaco as u64 {
        return ;
    }
    let mut resto: usize = n as usize;
    let mut indices: Vec<usize> = Vec::new();
    let mut k: usize = 0;
    while k < vetor.len()
        invariant
            k <= vetor@.len(),
            vetor@ == old(vetor)@,
            indices@ == old(vetor)@.subrange(0, k as int),
        decreases vetor@.len() - k,
    {
        let item = vetor[k];
        indices.push(item);
        proof {
            assert(indices@ =~= old(vetor)@.subrange(0, k + 1));
        }
        k += 1;
    }
    proof {
        assert(indices@ =~= old(vetor)@);
    }
    ordena(&mut indices);
    let ghost base = indices@;
    vetor.clear();
    proof {
        broadcast use vstd::multiset::group_multiset_axioms;

        assert(vetor@ + enesima_permutacao(base, n as nat) =~= enesima_permutacao(base, n as nat));
        assert(vetor@.to_multiset() =~= Multiset::<usize>::empty());
        assert(vetor@.to_multiset().add(base.to_multiset()) =~= base.to_multiset());
    }
    while indices.len() > 0 && fatorial > 0
        invariant
            fatorial >= 1,
            indices@.len() > 0 ==> fatorial == fatorial_de((indices@.len() - 1) as nat),
            resto < fatorial_de(indices@.len() as nat),
            vetor@ + enesima_permutacao(indices@, resto as nat) == enesima_permutacao(
                base,
                n as nat,
            ),
            vetor@.to_multiset().add(indices@.to_multiset()) == base.to_multiset(),
        decreases indices@.len(),
    {
        let ghost antes_indices = indices@;
        let ghost antes_vetor = vetor@;
        let tamanho_atual = indices.len();
        proof {
            assert(fatorial_de(tamanho_atual as nat) == tamanho_atual * fatorial_de(
                (tamanho_atual - 1) as nat,
            ));
            assert(tamanho_atual * fatorial == fatorial * tamanho_atual) by (nonlinear_arith);
            vstd::arithmetic::div_mod::lemma_multiply_divide_lt(
                resto as int,
                fatorial as int,
                tamanho_atual as int,
            );
            vstd::arithmetic::div_mod::lemma_mod_division_less_than_divisor(
                resto as int,
                fatorial as int,
            );
        }
        let indice_proximo = resto / fatorial;
        let resto_novo = resto % fatorial;
        if tamanho_atual - 1 > 0 {
            proof {
                assert(fatorial_de((tamanho_atual - 1) as nat) == (tamanho_atual - 1)
                    * fatorial_de((tamanho_atual - 2) as nat));
                vstd::arithmetic::div_mod::lemma_div_multiples_vanish(
                    fatorial_de((tamanho_atual - 2) as nat) as int,
                    (tamanho_atual - 1) as int,
                );
                lema_fatorial_positivo((tamanho_atual - 2) as nat);
            }
            fatorial = fatorial / (tamanho_atual - 1);
        } else {
            fatorial = 1;
        }
        let ghost antes_resto = resto as nat;
        let ghost f = fatorial_de((antes_indices.len() - 1) as nat);
        let item = indices.remove(indice_proximo);
        vetor.push(item);
        resto = resto_novo;
        proof {
            broadcast use vstd::multiset::group_multiset_axioms;
            broadcast use vstd::seq_lib::group_to_multiset_ensures;

            assert(enesima_permutacao(antes_indices, antes_resto) == seq![antes_indices[
                indice_proximo as int]] + enesima_permutacao(indices@, resto as nat));
            assert(vetor@ + enesima_permutacao(indices@, resto as nat) =~= antes_vetor
                + enesima_permutacao(antes_indices, antes_resto));
            assert(antes_indices.contains(item)) by {
                assert(antes_indices[indice_proximo as int] == item);
            }
            assert(antes_indices.to_multiset().count(item) > 0);
            assert(vetor@.to_multiset() == antes_vetor.to_multiset().insert(item)) by {
                assert(vetor@ =~= antes_vetor.push(item));
                assert(antes_vetor.push(item).to_multiset() == antes_vetor.to_multiset().insert(
                    item,
                ));
            }
            assert(indices@.to_multiset() == antes_indices.to_multiset().remove(item)) by {
                assert(indices@ =~= antes_indices.remove(indice_proximo as int));
                assert(antes_indices.remove(indice_proximo as int).to_multiset()
                    == antes_indices.to_multiset().remove(item));
            }
            assert(vetor@.to_multiset().add(indices@.to_multiset()) =~= antes_vetor.to_multiset()
                .add(antes_indices.to_multiset()));
        }
    }
    proof {
        assert(indices@.len() == 0);
        assert(enesima_permutacao(indices@, resto as nat) =~= Seq::<usize>::empty());
        assert(vetor@ =~= vetor@ + enesima_permutacao(indices@, resto as nat));
        assert(vetor@ == enesima_permutacao(base, n as nat));
        broadcast use vstd::multiset::group_multiset_axioms;

        assert(indices@.to_multiset() =~= Multiset::<usize>::empty());
        assert(vetor@.to_multiset() =~= vetor@.to_multiset().add(indices@.to_multiset()));
        assert(vetor@.to_multiset() == old(vetor)@.to_multiset());
        assert(vetor@.to_multiset().len() == old(vetor)@.to_multiset().len());
        if nao_decrescente(old(vetor)@) {
            lema_ordenacao_unica(base, old(vetor)@);
        }
    }
}

} // verus!
