use tsp_bruto::busca::{resolve_tsp, tsp_forca_bruta, Agregador, Erro, Mensagem};
use tsp_bruto::ciclo::peso_do_ciclo;
use tsp_bruto::fatorial::{calcula_fatorial, calcula_fatorial_checado};
use tsp_bruto::particao::{escolhe_numero_trabalhadores, particiona};
use tsp_bruto::permutacao::{
    indice_ordem_lexicografica, n_esima_ordem_lexicografica, proxima_ordem_lexicografica,
};

fn matriz_tres() -> Vec<Vec<u32>> {
    vec![vec![0, 1, 2], vec![1, 0, 3], vec![2, 3, 0]]
}

fn matriz_quatro() -> Vec<Vec<u32>> {
    vec![
        vec![0, 10, 15, 20],
        vec![10, 0, 35, 25],
        vec![15, 35, 0, 30],
        vec![20, 25, 30, 0],
    ]
}

#[test]
fn fatorial_de_valores_pequenos() {
    assert_eq!(calcula_fatorial(0), 1);
    assert_eq!(calcula_fatorial(1), 1);
    assert_eq!(calcula_fatorial(5), 120);
    assert_eq!(calcula_fatorial(10), 3628800);
}

#[test]
fn fatorial_checado_detecta_estouro() {
    assert_eq!(calcula_fatorial_checado(10), Some(3628800));
    assert_eq!(calcula_fatorial_checado(12), Some(479001600));
    assert_eq!(calcula_fatorial_checado(200), None);
}

#[test]
fn desindexa_permutacoes_de_quatro() {
    let esperadas: [[usize; 4]; 24] = [
        [0, 1, 2, 3],
        [0, 1, 3, 2],
        [0, 2, 1, 3],
        [0, 2, 3, 1],
        [0, 3, 1, 2],
        [0, 3, 2, 1],
        [1, 0, 2, 3],
        [1, 0, 3, 2],
        [1, 2, 0, 3],
        [1, 2, 3, 0],
        [1, 3, 0, 2],
        [1, 3, 2, 0],
        [2, 0, 1, 3],
        [2, 0, 3, 1],
        [2, 1, 0, 3],
        [2, 1, 3, 0],
        [2, 3, 0, 1],
        [2, 3, 1, 0],
        [3, 0, 1, 2],
        [3, 0, 2, 1],
        [3, 1, 0, 2],
        [3, 1, 2, 0],
        [3, 2, 0, 1],
        [3, 2, 1, 0],
    ];
    for (n, esperada) in esperadas.iter().enumerate() {
        let mut vetor: Vec<usize> = vec![0, 1, 2, 3];
        n_esima_ordem_lexicografica(&mut vetor, n as u64);
        assert_eq!(vetor, esperada.to_vec());
    }
}

#[test]
fn desindexa_fora_do_alcance_nao_mexe() {
    let mut vetor: Vec<usize> = vec![0, 1, 2];
    n_esima_ordem_lexicografica(&mut vetor, 6);
    assert_eq!(vetor, vec![0, 1, 2]);
    let mut vazio: Vec<usize> = Vec::new();
    n_esima_ordem_lexicografica(&mut vazio, 0);
    assert!(vazio.is_empty());
}

#[test]
fn bijecao_entre_indice_e_permutacao() {
    for n in 1..=5usize {
        let mut total: u64 = 1;
        for k in 2..=n as u64 {
            total *= k;
        }
        for indice in 0..total {
            let mut vetor: Vec<usize> = (0..n).collect();
            n_esima_ordem_lexicografica(&mut vetor, indice);
            assert_eq!(indice_ordem_lexicografica(&vetor), indice);
        }
    }
}

#[test]
fn caminhada_exaustiva_pelas_sucessoras() {
    let mut vetor: Vec<usize> = vec![0, 1, 2, 3];
    let mut visitadas: Vec<Vec<usize>> = vec![vetor.clone()];
    while proxima_ordem_lexicografica(&mut vetor) {
        visitadas.push(vetor.clone());
    }
    assert_eq!(visitadas.len(), 24);
    assert_eq!(vetor, vec![3, 2, 1, 0]);
    for par in visitadas.windows(2) {
        assert!(par[0] < par[1]);
    }
    for (n, vista) in visitadas.iter().enumerate() {
        let mut esperada: Vec<usize> = vec![0, 1, 2, 3];
        n_esima_ordem_lexicografica(&mut esperada, n as u64);
        assert_eq!(*vista, esperada);
    }
    assert!(!proxima_ordem_lexicografica(&mut vetor));
    assert_eq!(vetor, vec![3, 2, 1, 0]);
}

#[test]
fn sem_sucessora_para_um_elemento() {
    let mut um: Vec<usize> = vec![7];
    assert!(!proxima_ordem_lexicografica(&mut um));
    assert_eq!(um, vec![7]);
}

#[test]
fn particao_cobre_o_intervalo() {
    for total in 1..=40u64 {
        for trabalhadores in 1..=9usize {
            let faixas = particiona(total, trabalhadores);
            assert_eq!(faixas.len(), trabalhadores);
            assert_eq!(faixas[0].0, 0);
            assert_eq!(faixas[faixas.len() - 1].1, total);
            for k in 0..faixas.len() {
                assert!(faixas[k].0 <= faixas[k].1);
                if k > 0 {
                    assert_eq!(faixas[k].0, faixas[k - 1].1);
                }
            }
        }
    }
    assert_eq!(particiona(10, 3), vec![(0, 4), (4, 7), (7, 10)]);
}

#[test]
fn escolha_do_numero_de_trabalhadores() {
    assert_eq!(escolhe_numero_trabalhadores(0, 8), 8);
    assert_eq!(escolhe_numero_trabalhadores(4, 8), 4);
    assert_eq!(escolhe_numero_trabalhadores(12, 8), 8);
}

#[test]
fn peso_do_ciclo_com_tres_vertices() {
    let grafo = matriz_tres();
    assert_eq!(peso_do_ciclo(&vec![0, 1, 2], &grafo), 6);
    assert_eq!(peso_do_ciclo(&vec![0, 2, 1], &grafo), 6);
    let resultado = resolve_tsp(&grafo, 1).unwrap();
    assert_eq!(resultado.menor_peso, 6);
    assert_eq!(resultado.maior_peso, 6);
}

#[test]
fn instancia_conhecida_de_quatro_vertices() {
    let grafo = matriz_quatro();
    let pesos: Vec<u64> = (0..6u64)
        .map(|n| {
            let mut vetor: Vec<usize> = vec![0, 1, 2, 3];
            n_esima_ordem_lexicografica(&mut vetor, n);
            peso_do_ciclo(&vetor, &grafo)
        })
        .collect();
    assert_eq!(pesos, vec![95, 80, 95, 80, 95, 95]);
    let resultado = resolve_tsp(&grafo, 1).unwrap();
    assert_eq!(resultado.menor_peso, 80);
    assert_eq!(resultado.maior_peso, 95);
    assert_eq!(resultado.indice_menor, 1);
    let mut vencedora: Vec<usize> = vec![0, 1, 2, 3];
    n_esima_ordem_lexicografica(&mut vencedora, resultado.indice_menor);
    assert_eq!(vencedora, vec![0, 1, 3, 2]);
}

#[test]
fn resultado_nao_depende_do_numero_de_trabalhadores() {
    let grafo = matriz_quatro();
    let sozinho = resolve_tsp(&grafo, 1).unwrap();
    for trabalhadores in 2..=8usize {
        let repartido = resolve_tsp(&grafo, trabalhadores).unwrap();
        assert_eq!(repartido.menor_peso, sozinho.menor_peso);
        assert_eq!(repartido.maior_peso, sozinho.maior_peso);
    }
}

#[test]
fn fluxo_de_mensagens_monotonico() {
    let grafo = matriz_quatro();
    let (local, mensagens) = tsp_forca_bruta(&grafo, 0, 6);
    assert_eq!(local.minimo, 80);
    assert_eq!(local.maximo, 95);
    assert_eq!(
        mensagens,
        vec![
            Mensagem::Minimo(95, 0),
            Mensagem::Maximo(95, 0),
            Mensagem::Minimo(80, 1),
        ]
    );
    let minimos: Vec<u64> = mensagens
        .iter()
        .filter_map(|m| match m {
            Mensagem::Minimo(peso, _) => Some(*peso),
            Mensagem::Maximo(_, _) => None,
        })
        .collect();
    for par in minimos.windows(2) {
        assert!(par[0] > par[1]);
    }
    let maximos: Vec<u64> = mensagens
        .iter()
        .filter_map(|m| match m {
            Mensagem::Maximo(peso, _) => Some(*peso),
            Mensagem::Minimo(_, _) => None,
        })
        .collect();
    for par in maximos.windows(2) {
        assert!(par[0] < par[1]);
    }
}

#[test]
fn faixa_vazia_devolve_sentinelas() {
    let grafo = matriz_quatro();
    let (local, mensagens) = tsp_forca_bruta(&grafo, 3, 3);
    assert_eq!(local.minimo, u64::MAX);
    assert_eq!(local.maximo, 0);
    assert!(mensagens.is_empty());
}

#[test]
fn entrada_invalida_e_recusada() {
    let vazia: Vec<Vec<u32>> = Vec::new();
    assert_eq!(resolve_tsp(&vazia, 1), Err(Erro::EntradaInvalida));
    let um_so = vec![vec![0u32]];
    assert_eq!(resolve_tsp(&um_so, 1), Err(Erro::EntradaInvalida));
    let torta = vec![vec![0u32, 1], vec![1u32]];
    assert_eq!(resolve_tsp(&torta, 1), Err(Erro::EntradaInvalida));
}

#[test]
fn espaco_grande_demais_estoura() {
    let n = 200usize;
    let grande: Vec<Vec<u32>> = (0..n).map(|_| vec![1u32; n]).collect();
    assert_eq!(resolve_tsp(&grande, 4), Err(Erro::Estouro));
}

#[test]
fn agregador_reduz_anuncios() {
    let mut agregador = Agregador::novo();
    assert_eq!(agregador.minimo, u64::MAX);
    assert_eq!(agregador.maximo, 0);
    agregador.processa(5, 2);
    assert_eq!(agregador.minimo, 5);
    assert_eq!(agregador.indice_minimo, 2);
    agregador.processa(7, 3);
    assert_eq!(agregador.maximo, 7);
    assert_eq!(agregador.indice_maximo, 3);
    agregador.processa(6, 4);
    assert_eq!(agregador.minimo, 5);
    assert_eq!(agregador.maximo, 7);
    agregador.processa(2, 9);
    assert_eq!(agregador.minimo, 2);
    assert_eq!(agregador.indice_minimo, 9);
}
