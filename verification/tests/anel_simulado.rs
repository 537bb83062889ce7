//! Whole rings of nodes, run in one process: each message goes to the node
//! that listens on its port, and the answers to clients are collected.

use hash_distribuido::disthash::{consulta, insere, le_retorno};
use hash_distribuido::no::{trata, Desfecho, Destino, Envio};
use hash_distribuido::tabela::Tabela;

struct Anel {
    tabelas: Vec<Tabela>,
    power2_nodes: i32,
    respostas: Vec<(Vec<u8>, Vec<u8>)>,
    saltos: usize,
}

impl Anel {
    fn novo(power2_nodes: i32) -> Anel {
        let n = 1usize << power2_nodes;
        Anel { tabelas: (0..n).map(|_| Tabela::new()).collect(), power2_nodes, respostas: Vec::new(), saltos: 0 }
    }

    /// Delivers a message and everything it causes; false where its port
    /// has no node, as a refused connection.
    fn envia(&mut self, envio: Envio) -> bool {
        let mut fila = vec![envio];
        let mut primeiro = true;
        while let Some(Envio { destino, mensagem }) = fila.pop() {
            match destino {
                Destino::Porta(porta) => {
                    let no = porta - 7000;
                    if no < 0 || no as usize >= self.tabelas.len() {
                        if primeiro {
                            return false;
                        }
                        continue;
                    }
                    if !primeiro {
                        self.saltos += 1;
                    }
                    let texto = String::from_utf8(mensagem).unwrap();
                    match trata(&mut self.tabelas[no as usize], texto, &no, &self.power2_nodes) {
                        Desfecho::Envios(v) => fila.extend(v),
                        outro => panic!("unexpected outcome {:?}", outro),
                    }
                }
                Destino::Endereco(e) => self.respostas.push((e, mensagem)),
            }
            primeiro = false;
        }
        true
    }

    fn resposta_para(&self, endereco: &str) -> Option<(String, String)> {
        self.respostas.iter().find(|(e, _)| e == endereco.as_bytes()).map(|(_, m)| {
            let (valor, no) = le_retorno(&String::from_utf8(m.clone()).unwrap()).unwrap();
            (String::from_utf8(valor).unwrap(), String::from_utf8(no).unwrap())
        })
    }
}

#[test]
fn test_case_1() {
    // a ring of 16 nodes: an insertion, then a consult
    let mut anel = Anel::novo(4);
    assert!(anel.envia(insere(3, &"teste".to_string(), &"teste".to_string())));
    let endereco = "127.0.0.1:15126".to_string();
    assert!(anel.envia(consulta(15126, 3, &"teste".to_string(), &endereco)));
    assert_eq!(anel.resposta_para(&endereco), Some(("teste".to_string(), "5".to_string())));
}

#[test]
fn test_case_2() {
    // a ring of 16 nodes: the consult comes before the value and is answered
    // once the value arrives
    let mut anel = Anel::novo(4);
    let endereco = "127.0.0.1:15126".to_string();
    assert!(anel.envia(consulta(15126, 3, &"teste".to_string(), &endereco)));
    assert_eq!(anel.resposta_para(&endereco), None);
    assert!(anel.envia(insere(3, &"teste".to_string(), &"teste".to_string())));
    assert_eq!(anel.resposta_para(&endereco), Some(("teste".to_string(), "5".to_string())));
}

#[test]
fn test_case_3() {
    // a ring of 16 nodes, with requests out of order, some to nodes the
    // ring does not have
    let mut anel = Anel::novo(4);
    let chaves = ["teste1", "teste2", "teste3", "teste4", "teste5"];
    let e22 = "127.0.0.1:15145".to_string();
    let e31 = "127.0.0.1:15154".to_string();
    let e15 = "127.0.0.1:15138".to_string();
    let e4 = "127.0.0.1:15127".to_string();
    assert!(!anel.envia(consulta(0, 22, &chaves[3].to_string(), &e22)));
    assert!(!anel.envia(consulta(0, 31, &chaves[2].to_string(), &e31)));
    assert!(anel.envia(insere(0, &chaves[0].to_string(), &"1".to_string())));
    assert!(!anel.envia(insere(17, &chaves[1].to_string(), &"2".to_string())));
    assert!(anel.envia(consulta(0, 15, &chaves[1].to_string(), &e15)));
    assert!(anel.envia(insere(12, &chaves[2].to_string(), &"3".to_string())));
    assert!(anel.envia(consulta(0, 4, &chaves[0].to_string(), &e4)));
    assert!(!anel.envia(insere(25, &chaves[3].to_string(), &"4".to_string())));
    // "teste1" sums to 598, owned by node 6
    assert_eq!(anel.resposta_para(&e4), Some(("1".to_string(), "6".to_string())));
    // "teste2" was never stored: its consult still waits
    assert_eq!(anel.resposta_para(&e15), None);
    assert_eq!(anel.resposta_para(&e22), None);
    assert_eq!(anel.resposta_para(&e31), None);
}

#[test]
fn cada_chave_vai_ao_seu_dono_em_poucos_saltos() {
    let mut anel = Anel::novo(5);
    for inicial in 0..32 {
        let chave = format!("chave{}", inicial * 7);
        let endereco = format!("cliente{}", inicial);
        anel.saltos = 0;
        assert!(anel.envia(insere(inicial, &chave, &format!("v{}", inicial))));
        assert!(anel.saltos <= 5);
        anel.saltos = 0;
        assert!(anel.envia(consulta(0, (inicial + 13) % 32, &chave, &endereco)));
        assert!(anel.saltos <= 5);
        let dono = hash_distribuido::anel::calcula(&chave, &5);
        assert_eq!(anel.resposta_para(&endereco), Some((format!("v{}", inicial), dono.to_string())));
    }
}

#[test]
fn chave_com_separador_atravessa_o_anel() {
    // keys with "--" of their own keep them across every hop
    let mut anel = Anel::novo(5);
    let chave = "a--b--c".to_string();
    let valor = "12".to_string();
    let dono = hash_distribuido::anel::calcula(&chave, &5);
    for inicial in 0..32 {
        let endereco = format!("c{}", inicial);
        assert!(anel.envia(insere(inicial, &chave, &valor)));
        assert!(anel.envia(consulta(0, (inicial + 7) % 32, &chave, &endereco)));
        assert_eq!(anel.resposta_para(&endereco), Some((valor.clone(), dono.to_string())));
    }
}

#[test]
fn consulta_recebe_exatamente_uma_resposta() {
    // whichever comes first, the consult or the value, the client is
    // answered once
    let mut antes = Anel::novo(3);
    assert!(antes.envia(consulta(0, 1, &"k".to_string(), &"cli".to_string())));
    assert!(antes.envia(insere(6, &"k".to_string(), &"v".to_string())));
    assert!(antes.envia(insere(2, &"k".to_string(), &"w".to_string())));
    assert_eq!(antes.respostas.iter().filter(|(e, _)| e == b"cli").count(), 1);

    let mut depois = Anel::novo(3);
    assert!(depois.envia(insere(6, &"k".to_string(), &"v".to_string())));
    assert!(depois.envia(consulta(0, 1, &"k".to_string(), &"cli".to_string())));
    assert!(depois.envia(insere(2, &"k".to_string(), &"w".to_string())));
    assert_eq!(depois.respostas.iter().filter(|(e, _)| e == b"cli").count(), 1);
}
