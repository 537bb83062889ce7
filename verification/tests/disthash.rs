use hash_distribuido::disthash::{
    consulta, expoente_para, fecha, inicia, insere, le_retorno, porta_de_retorno, Instancia,
};
use hash_distribuido::no::{Destino, Envio};

fn b(s: &str) -> Vec<u8> {
    s.as_bytes().to_vec()
}

#[test]
fn inicia_um_no_por_porta() {
    // three nodes need a ring of 2^2
    assert_eq!(
        inicia(3),
        vec![
            Instancia { no: 0, porta: 7000, power2_nodes: 2 },
            Instancia { no: 1, porta: 7001, power2_nodes: 2 },
            Instancia { no: 2, porta: 7002, power2_nodes: 2 },
        ]
    );
    assert_eq!(inicia(1), vec![Instancia { no: 0, porta: 7000, power2_nodes: 0 }]);
    let dezesseis = inicia(16);
    assert_eq!(dezesseis.len(), 16);
    assert!(dezesseis.iter().all(|i| i.power2_nodes == 4));
    assert_eq!(dezesseis[15], Instancia { no: 15, porta: 7015, power2_nodes: 4 });
    assert!(inicia(0).is_empty());
    assert!(inicia(-4).is_empty());
}

#[test]
fn expoente_do_anel() {
    assert_eq!(expoente_para(1), 0);
    assert_eq!(expoente_para(2), 1);
    assert_eq!(expoente_para(5), 3);
    assert_eq!(expoente_para(32), 5);
    assert_eq!(expoente_para(0), 0);
    assert_eq!(expoente_para(i32::MAX), 30);
}

#[test]
fn fecha_todos_os_nos() {
    assert_eq!(
        fecha(3),
        vec![
            Envio { destino: Destino::Porta(7000), mensagem: b("fecha") },
            Envio { destino: Destino::Porta(7001), mensagem: b("fecha") },
            Envio { destino: Destino::Porta(7002), mensagem: b("fecha") },
        ]
    );
    // the single node that inicia(1) starts is closed by fecha(1)
    assert_eq!(fecha(1), vec![Envio { destino: Destino::Porta(7000), mensagem: b("fecha") }]);
    assert!(fecha(0).is_empty());
    assert!(fecha(-3).is_empty());
    assert_eq!(fecha(16).len(), 16);
}

#[test]
fn insere_escapa_e_envia_ao_no_inicial() {
    let e = insere(3, &"teste".to_string(), &"valor".to_string());
    assert_eq!(e, Envio { destino: Destino::Porta(7003), mensagem: b("insere--teste--valor") });
    let e = insere(0, &"a--b".to_string(), &"c--d".to_string());
    assert_eq!(e, Envio { destino: Destino::Porta(7000), mensagem: b("insere--a\\--b--c\\--d") });
}

#[test]
fn consulta_escapa_e_envia_ao_no_inicial() {
    let e = consulta(15130, 22, &"teste4".to_string(), &"127.0.0.1:15130".to_string());
    assert_eq!(
        e,
        Envio { destino: Destino::Porta(7022), mensagem: b("consulta--teste4--127.0.0.1:15130") }
    );
}

#[test]
fn le_a_resposta_do_no() {
    assert_eq!(le_retorno(&"valor--5".to_string()), Some((b("valor"), b("5"))));
    // the answer is unescaped, then cut
    assert_eq!(le_retorno(&"a\\--b--7--x".to_string()), Some((b("a"), b("b"))));
    assert_eq!(le_retorno(&"x--y--3".to_string()), Some((b("x"), b("y"))));
    assert_eq!(le_retorno(&"sem separador".to_string()), None);
}

#[test]
fn porta_de_retorno_oferecida_ou_reserva() {
    assert_eq!(porta_de_retorno(Some(40000), 3), 40000);
    assert_eq!(porta_de_retorno(None, 3), 15126);
    assert_eq!(porta_de_retorno(None, 60000), ((15123 + 60000) as u32 % 65536) as u16);
}
