use hash_distribuido::no::{
    callback, coloca, interpreta, procura, roteia, trata, Comando, Desfecho, Destino, Envio,
    Motivo, Tipo,
};
use hash_distribuido::tabela::Tabela;

fn b(s: &str) -> Vec<u8> {
    s.as_bytes().to_vec()
}

fn envios(d: Desfecho) -> Vec<Envio> {
    match d {
        Desfecho::Envios(v) => v,
        outro => panic!("expected messages, got {:?}", outro),
    }
}

#[test]
fn insercao_no_dono_guarda() {
    // "teste" belongs to node 5 of a ring of 16
    let mut t = Tabela::new();
    let e = envios(trata(&mut t, "insere--teste--valor".to_string(), &5, &4));
    assert!(e.is_empty());
    assert_eq!(t.consulta(b("teste"), b("x")), Some(b("valor")));
}

#[test]
fn insercao_fora_do_dono_segue_adiante() {
    let mut t = Tabela::new();
    let e = envios(trata(&mut t, "insere--teste--valor".to_string(), &3, &4));
    assert_eq!(
        e,
        vec![Envio { destino: Destino::Porta(7005), mensagem: b("insere_no--teste--valor--5") }]
    );
    assert_eq!(t.consulta(b("teste"), b("x")), None);
}

#[test]
fn insercao_encaminhada_chega_e_guarda() {
    let mut t = Tabela::new();
    let e = envios(trata(&mut t, "insere_no--teste--valor--5".to_string(), &5, &4));
    assert!(e.is_empty());
    assert_eq!(t.consulta(b("teste"), b("x")), Some(b("valor")));
    // at another node it goes on towards node 5
    let mut u = Tabela::new();
    let e = envios(trata(&mut u, "insere_no--teste--valor--5".to_string(), &13, &4));
    assert_eq!(
        e,
        vec![Envio { destino: Destino::Porta(7005), mensagem: b("insere_no--teste--valor--5") }]
    );
}

#[test]
fn consulta_responde_ou_espera() {
    let mut t = Tabela::new();
    // before the value: the consult waits
    let e = envios(trata(&mut t, "consulta--teste--127.0.0.1:9000".to_string(), &5, &4));
    assert!(e.is_empty());
    // the insertion answers the waiting client
    let e = envios(trata(&mut t, "insere--teste--valor".to_string(), &5, &4));
    assert_eq!(
        e,
        vec![Envio { destino: Destino::Endereco(b("127.0.0.1:9000")), mensagem: b("valor--5") }]
    );
    // a later consult is answered at once
    let e = envios(trata(&mut t, "consulta_no--teste--5--127.0.0.1:9001".to_string(), &5, &4));
    assert_eq!(
        e,
        vec![Envio { destino: Destino::Endereco(b("127.0.0.1:9001")), mensagem: b("valor--5") }]
    );
}

#[test]
fn consulta_fora_do_dono_segue_adiante() {
    let mut t = Tabela::new();
    let e = envios(trata(&mut t, "consulta--teste--127.0.0.1:9000".to_string(), &0, &4));
    assert_eq!(
        e,
        vec![Envio {
            destino: Destino::Porta(7004),
            mensagem: b("consulta_no--teste--5--127.0.0.1:9000"),
        }]
    );
}

#[test]
fn mensagens_escapadas_sao_desescapadas() {
    // the message is cut at separators that are not escaped, then each
    // piece is unescaped: a key keeps its own "--"
    let mut t = Tabela::new();
    let d = trata(&mut t, "insere--a\\--b--v".to_string(), &0, &0);
    assert_eq!(d, Desfecho::Envios(vec![]));
    assert_eq!(t.consulta(b("a--b"), b("x")), Some(b("v")));
    let d = trata(&mut t, "insere--a\\-b--v".to_string(), &0, &0);
    assert_eq!(d, Desfecho::Envios(vec![]));
    assert_eq!(t.consulta(b("a\\-b"), b("x")), Some(b("v")));
    // "x--y" sums to 120 + 45 + 45 + 121 = 331, owned by node 11 of 16
    let mut u = Tabela::new();
    let d = trata(&mut u, "insere--x\\--y--v\\--w".to_string(), &11, &4);
    assert_eq!(d, Desfecho::Envios(vec![]));
    assert_eq!(u.consulta(b("x--y"), b("e")), Some(b("v--w")));
    // elsewhere, the request goes on with key and value escaped again
    let mut w = Tabela::new();
    let d = trata(&mut w, "insere--x\\--y--v\\--w".to_string(), &3, &4);
    assert_eq!(
        d,
        Desfecho::Envios(vec![Envio {
            destino: Destino::Porta(7011),
            mensagem: b("insere_no--x\\--y--v\\--w--11"),
        }])
    );
}

#[test]
fn fecha_e_recusas() {
    let mut t = Tabela::new();
    assert_eq!(trata(&mut t, "fecha".to_string(), &0, &4), Desfecho::Fecha);
    assert_eq!(trata(&mut t, "fechar agora".to_string(), &0, &4), Desfecho::Fecha);
    assert_eq!(trata(&mut t, "ola".to_string(), &0, &4), Desfecho::Invalida(Motivo::Desconhecida));
    assert_eq!(
        trata(&mut t, "insere--so_chave".to_string(), &0, &4),
        Desfecho::Invalida(Motivo::InsercaoInvalida)
    );
    assert_eq!(
        trata(&mut t, "insere_no--a--b".to_string(), &0, &4),
        Desfecho::Invalida(Motivo::InsercaoNoInvalida)
    );
    assert_eq!(
        trata(&mut t, "insere_no--a--b--x".to_string(), &0, &4),
        Desfecho::Invalida(Motivo::NoInvalido)
    );
    assert_eq!(
        trata(&mut t, "consulta--a".to_string(), &0, &4),
        Desfecho::Invalida(Motivo::ConsultaInvalida)
    );
    assert_eq!(
        trata(&mut t, "consulta_no--a--b--1--2".to_string(), &0, &4),
        Desfecho::Invalida(Motivo::ConsultaNoInvalida)
    );
    assert_eq!(
        trata(&mut t, "consulta_no--a--b--".to_string(), &0, &4),
        Desfecho::Invalida(Motivo::NoInvalido)
    );
}

#[test]
fn interpreta_os_pedidos() {
    assert_eq!(
        interpreta(b"insere--teste--v", 5, 4),
        Comando::Coloca { chave: b("teste"), valor: b("v") }
    );
    assert_eq!(
        interpreta(b"consulta_no--k--9--end", 2, 4),
        Comando::Roteia { destino: 9, tipo: Tipo::ConsultaNo, chave: b("k"), dado: b("end") }
    );
    assert_eq!(
        interpreta(b"consulta_no--k--+9--end", 9, 4),
        Comando::Procura { chave: b("k"), endereco: b("end") }
    );
}

#[test]
fn mensagens_de_roteamento_e_retorno() {
    let e = roteia(2, &3, &4, b"k", Tipo::InsereNo, b"v");
    assert_eq!(e, Envio { destino: Destino::Porta(7011), mensagem: b("insere_no--k--v--2") });
    let e = roteia(-7, &0, &4, b"k", Tipo::ConsultaNo, b"e");
    assert_eq!(e, Envio { destino: Destino::Porta(7008), mensagem: b("consulta_no--k---7--e") });
    let e = roteia(2, &3, &4, b"a--b", Tipo::InsereNo, b"c--d");
    assert_eq!(e.mensagem, b("insere_no--a\\--b--c\\--d--2"));
    let e = callback(b"valor", b"127.0.0.1:5000", &12);
    assert_eq!(e, Envio { destino: Destino::Endereco(b("127.0.0.1:5000")), mensagem: b("valor--12") });
    // the value goes as it is
    let e = callback(b"x--y", b"c", &3);
    assert_eq!(e.mensagem, b("x--y--3"));
}

#[test]
fn coloca_e_procura_respondem_aos_clientes() {
    let mut t = Tabela::new();
    assert!(procura(&mut t, b"k", b"c1", &3).is_empty());
    assert!(procura(&mut t, b"k", b"c2", &3).is_empty());
    let e = coloca(&mut t, b"k", b"v", &3);
    assert_eq!(
        e,
        vec![
            Envio { destino: Destino::Endereco(b("c1")), mensagem: b("v--3") },
            Envio { destino: Destino::Endereco(b("c2")), mensagem: b("v--3") },
        ]
    );
    let e = procura(&mut t, b"k", b"c3", &3);
    assert_eq!(e, vec![Envio { destino: Destino::Endereco(b("c3")), mensagem: b("v--3") }]);
}

#[test]
fn anel_fora_dos_limites() {
    let mut t = Tabela::new();
    // computing an owner needs an exponent from 0 to 30
    assert_eq!(
        trata(&mut t, "insere--k--v".to_string(), &0, &31),
        Desfecho::Invalida(Motivo::AnelInvalido)
    );
    assert_eq!(
        trata(&mut t, "consulta--k--e".to_string(), &0, &-1),
        Desfecho::Invalida(Motivo::AnelInvalido)
    );
    // passing on needs every hop within i32
    assert_eq!(
        trata(&mut t, "insere_no--k--v--3".to_string(), &-1, &4),
        Desfecho::Invalida(Motivo::AnelInvalido)
    );
    assert_eq!(
        trata(&mut t, "insere_no--k--v--3".to_string(), &i32::MAX, &4),
        Desfecho::Invalida(Motivo::AnelInvalido)
    );
    // shutting down, refusals and requests for this node need neither
    assert_eq!(trata(&mut t, "fecha".to_string(), &-5, &99), Desfecho::Fecha);
    assert_eq!(
        trata(&mut t, "insere--k".to_string(), &-5, &99),
        Desfecho::Invalida(Motivo::InsercaoInvalida)
    );
    assert_eq!(trata(&mut t, "insere_no--k--v---5".to_string(), &-5, &99), Desfecho::Envios(vec![]));
    assert_eq!(t.consulta(b("k"), b("e")), Some(b("v")));
}
