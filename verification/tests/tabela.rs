use hash_distribuido::tabela::Tabela;

fn b(s: &str) -> Vec<u8> {
    s.as_bytes().to_vec()
}

#[test]
fn le_o_que_foi_escrito() {
    let mut t = Tabela::new();
    assert!(t.insere(b("chave"), b("valor")).is_empty());
    assert_eq!(t.consulta(b("chave"), b("end")), Some(b("valor")));
    // a later value replaces the earlier one
    assert!(t.insere(b("chave"), b("outro")).is_empty());
    assert_eq!(t.consulta(b("chave"), b("end")), Some(b("outro")));
    // other keys have no value
    assert_eq!(t.consulta(b("nada"), b("end")), None);
}

#[test]
fn consulta_sem_valor_espera_a_insercao() {
    let mut t = Tabela::new();
    assert_eq!(t.consulta(b("k"), b("cliente1")), None);
    assert_eq!(t.consulta(b("outra"), b("cliente2")), None);
    assert_eq!(t.consulta(b("k"), b("cliente3")), None);
    // storing another key answers nobody waiting for k
    assert!(t.insere(b("x"), b("1")).is_empty());
    // storing k answers its consults, in order, and only once
    assert_eq!(t.insere(b("k"), b("v")), vec![b("cliente1"), b("cliente3")]);
    assert!(t.insere(b("k"), b("w")).is_empty());
    // the consult for the other key still waits
    assert_eq!(t.insere(b("outra"), b("2")), vec![b("cliente2")]);
}

#[test]
fn ultima_escrita_vale() {
    let mut t = Tabela::new();
    t.insere(b("k"), b("1"));
    t.insere(b("j"), b("x"));
    t.insere(b("k"), b("2"));
    assert_eq!(t.consulta(b("j"), b("e")), Some(b("x")));
    t.insere(b("k"), b("3"));
    assert_eq!(t.consulta(b("k"), b("e")), Some(b("3")));
}

#[test]
fn cada_consulta_tem_uma_resposta() {
    // consults from "e" and their answers add up, in either order
    let mut t = Tabela::new();
    let mut respostas = 0;
    if t.consulta(b("k"), b("e")).is_some() {
        respostas += 1;
    }
    respostas += t.insere(b("k"), b("v")).iter().filter(|a| **a == b("e")).count();
    respostas += t.insere(b("k"), b("w")).iter().filter(|a| **a == b("e")).count();
    assert_eq!(respostas, 1);
    let mut u = Tabela::new();
    let mut respostas = u.insere(b("k"), b("v")).len();
    if u.consulta(b("k"), b("e")).is_some() {
        respostas += 1;
    }
    respostas += u.insere(b("k"), b("w")).len();
    assert_eq!(respostas, 1);
}
