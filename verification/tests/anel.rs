use hash_distribuido::anel::{calcula, calcula_bytes, potencia2, proximo_no};

#[test]
fn calcula_soma_os_bytes_modulo_o_anel() {
    // t + e + s + t + e = 116 + 101 + 115 + 116 + 101 = 549; 549 % 16 = 5
    assert_eq!(calcula(&"teste".to_string(), &4), 5);
    assert_eq!(calcula(&"teste".to_string(), &5), 549 % 32);
    assert_eq!(calcula(&"".to_string(), &4), 0);
    assert_eq!(calcula(&"qualquer".to_string(), &0), 0);
}

#[test]
fn calcula_usa_os_bytes_utf8() {
    // 'ç' is 0xC3 0xA7 in UTF-8: 195 + 167 = 362
    assert_eq!(calcula(&"ç".to_string(), &30), 362);
    assert_eq!(calcula_bytes(&[195u8, 167], 8), 362 % 256);
}

#[test]
fn potencias_de_dois() {
    assert_eq!(potencia2(0), 1);
    assert_eq!(potencia2(4), 16);
    assert_eq!(potencia2(30), 1 << 30);
}

#[test]
fn proximo_no_salta_a_maior_potencia_que_nao_passa() {
    // ring of 16 nodes
    assert_eq!(proximo_no(5, 3, 4), 5);
    assert_eq!(proximo_no(4, 3, 4), 4);
    assert_eq!(proximo_no(15, 0, 4), 8);
    // destination behind the current node: around the ring
    assert_eq!(proximo_no(2, 3, 4), 11);
    assert_eq!(proximo_no(2, 11, 4), 15);
    assert_eq!(proximo_no(2, 15, 4), 1);
    assert_eq!(proximo_no(2, 1, 4), 2);
    // a ring of one node
    assert_eq!(proximo_no(0, 0, 0), 0);
}

#[test]
fn proximo_no_destino_fora_do_anel() {
    // a destination past the ring is approached with the longest jump
    assert_eq!(proximo_no(40, 3, 4), 11);
    // a destination far below: a jump of one
    assert_eq!(proximo_no(-100, 3, 4), 4);
    // the destination itself: a jump of one, around the ring
    assert_eq!(proximo_no(3, 3, 4), 4);
    assert_eq!(proximo_no(15, 15, 4), 0);
}

#[test]
fn rota_chega_em_no_maximo_p_saltos() {
    let p = 5;
    let n = 32;
    for origem in 0..n {
        for destino in 0..n {
            let mut atual = origem;
            let mut saltos = 0;
            while atual != destino {
                atual = proximo_no(destino, atual, p);
                saltos += 1;
                assert!(saltos <= p);
            }
        }
    }
}

#[test]
fn dono_nao_depende_da_ordem_dos_bytes() {
    for p in [0, 3, 4, 10, 30] {
        assert_eq!(calcula(&"ab".to_string(), &p), calcula(&"ba".to_string(), &p));
        assert_eq!(calcula(&"teste".to_string(), &p), calcula(&"etset".to_string(), &p));
    }
}
