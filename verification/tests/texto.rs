use hash_distribuido::decimal::{escreve_inteiro, le_inteiro};
use hash_distribuido::texto::{comeca, corta, desescapa_bytes, divide_pecas, escapa_bytes, iguais};

fn partes(s: &str) -> Vec<String> {
    divide_pecas(s.as_bytes()).into_iter().map(|p| String::from_utf8(p).unwrap()).collect()
}

#[test]
fn divide_corta_em_cada_separador() {
    assert_eq!(partes("insere--chave--valor"), vec!["insere", "chave", "valor"]);
    assert_eq!(partes(""), vec![""]);
    assert_eq!(partes("--"), vec!["", ""]);
    assert_eq!(partes("a---b"), vec!["a", "-b"]);
    assert_eq!(partes("a----b"), vec!["a", "", "b"]);
    assert_eq!(partes("sem separador"), vec!["sem separador"]);
}

#[test]
fn separador_escapado_fica_na_peca() {
    assert_eq!(partes("insere--a\\--b--v"), vec!["insere", "a--b", "v"]);
    assert_eq!(partes("x\\--\\--y"), vec!["x----y"]);
    assert_eq!(partes("\\-x--y"), vec!["\\-x", "y"]);
    assert_eq!(corta(b"a\\--b--c"), vec![b"a\\--b".to_vec(), b"c".to_vec()]);
    // an escaped text with a safe end comes back whole
    for (k, v) in [("a--b", "c--d"), ("--x", "y--"), ("\\--", "v"), ("-a-", "b")] {
        let mut m = escapa_bytes(k.as_bytes());
        if k.ends_with('-') || k.ends_with('\\') {
            continue;
        }
        m.extend_from_slice(b"--");
        m.extend_from_slice(&escapa_bytes(v.as_bytes()));
        assert_eq!(divide_pecas(&m), vec![k.as_bytes().to_vec(), v.as_bytes().to_vec()]);
    }
}

#[test]
fn escapa_e_desescapa() {
    assert_eq!(escapa_bytes(b"a--b"), b"a\\--b".to_vec());
    assert_eq!(escapa_bytes(b"---"), b"\\---".to_vec());
    assert_eq!(desescapa_bytes(b"a\\--b"), b"a--b".to_vec());
    assert_eq!(desescapa_bytes(b"\\-"), b"\\-".to_vec());
    for s in ["", "a--b", "---", "\\--", "\\\\--x", "-\\--", "--\\"] {
        assert_eq!(desescapa_bytes(&escapa_bytes(s.as_bytes())), s.as_bytes().to_vec());
    }
}

#[test]
fn comparacoes_de_bytes() {
    assert!(comeca(b"insere--x", b"insere--"));
    assert!(!comeca(b"insere_no--x", b"insere--"));
    assert!(!comeca(b"ins", b"insere"));
    assert!(iguais(b"abc", b"abc"));
    assert!(!iguais(b"abc", b"abd"));
    assert!(!iguais(b"abc", b"ab"));
}

#[test]
fn escreve_inteiros_em_decimal() {
    assert_eq!(escreve_inteiro(0), b"0".to_vec());
    assert_eq!(escreve_inteiro(7), b"7".to_vec());
    assert_eq!(escreve_inteiro(1024), b"1024".to_vec());
    assert_eq!(escreve_inteiro(-5), b"-5".to_vec());
    assert_eq!(escreve_inteiro(i32::MIN), b"-2147483648".to_vec());
    assert_eq!(escreve_inteiro(i32::MAX), b"2147483647".to_vec());
}

#[test]
fn le_inteiros_como_parse() {
    assert_eq!(le_inteiro(b"42"), Some(42));
    assert_eq!(le_inteiro(b"+42"), Some(42));
    assert_eq!(le_inteiro(b"-42"), Some(-42));
    assert_eq!(le_inteiro(b"007"), Some(7));
    assert_eq!(le_inteiro(b"-2147483648"), Some(i32::MIN));
    assert_eq!(le_inteiro(b"2147483647"), Some(i32::MAX));
    assert_eq!(le_inteiro(b"2147483648"), None);
    assert_eq!(le_inteiro(b"-2147483649"), None);
    assert_eq!(le_inteiro(b"99999999999999999999"), None);
    assert_eq!(le_inteiro(b""), None);
    assert_eq!(le_inteiro(b"-"), None);
    assert_eq!(le_inteiro(b"+"), None);
    assert_eq!(le_inteiro(b"12a"), None);
    assert_eq!(le_inteiro(b" 1"), None);
    for s in ["42", "+42", "-42", "007", "", "-", "12a", "2147483648", "-0"] {
        assert_eq!(le_inteiro(s.as_bytes()), s.parse::<i32>().ok());
    }
}

#[test]
fn le_o_que_escreve() {
    for x in [0, 1, -1, 9, 10, -10, 123456, i32::MIN, i32::MAX] {
        assert_eq!(le_inteiro(&escreve_inteiro(x)), Some(x));
        assert_eq!(escreve_inteiro(x), format!("{}", x).into_bytes());
    }
}
