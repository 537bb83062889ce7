//! Decimal text of `i32` numbers, written as `{}` formats them and read back
//! as `str::parse::<i32>` reads them.

use vstd::prelude::*;
use crate::texto::{HIFEN, separador_em, sem_separador};

verus! {

/// The byte `+`.
pub const MAIS: u8 = 43;

/// The decimal digits of `n`, most significant first, with no leading zero.
pub open spec fn digitos(n: nat) -> Seq<u8>
    decreases n,
{
    if n < 10 {
        seq![(48 + n) as u8]
    } else {
        digitos(n / 10).push((48 + n % 10) as u8)
    }
}

/// The decimal text of `x`: a `-` in front of the digits of a negative number.
pub open spec fn decimal(x: int) -> Seq<u8> {
    if x < 0 {
        seq![HIFEN] + digitos((-x) as nat)
    } else {
        digitos(x as nat)
    }
}

pub open spec fn eh_digito(b: u8) -> bool {
    48 <= b <= 57
}

pub open spec fn so_digitos(s: Seq<u8>) -> bool {
    forall|i: int| 0 <= i < s.len() ==> eh_digito(#[trigger] s[i])
}

/// The number that the decimal digits `s` spell.
pub open spec fn valor_digitos(s: Seq<u8>) -> int
    decreases s.len(),
{
    if s.len() == 0 {
        0
    } else {
        valor_digitos(s.drop_last()) * 10 + (s.last() - 48)
    }
}

/// What `s` reads as a whole number: an optional `+` or `-`, then at least
/// one decimal digit and nothing else; `None` for any other text.
pub open spec fn leitura(s: Seq<u8>) -> Option<int> {
    let com_sinal = s.len() > 0 && (s[0] == HIFEN || s[0] == MAIS);
    let corpo = if com_sinal {
        s.skip(1)
    } else {
        s
    };
    if corpo.len() > 0 && so_digitos(corpo) {
        Some(
            if s[0] == HIFEN {
                -valor_digitos(corpo)
            } else {
                valor_digitos(corpo)
            },
        )
    } else {
        None
    }
}

/// What `s` reads as an `i32`: `None` where the text is no number or the
/// number does not fit.
pub open spec fn le_i32(s: Seq<u8>) -> Option<int> {
    match leitura(s) {
        Some(v) => if i32::MIN <= v <= i32::MAX {
            Some(v)
        } else {
            None
        },
        None => None,
    }
}

pub proof fn lemma_digitos(n: nat)
    ensures
        digitos(n).len() >= 1,
        so_digitos(digitos(n)),
        valor_digitos(digitos(n)) == n,
    decreases n,
{
    if n >= 10 {
        lemma_digitos(n / 10);
        vstd::arithmetic::div_mod::lemma_fundamental_div_mod(n as int, 10);
        let s = digitos(n);
        assert(s.drop_last() =~= digitos(n / 10));
        assert(0 <= n % 10 < 10);
        assert(s.last() == 48 + n % 10);
        assert(valor_digitos(s) == valor_digitos(s.drop_last()) * 10 + (s.last() - 48));
    } else {
        let s = digitos(n);
        assert(s.drop_last() =~= Seq::<u8>::empty());
        assert(valor_digitos(s) == valor_digitos(s.drop_last()) * 10 + (s.last() - 48));
    }
}

proof fn lemma_valor_cresce(s: Seq<u8>)
    requires
        s.len() >= 1,
        so_digitos(s),
    ensures
        valor_digitos(s) >= valor_digitos(s.drop_last()) * 10,
        valor_digitos(s.drop_last()) >= 0,
    decreases s.len(),
{
    if s.len() > 1 {
        lemma_valor_cresce(s.drop_last());
    }
}

/// The decimal text of `x`, as `format!("{}", x)` writes it.
pub fn escreve_inteiro(x: i32) -> (r: Vec<u8>)
    ensures
        r@ == decimal(x as int),
{
    let negativo = x < 0;
    let mut q: u64 = if negativo {
        (-(x as i64)) as u64
    } else {
        x as u64
    };
    let ghost m: nat = q as nat;
    let mut acc: Vec<u8> = Vec::new();
    loop
        invariant_except_break
            digitos(m) == digitos(q as nat) + acc@,
        ensures
            digitos(m) == acc@,
        decreases q,
    {
        let d = (q % 10) as u8;
        let ghost antes = acc@;
        acc.insert(0, 48 + d);
        if q < 10 {
            assert(digitos(q as nat) + antes =~= acc@);
            break;
        }
        assert(digitos(q as nat) + antes =~= digitos((q / 10) as nat) + acc@);
        q = q / 10;
    }
    if negativo {
        let mut r: Vec<u8> = Vec::new();
        r.push(HIFEN);
        crate::texto::anexa(&mut r, acc.as_slice());
        r
    } else {
        acc
    }
}

/// What `s` reads as an `i32`, as `str::parse::<i32>` reads it.
pub fn le_inteiro(s: &[u8]) -> (r: Option<i32>)
    ensures
        r matches Some(v) ==> le_i32(s@) == Some(v as int),
        r is None ==> le_i32(s@) is None,
{
    let n = s.len();
    if n == 0 {
        return None;
    }
    let negativo = s[0] == HIFEN;
    let inicio: usize = if s[0] == HIFEN || s[0] == MAIS {
        1
    } else {
        0
    };
    let ghost corpo = s@.subrange(inicio as int, n as int);
    proof {
        if inicio == 1 {
            assert(corpo =~= s@.skip(1));
        } else {
            assert(corpo =~= s@);
        }
    }
    if inicio == n {
        return None;
    }
    let mut acc: i64 = 0;
    let mut grande = false;
    let mut i: usize = inicio;
    proof {
        assert(corpo.take(0) =~= Seq::<u8>::empty());
    }
    while i < n
        invariant
            inicio <= i <= n,
            n == s@.len(),
            corpo == s@.subrange(inicio as int, n as int),
            corpo == (if inicio == 1 { s@.skip(1) } else { s@ }),
            inicio == 1 <==> (s@[0] == HIFEN || s@[0] == MAIS),
            so_digitos(corpo.take(i - inicio)),
            !grande ==> acc == valor_digitos(corpo.take(i - inicio)),
            !grande ==> 0 <= acc <= 0x8000_0000,
            grande ==> valor_digitos(corpo.take(i - inicio)) > 0x8000_0000,
        decreases n - i,
    {
        let b = s[i];
        let ghost k: int = i - inicio;
        let ghost novo_prefixo = corpo.take(k + 1);
        assert(novo_prefixo.drop_last() =~= corpo.take(k));
        assert(novo_prefixo.last() == b);
        if b < 48 || b > 57 {
            assert(!eh_digito(corpo[k]));
            assert(!so_digitos(corpo));
            return None;
        }
        assert(so_digitos(novo_prefixo));
        proof {
            lemma_valor_cresce(novo_prefixo);
        }
        if !grande {
            let novo = acc * 10 + (b - 48) as i64;
            if novo > 0x8000_0000 {
                grande = true;
            } else {
                acc = novo;
            }
        }
        i = i + 1;
    }
    assert(corpo.take(n - inicio) =~= corpo);
    if grande {
        return None;
    }
    if negativo {
        Some((-acc) as i32)
    } else if acc <= 0x7fff_ffff {
        Some(acc as i32)
    } else {
        None
    }
}

/// Reading back the decimal text of an `i32` gives the number itself.
pub proof fn lemma_le_escreve(x: i32)
    ensures
        le_i32(decimal(x as int)) == Some(x as int),
{
    if x < 0 {
        lemma_digitos((-x) as nat);
        let s = decimal(x as int);
        assert(s.skip(1) =~= digitos((-x) as nat));
        assert(eh_digito(digitos((-x) as nat)[0]));
    } else {
        lemma_digitos(x as nat);
        assert(eh_digito(digitos(x as nat)[0]));
    }
}

/// Decimal text ends with a digit.
pub proof fn lemma_decimal_termina_em_digito(x: int)
    ensures
        decimal(x).len() > 0,
        eh_digito(decimal(x).last()),
{
    let n: nat = if x < 0 {
        (-x) as nat
    } else {
        x as nat
    };
    lemma_digitos(n);
    assert(eh_digito(digitos(n)[digitos(n).len() - 1]));
    if x < 0 {
        assert(decimal(x).last() == digitos(n).last());
    }
}

/// Decimal text holds no separator `--`.
pub proof fn lemma_decimal_sem_separador(x: int)
    ensures
        sem_separador(decimal(x)),
{
    let n: nat = if x < 0 {
        (-x) as nat
    } else {
        x as nat
    };
    lemma_digitos(n);
    let s = decimal(x);
    assert forall|i: int| !#[trigger] separador_em(s, i) by {
        if separador_em(s, i) {
            if x < 0 {
                assert(s[i + 1] == digitos(n)[i]);
                assert(eh_digito(digitos(n)[i]));
            } else {
                assert(eh_digito(digitos(n)[i]));
            }
        }
    }
}

} // verus!
