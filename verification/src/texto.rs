//! Byte strings as the ring's text protocol sees them: separators, escapes,
//! prefixes and pieces.

use vstd::prelude::*;

verus! {

/// The byte `-`.
pub const HIFEN: u8 = 45;

/// The byte `\`.
pub const BARRA: u8 = 92;

/// `s` holds the separator `--` at position `i`.
pub open spec fn separador_em(s: Seq<u8>, i: int) -> bool {
    0 <= i && i + 1 < s.len() && s[i] == HIFEN && s[i + 1] == HIFEN
}

/// `s` holds the escaped separator `\--` at its start.
pub open spec fn comeca_escapado(s: Seq<u8>) -> bool {
    s.len() >= 3 && s[0] == BARRA && s[1] == HIFEN && s[2] == HIFEN
}

/// `p` is a prefix of `s`.
pub open spec fn comeca_com(s: Seq<u8>, p: Seq<u8>) -> bool {
    p.len() <= s.len() && s.take(p.len() as int) == p
}

/// `s` with each `--` turned into `\--`, matches taken from the left without
/// overlap.
pub open spec fn escapa(s: Seq<u8>) -> Seq<u8>
    decreases s.len(),
{
    if s.len() == 0 {
        s
    } else if separador_em(s, 0) {
        seq![BARRA, HIFEN, HIFEN] + escapa(s.skip(2))
    } else {
        seq![s[0]] + escapa(s.skip(1))
    }
}

/// `s` with each `\--` turned into `--`, matches taken from the left without
/// overlap.
pub open spec fn desescapa(s: Seq<u8>) -> Seq<u8>
    decreases s.len(),
{
    if s.len() == 0 {
        s
    } else if comeca_escapado(s) {
        seq![HIFEN, HIFEN] + desescapa(s.skip(3))
    } else {
        seq![s[0]] + desescapa(s.skip(1))
    }
}

/// `pedaco` put in front of the first piece of `r`.
pub open spec fn junta(pedaco: Seq<u8>, r: Seq<Seq<u8>>) -> Seq<Seq<u8>> {
    r.update(0, pedaco + r[0])
}

/// The raw pieces of `s` between its separators `--`, from the left: an
/// escaped separator `\--` stays inside its piece; there is always at least
/// one piece.
pub open spec fn cortes(s: Seq<u8>) -> Seq<Seq<u8>>
    decreases s.len(),
{
    if s.len() == 0 {
        seq![Seq::<u8>::empty()]
    } else if comeca_escapado(s) {
        junta(s.take(3), cortes(s.skip(3)))
    } else if separador_em(s, 0) {
        seq![Seq::<u8>::empty()] + cortes(s.skip(2))
    } else {
        junta(seq![s[0]], cortes(s.skip(1)))
    }
}

/// The pieces of `s`: cut at its separators, each piece then unescaped.
pub open spec fn pecas(s: Seq<u8>) -> Seq<Seq<u8>> {
    Seq::new(cortes(s).len(), |i: int| desescapa(cortes(s)[i]))
}

/// `s` may stand before a separator without joining it: it ends neither
/// with `-` nor with `\`.
pub open spec fn fim_seguro(s: Seq<u8>) -> bool {
    s.len() > 0 ==> s.last() != HIFEN && s.last() != BARRA
}

/// The contents of each vector of `v`.
pub open spec fn vistas(v: Seq<Vec<u8>>) -> Seq<Seq<u8>> {
    Seq::new(v.len(), |i: int| v[i]@)
}

pub proof fn lemma_desescapa_curta(s: Seq<u8>)
    ensures
        desescapa(s).len() <= s.len(),
    decreases s.len(),
{
    if s.len() > 0 {
        if comeca_escapado(s) {
            lemma_desescapa_curta(s.skip(3));
        } else {
            lemma_desescapa_curta(s.skip(1));
        }
    }
}

/// `s` holds no separator `--`.
pub open spec fn sem_separador(s: Seq<u8>) -> bool {
    forall|i: int| !#[trigger] separador_em(s, i)
}

/// `s` holds no `--` and ends neither with `-` nor with `\`: unescaping
/// leaves it as it is, whatever follows it.
pub open spec fn peca_interna(s: Seq<u8>) -> bool {
    &&& sem_separador(s)
    &&& s.len() > 0 ==> s.last() != HIFEN && s.last() != BARRA
}

/// Escaping changes nothing in a text with no `--`.
pub proof fn lemma_escapa_sem_separador(s: Seq<u8>)
    requires
        sem_separador(s),
    ensures
        escapa(s) == s,
    decreases s.len(),
{
    if s.len() > 0 {
        assert(!separador_em(s, 0));
        let t = s.skip(1);
        assert forall|i: int| !#[trigger] separador_em(t, i) by {
            assert(!separador_em(s, i + 1));
        }
        lemma_escapa_sem_separador(t);
        assert(seq![s[0]] + t =~= s);
    }
}

/// Unescaping leaves an inner piece at the front as it is.
pub proof fn lemma_desescapa_interna(a: Seq<u8>, t: Seq<u8>)
    requires
        peca_interna(a),
    ensures
        desescapa(a + t) == a + desescapa(t),
    decreases a.len(),
{
    if a.len() == 0 {
        assert(a + t =~= t);
    } else {
        let at = a + t;
        assert(!separador_em(a, 1));
        assert(!comeca_escapado(at));
        let r = a.skip(1);
        assert forall|i: int| !#[trigger] separador_em(r, i) by {
            assert(!separador_em(a, i + 1));
        }
        assert(at.skip(1) =~= r + t);
        lemma_desescapa_interna(r, t);
        assert(seq![a[0]] + (r + desescapa(t)) =~= a + desescapa(t));
    }
}

/// Unescaping leaves a separator at the front as it is.
pub proof fn lemma_desescapa_separador(t: Seq<u8>)
    ensures
        desescapa(seq![HIFEN, HIFEN] + t) == seq![HIFEN, HIFEN] + desescapa(t),
{
    let s = seq![HIFEN, HIFEN] + t;
    let s1 = seq![HIFEN] + t;
    assert(!comeca_escapado(s));
    assert(s.skip(1) =~= s1);
    assert(desescapa(s) == seq![s[0]] + desescapa(s1));
    assert(!comeca_escapado(s1));
    assert(s1.skip(1) =~= t);
    assert(desescapa(s1) == seq![s1[0]] + desescapa(t));
    assert(seq![HIFEN] + (seq![HIFEN] + desescapa(t)) =~= seq![HIFEN, HIFEN] + desescapa(t));
}

/// Unescaping undoes escaping: the server reads back exactly the text that
/// the client escaped.
pub proof fn lemma_desescapa_escapa(s: Seq<u8>)
    ensures
        desescapa(escapa(s)) == s,
    decreases s.len(),
{
    if s.len() > 0 {
        if separador_em(s, 0) {
            let e = seq![BARRA, HIFEN, HIFEN] + escapa(s.skip(2));
            assert(comeca_escapado(e));
            assert(e.skip(3) =~= escapa(s.skip(2)));
            lemma_desescapa_escapa(s.skip(2));
            assert(seq![HIFEN, HIFEN] + s.skip(2) =~= s);
        } else {
            let t = s.skip(1);
            let e = seq![s[0]] + escapa(t);
            lemma_desescapa_escapa(t);
            lemma_escapa_nao_comeca_com_separador(t);
            assert(e.skip(1) =~= escapa(t));
            assert(!comeca_escapado(e));
            assert(seq![s[0]] + t =~= s);
        }
    }
}

/// An escaped text never begins with `--`.
proof fn lemma_escapa_nao_comeca_com_separador(t: Seq<u8>)
    ensures
        !separador_em(escapa(t), 0),
    decreases t.len(),
{
    if t.len() > 0 && !separador_em(t, 0) {
        let r = t.skip(1);
        let e = escapa(t);
        assert(e == seq![t[0]] + escapa(r));
        if r.len() == 0 {
            assert(escapa(r).len() == 0);
            assert(e.len() == 1);
        } else if separador_em(r, 0) {
            assert(escapa(r)[0] == BARRA);
            assert(e[1] == BARRA);
        } else {
            assert(escapa(r) == seq![r[0]] + escapa(r.skip(1)));
            assert(e[1] == r[0]);
            assert(r[0] == t[1]);
        }
    }
}

pub proof fn lemma_cortes_nao_vazios(s: Seq<u8>)
    ensures
        cortes(s).len() >= 1,
    decreases s.len(),
{
    if s.len() > 0 {
        if comeca_escapado(s) {
            lemma_cortes_nao_vazios(s.skip(3));
        } else if separador_em(s, 0) {
            lemma_cortes_nao_vazios(s.skip(2));
        } else {
            lemma_cortes_nao_vazios(s.skip(1));
        }
    }
}

pub proof fn lemma_cortes_curtos(s: Seq<u8>)
    ensures
        forall|i: int| 0 <= i < cortes(s).len() ==> #[trigger] cortes(s)[i].len() <= s.len(),
    decreases s.len(),
{
    if s.len() > 0 {
        if comeca_escapado(s) {
            lemma_cortes_curtos(s.skip(3));
            lemma_cortes_nao_vazios(s.skip(3));
            let r = cortes(s.skip(3));
            assert forall|i: int| 0 <= i < cortes(s).len() implies #[trigger] cortes(s)[i].len()
                <= s.len() by {
                if i > 0 {
                    assert(cortes(s)[i] == r[i]);
                } else {
                    assert(cortes(s)[0] == s.take(3) + r[0]);
                }
            }
        } else if separador_em(s, 0) {
            lemma_cortes_curtos(s.skip(2));
            let r = cortes(s.skip(2));
            assert forall|i: int| 0 <= i < cortes(s).len() implies #[trigger] cortes(s)[i].len()
                <= s.len() by {
                if i > 0 {
                    assert(cortes(s)[i] == r[i - 1]);
                }
            }
        } else {
            lemma_cortes_curtos(s.skip(1));
            lemma_cortes_nao_vazios(s.skip(1));
            let r = cortes(s.skip(1));
            assert forall|i: int| 0 <= i < cortes(s).len() implies #[trigger] cortes(s)[i].len()
                <= s.len() by {
                if i > 0 {
                    assert(cortes(s)[i] == r[i]);
                } else {
                    assert(cortes(s)[0] == seq![s[0]] + r[0]);
                }
            }
        }
    }
}

/// Each piece of `s` is no longer than `s`.
pub proof fn lemma_pecas_curtas(s: Seq<u8>)
    ensures
        forall|i: int| 0 <= i < pecas(s).len() ==> #[trigger] pecas(s)[i].len() <= s.len(),
{
    lemma_cortes_curtos(s);
    assert forall|i: int| 0 <= i < pecas(s).len() implies #[trigger] pecas(s)[i].len() <= s.len() by {
        lemma_desescapa_curta(cortes(s)[i]);
    }
}

/// A separator at the front cuts off an empty piece.
pub proof fn lemma_cortes_separador(t: Seq<u8>)
    ensures
        cortes(seq![HIFEN, HIFEN] + t) == seq![Seq::<u8>::empty()] + cortes(t),
{
    let s = seq![HIFEN, HIFEN] + t;
    assert(!comeca_escapado(s));
    assert(separador_em(s, 0));
    assert(s.skip(2) =~= t);
}

/// An escaped text at the front stays whole in the first piece, unless it
/// ends with `-` or `\` and something follows it.
pub proof fn lemma_cortes_escapa(k: Seq<u8>, t: Seq<u8>)
    requires
        t.len() == 0 || fim_seguro(k),
    ensures
        cortes(escapa(k) + t) == junta(escapa(k), cortes(t)),
    decreases k.len(),
{
    lemma_cortes_nao_vazios(t);
    let x = cortes(t);
    if k.len() == 0 {
        assert(escapa(k) + t =~= t);
        assert(junta(escapa(k), x) =~= x);
    } else if separador_em(k, 0) {
        let k2 = k.skip(2);
        let m = escapa(k) + t;
        assert(escapa(k) == seq![BARRA, HIFEN, HIFEN] + escapa(k2));
        assert(comeca_escapado(m));
        assert(m.take(3) =~= seq![BARRA, HIFEN, HIFEN]);
        assert(m.skip(3) =~= escapa(k2) + t);
        if k2.len() == 0 {
            assert(t.len() == 0);
        }
        lemma_cortes_escapa(k2, t);
        assert(seq![BARRA, HIFEN, HIFEN] + (escapa(k2) + x[0]) =~= escapa(k) + x[0]);
        assert(junta(seq![BARRA, HIFEN, HIFEN], junta(escapa(k2), x)) =~= junta(escapa(k), x));
    } else {
        let k1 = k.skip(1);
        let m = escapa(k) + t;
        assert(escapa(k) == seq![k[0]] + escapa(k1));
        assert(m[0] == k[0]);
        assert(m.skip(1) =~= escapa(k1) + t);
        if k1.len() == 0 {
            assert(escapa(k1) =~= k1);
            assert(m.skip(1) =~= t);
            if t.len() > 0 {
                assert(k.last() == k[0]);
            }
        } else {
            lemma_escapa_nao_comeca_com_separador(k1);
            if separador_em(k1, 0) {
                assert(escapa(k1)[0] == BARRA);
            } else {
                assert(escapa(k1) == seq![k1[0]] + escapa(k1.skip(1)));
                assert(escapa(k1)[0] == k1[0]);
                assert(k1[0] == k[1]);
            }
            if k[0] == BARRA && escapa(k1).len() == 1 && t.len() > 0 {
                assert(escapa(k1) == seq![k1[0]] + escapa(k1.skip(1)));
                assert(escapa(k1.skip(1)).len() == 0);
                if k1.skip(1).len() > 0 {
                    lemma_escapa_nao_encurta(k1.skip(1));
                }
                assert(k1.len() == 1);
                assert(k.last() == k1[0]);
            }
            assert(m[1] == escapa(k1)[0]);
            if escapa(k1).len() >= 2 {
                assert(m[2] == escapa(k1)[1]);
            }
        }
        assert(!comeca_escapado(m));
        assert(!separador_em(m, 0));
        lemma_cortes_escapa(k1, t);
        assert(seq![k[0]] + (escapa(k1) + x[0]) =~= escapa(k) + x[0]);
        assert(junta(seq![k[0]], junta(escapa(k1), x)) =~= junta(escapa(k), x));
    }
}

/// An escaped text alone is a single piece.
pub proof fn lemma_cortes_um(d: Seq<u8>)
    ensures
        cortes(escapa(d)) == seq![escapa(d)],
{
    lemma_cortes_escapa(d, Seq::<u8>::empty());
    assert(escapa(d) + Seq::<u8>::empty() =~= escapa(d));
    assert(junta(escapa(d), seq![Seq::<u8>::empty()]) =~= seq![escapa(d)]) by {
        assert(escapa(d) + Seq::<u8>::empty() =~= escapa(d));
    }
}

/// An escaped text with a safe end, then a separator, is a piece of its own.
pub proof fn lemma_cortes_mais(a: Seq<u8>, t: Seq<u8>)
    requires
        fim_seguro(a),
    ensures
        cortes(escapa(a) + seq![HIFEN, HIFEN] + t) == seq![escapa(a)] + cortes(t),
{
    let sep = seq![HIFEN, HIFEN];
    assert(escapa(a) + sep + t =~= escapa(a) + (sep + t));
    lemma_cortes_escapa(a, sep + t);
    lemma_cortes_separador(t);
    assert(junta(escapa(a), seq![Seq::<u8>::empty()] + cortes(t)) =~= seq![escapa(a)] + cortes(t)) by {
        assert(escapa(a) + Seq::<u8>::empty() =~= escapa(a));
    }
}

/// Texts escaped and joined by separators come back as they were: the
/// pieces of `escapa(a)--escapa(b)` are `a` and `b`, when `a` has a safe end.
pub proof fn lemma_pecas_duas(a: Seq<u8>, b: Seq<u8>)
    requires
        fim_seguro(a),
    ensures
        pecas(escapa(a) + seq![HIFEN, HIFEN] + escapa(b)) == seq![a, b],
{
    let m = escapa(a) + seq![HIFEN, HIFEN] + escapa(b);
    lemma_cortes_mais(a, escapa(b));
    lemma_cortes_um(b);
    lemma_desescapa_escapa(a);
    lemma_desescapa_escapa(b);
    assert(cortes(m) =~= seq![escapa(a), escapa(b)]);
    assert(pecas(m) =~= seq![a, b]);
}

/// The pieces of `escapa(a)--escapa(b)--escapa(c)` are `a`, `b` and `c`,
/// when `a` and `b` have safe ends.
pub proof fn lemma_pecas_tres(a: Seq<u8>, b: Seq<u8>, c: Seq<u8>)
    requires
        fim_seguro(a),
        fim_seguro(b),
    ensures
        pecas(escapa(a) + seq![HIFEN, HIFEN] + escapa(b) + seq![HIFEN, HIFEN] + escapa(c)) == seq![
            a,
            b,
            c,
        ],
{
    let sep = seq![HIFEN, HIFEN];
    let r = escapa(b) + sep + escapa(c);
    let m = escapa(a) + sep + escapa(b) + sep + escapa(c);
    assert(m =~= escapa(a) + sep + r);
    lemma_cortes_mais(a, r);
    lemma_cortes_mais(b, escapa(c));
    lemma_cortes_um(c);
    lemma_desescapa_escapa(a);
    lemma_desescapa_escapa(b);
    lemma_desescapa_escapa(c);
    assert(cortes(m) =~= seq![escapa(a), escapa(b), escapa(c)]);
    assert(pecas(m) =~= seq![a, b, c]);
}

/// The pieces of `escapa(a)--escapa(b)--escapa(c)--escapa(d)` are `a`, `b`,
/// `c` and `d`, when `a`, `b` and `c` have safe ends.
pub proof fn lemma_pecas_quatro(a: Seq<u8>, b: Seq<u8>, c: Seq<u8>, d: Seq<u8>)
    requires
        fim_seguro(a),
        fim_seguro(b),
        fim_seguro(c),
    ensures
        pecas(
            escapa(a) + seq![HIFEN, HIFEN] + escapa(b) + seq![HIFEN, HIFEN] + escapa(c) + seq![HIFEN, HIFEN]
                + escapa(d),
        ) == seq![a, b, c, d],
{
    let sep = seq![HIFEN, HIFEN];
    let r2 = escapa(c) + sep + escapa(d);
    let r1 = escapa(b) + sep + r2;
    let m = escapa(a) + sep + escapa(b) + sep + escapa(c) + sep + escapa(d);
    assert(m =~= escapa(a) + sep + r1);
    lemma_cortes_mais(a, r1);
    lemma_cortes_mais(b, r2);
    lemma_cortes_mais(c, escapa(d));
    lemma_cortes_um(d);
    lemma_desescapa_escapa(a);
    lemma_desescapa_escapa(b);
    lemma_desescapa_escapa(c);
    lemma_desescapa_escapa(d);
    assert(cortes(m) =~= seq![escapa(a), escapa(b), escapa(c), escapa(d)]);
    assert(pecas(m) =~= seq![a, b, c, d]);
}

proof fn lemma_escapa_nao_encurta(s: Seq<u8>)
    ensures
        escapa(s).len() >= s.len(),
    decreases s.len(),
{
    if s.len() > 0 {
        if separador_em(s, 0) {
            lemma_escapa_nao_encurta(s.skip(2));
        } else {
            lemma_escapa_nao_encurta(s.skip(1));
        }
    }
}

/// The pieces of `s` between separators `--`, found from the left without
/// overlap; there is always at least one piece.
pub open spec fn partes(s: Seq<u8>) -> Seq<Seq<u8>>
    decreases s.len(),
{
    if s.len() == 0 {
        seq![Seq::<u8>::empty()]
    } else if separador_em(s, 0) {
        seq![Seq::<u8>::empty()] + partes(s.skip(2))
    } else {
        junta(seq![s[0]], partes(s.skip(1)))
    }
}


pub proof fn lemma_partes_nao_vazias(s: Seq<u8>)
    ensures
        partes(s).len() >= 1,
    decreases s.len(),
{
    if s.len() > 0 {
        if separador_em(s, 0) {
            lemma_partes_nao_vazias(s.skip(2));
        } else {
            lemma_partes_nao_vazias(s.skip(1));
        }
    }
}


/// Unescaping changes nothing in a text with no `--`.
pub proof fn lemma_desescapa_sem_separador(s: Seq<u8>)
    requires
        sem_separador(s),
    ensures
        desescapa(s) == s,
    decreases s.len(),
{
    if s.len() > 0 {
        assert(!separador_em(s, 1));
        let t = s.skip(1);
        assert forall|i: int| !#[trigger] separador_em(t, i) by {
            assert(!separador_em(s, i + 1));
        }
        lemma_desescapa_sem_separador(t);
        assert(seq![s[0]] + t =~= s);
    }
}


/// A separator at the front cuts off an empty piece.
pub proof fn lemma_partes_separador(t: Seq<u8>)
    ensures
        partes(seq![HIFEN, HIFEN] + t) == seq![Seq::<u8>::empty()] + partes(t),
{
    let s = seq![HIFEN, HIFEN] + t;
    assert(separador_em(s, 0));
    assert(s.skip(2) =~= t);
}


/// An inner piece at the front joins the first piece of the rest.
pub proof fn lemma_partes_interna(a: Seq<u8>, t: Seq<u8>)
    requires
        peca_interna(a),
    ensures
        partes(a + t) == junta(a, partes(t)),
    decreases a.len(),
{
    lemma_partes_nao_vazias(t);
    if a.len() == 0 {
        assert(a + t =~= t);
        assert(junta(a, partes(t)) =~= partes(t));
    } else {
        let at = a + t;
        assert(!separador_em(a, 0));
        assert(!separador_em(at, 0));
        let r = a.skip(1);
        assert forall|i: int| !#[trigger] separador_em(r, i) by {
            assert(!separador_em(a, i + 1));
        }
        assert(at.skip(1) =~= r + t);
        lemma_partes_interna(r, t);
        let x = partes(t);
        assert(seq![a[0]] + (r + x[0]) =~= a + x[0]);
        assert(junta(seq![a[0]], junta(r, x)) =~= junta(a, x));
    }
}


/// A text with no `--` is a single piece.
pub proof fn lemma_partes_sem_separador(b: Seq<u8>)
    requires
        sem_separador(b),
    ensures
        partes(b) == seq![b],
    decreases b.len(),
{
    if b.len() > 0 {
        assert(!separador_em(b, 0));
        let r = b.skip(1);
        assert forall|i: int| !#[trigger] separador_em(r, i) by {
            assert(!separador_em(b, i + 1));
        }
        lemma_partes_sem_separador(r);
        assert(seq![b[0]] + r =~= b);
        assert(junta(seq![b[0]], seq![r]) =~= seq![b]);
    } else {
        assert(b =~= Seq::<u8>::empty());
    }
}


/// Two pieces joined by a separator come out of the unescape and the cut as
/// they went in.
pub proof fn lemma_duas_pecas(a: Seq<u8>, b: Seq<u8>)
    requires
        peca_interna(a),
        sem_separador(b),
    ensures
        desescapa(a + seq![HIFEN, HIFEN] + b) == a + seq![HIFEN, HIFEN] + b,
        partes(a + seq![HIFEN, HIFEN] + b) == seq![a, b],
{
    let sep = seq![HIFEN, HIFEN];
    let m = a + sep + b;
    assert(m =~= a + (sep + b));
    lemma_desescapa_interna(a, sep + b);
    lemma_desescapa_separador(b);
    lemma_desescapa_sem_separador(b);
    assert(a + (sep + b) =~= m);
    lemma_partes_interna(a, sep + b);
    lemma_partes_separador(b);
    lemma_partes_sem_separador(b);
    assert(junta(a, seq![Seq::<u8>::empty()] + seq![b]) =~= seq![a, b]) by {
        assert(a + Seq::<u8>::empty() =~= a);
    }
}


/// Appends the bytes of `origem` to `destino`.
pub fn anexa(destino: &mut Vec<u8>, origem: &[u8])
    ensures
        final(destino)@ == old(destino)@ + origem@,
{
    let mut i: usize = 0;
    while i < origem.len()
        invariant
            i <= origem@.len(),
            destino@ == old(destino)@ + origem@.take(i as int),
        decreases origem@.len() - i,
    {
        destino.push(origem[i]);
        i = i + 1;
        assert(destino@ =~= old(destino)@ + origem@.take(i as int));
    }
    assert(origem@.take(origem@.len() as int) =~= origem@);
}

/// A copy of the bytes of `s`.
pub fn copia(s: &[u8]) -> (r: Vec<u8>)
    ensures
        r@ == s@,
{
    let mut r: Vec<u8> = Vec::new();
    anexa(&mut r, s);
    assert(r@ =~= s@);
    r
}

/// Whether `a` and `b` hold the same bytes.
pub fn iguais(a: &[u8], b: &[u8]) -> (r: bool)
    ensures
        r == (a@ == b@),
{
    if a.len() != b.len() {
        return false;
    }
    let mut i: usize = 0;
    while i < a.len()
        invariant
            a@.len() == b@.len(),
            i <= a@.len(),
            forall|j: int| 0 <= j < i ==> a@[j] == b@[j],
        decreases a@.len() - i,
    {
        if a[i] != b[i] {
            return false;
        }
        i = i + 1;
    }
    assert(a@ =~= b@);
    true
}

/// Whether `s` begins with `prefixo`.
pub fn comeca(s: &[u8], prefixo: &[u8]) -> (r: bool)
    ensures
        r == comeca_com(s@, prefixo@),
{
    if prefixo.len() > s.len() {
        return false;
    }
    let mut i: usize = 0;
    while i < prefixo.len()
        invariant
            prefixo@.len() <= s@.len(),
            i <= prefixo@.len(),
            forall|j: int| 0 <= j < i ==> s@[j] == prefixo@[j],
        decreases prefixo@.len() - i,
    {
        if s[i] != prefixo[i] {
            assert(s@.take(prefixo@.len() as int)[i as int] != prefixo@[i as int]);
            return false;
        }
        i = i + 1;
    }
    assert(s@.take(prefixo@.len() as int) =~= prefixo@);
    true
}

/// `s` with every `--` escaped as `\--`.
pub fn escapa_bytes(s: &[u8]) -> (r: Vec<u8>)
    ensures
        r@ == escapa(s@),
{
    let mut r: Vec<u8> = Vec::new();
    let mut i: usize = 0;
    proof {
        assert(s@.skip(0) =~= s@);
    }
    while i < s.len()
        invariant
            i <= s@.len(),
            escapa(s@) == r@ + escapa(s@.skip(i as int)),
        decreases s@.len() - i,
    {
        let ghost resto = s@.skip(i as int);
        if i + 1 < s.len() && s[i] == HIFEN && s[i + 1] == HIFEN {
            assert(separador_em(resto, 0));
            assert(resto.skip(2) =~= s@.skip(i + 2));
            r.push(BARRA);
            r.push(HIFEN);
            r.push(HIFEN);
            i = i + 2;
        } else {
            assert(!separador_em(resto, 0));
            assert(resto.skip(1) =~= s@.skip(i + 1));
            r.push(s[i]);
            i = i + 1;
        }
        assert(escapa(s@) =~= r@ + escapa(s@.skip(i as int)));
    }
    assert(s@.skip(i as int) =~= Seq::<u8>::empty());
    assert(r@ =~= escapa(s@));
    r
}

/// `s` with every `\--` turned back into `--`.
pub fn desescapa_bytes(s: &[u8]) -> (r: Vec<u8>)
    ensures
        r@ == desescapa(s@),
{
    let mut r: Vec<u8> = Vec::new();
    let mut i: usize = 0;
    proof {
        assert(s@.skip(0) =~= s@);
    }
    while i < s.len()
        invariant
            i <= s@.len(),
            desescapa(s@) == r@ + desescapa(s@.skip(i as int)),
        decreases s@.len() - i,
    {
        let ghost resto = s@.skip(i as int);
        if s.len() - i > 2 && s[i] == BARRA && s[i + 1] == HIFEN && s[i + 2] == HIFEN {
            assert(comeca_escapado(resto));
            assert(resto.skip(3) =~= s@.skip(i + 3));
            r.push(HIFEN);
            r.push(HIFEN);
            i = i + 3;
        } else {
            assert(!comeca_escapado(resto));
            assert(resto.skip(1) =~= s@.skip(i + 1));
            r.push(s[i]);
            i = i + 1;
        }
        assert(desescapa(s@) =~= r@ + desescapa(s@.skip(i as int)));
    }
    assert(s@.skip(i as int) =~= Seq::<u8>::empty());
    assert(r@ =~= desescapa(s@));
    r
}


/// The raw pieces of `s` between its separators `--`, escapes kept.
pub fn corta(s: &[u8]) -> (r: Vec<Vec<u8>>)
    ensures
        vistas(r@) == cortes(s@),
{
    let mut feitos: Vec<Vec<u8>> = Vec::new();
    let mut atual: Vec<u8> = Vec::new();
    let mut i: usize = 0;
    proof {
        assert(s@.skip(0) =~= s@);
        lemma_cortes_nao_vazios(s@);
        assert(junta(atual@, cortes(s@)) =~= cortes(s@));
        assert(vistas(feitos@) =~= Seq::<Seq<u8>>::empty());
    }
    while i < s.len()
        invariant
            i <= s@.len(),
            cortes(s@) == vistas(feitos@) + junta(atual@, cortes(s@.skip(i as int))),
        decreases s@.len() - i,
    {
        let ghost resto = s@.skip(i as int);
        let ghost velho = atual@;
        if s.len() - i > 2 && s[i] == BARRA && s[i + 1] == HIFEN && s[i + 2] == HIFEN {
            assert(comeca_escapado(resto));
            assert(resto.skip(3) =~= s@.skip(i + 3));
            assert(resto.take(3) =~= seq![BARRA, HIFEN, HIFEN]);
            let ghost cauda = cortes(s@.skip(i + 3));
            proof {
                lemma_cortes_nao_vazios(s@.skip(i + 3));
            }
            atual.push(BARRA);
            atual.push(HIFEN);
            atual.push(HIFEN);
            i = i + 3;
            assert(velho + (seq![BARRA, HIFEN, HIFEN] + cauda[0]) =~= atual@ + cauda[0]);
            assert(junta(velho, cortes(resto)) =~= junta(atual@, cortes(s@.skip(i as int))));
        } else if i + 1 < s.len() && s[i] == HIFEN && s[i + 1] == HIFEN {
            assert(!comeca_escapado(resto));
            assert(separador_em(resto, 0));
            assert(resto.skip(2) =~= s@.skip(i + 2));
            let ghost cauda = cortes(s@.skip(i + 2));
            proof {
                lemma_cortes_nao_vazios(s@.skip(i + 2));
            }
            let ghost antes = feitos@;
            let mut pronto: Vec<u8> = Vec::new();
            std::mem::swap(&mut pronto, &mut atual);
            feitos.push(pronto);
            i = i + 2;
            assert(junta(velho, cortes(resto)) =~= seq![velho] + cauda);
            assert(junta(atual@, cauda) =~= cauda);
            assert(vistas(feitos@) =~= vistas(antes).push(velho));
        } else {
            assert(!comeca_escapado(resto));
            assert(!separador_em(resto, 0));
            assert(resto.skip(1) =~= s@.skip(i + 1));
            let ghost cauda = cortes(s@.skip(i + 1));
            proof {
                lemma_cortes_nao_vazios(s@.skip(i + 1));
            }
            assert(resto[0] == s@[i as int]);
            atual.push(s[i]);
            i = i + 1;
            assert(velho + (seq![s@[i - 1]] + cauda[0]) =~= atual@ + cauda[0]);
            assert(junta(velho, cortes(resto)) =~= junta(atual@, cortes(s@.skip(i as int))));
        }
    }
    assert(s@.skip(i as int) =~= Seq::<u8>::empty());
    feitos.push(atual);
    assert(vistas(feitos@) =~= cortes(s@));
    feitos
}

/// The pieces of `s`: cut at its separators `--`, each then unescaped.
pub fn divide_pecas(s: &[u8]) -> (r: Vec<Vec<u8>>)
    ensures
        vistas(r@) == pecas(s@),
{
    let cru = corta(s);
    let mut r: Vec<Vec<u8>> = Vec::new();
    let mut i: usize = 0;
    while i < cru.len()
        invariant
            i <= cru@.len(),
            vistas(cru@) == cortes(s@),
            r@.len() == i,
            forall|j: int| 0 <= j < i ==> #[trigger] r@[j]@ == desescapa(cru@[j]@),
        decreases cru@.len() - i,
    {
        r.push(desescapa_bytes(cru[i].as_slice()));
        i = i + 1;
    }
    assert(vistas(r@) =~= pecas(s@)) by {
        assert forall|j: int| 0 <= j < r@.len() implies #[trigger] vistas(r@)[j] == pecas(s@)[j] by {
            assert(vistas(cru@)[j] == cru@[j]@);
        }
    }
    r
}

/// The pieces of `s` between separators `--`.
pub fn divide(s: &[u8]) -> (r: Vec<Vec<u8>>)
    ensures
        vistas(r@) == partes(s@),
{
    let mut feitos: Vec<Vec<u8>> = Vec::new();
    let mut atual: Vec<u8> = Vec::new();
    let mut i: usize = 0;
    proof {
        assert(s@.skip(0) =~= s@);
        lemma_partes_nao_vazias(s@);
        assert(junta(atual@, partes(s@)) =~= partes(s@));
        assert(vistas(feitos@) =~= Seq::<Seq<u8>>::empty());
    }
    while i < s.len()
        invariant
            i <= s@.len(),
            partes(s@) == vistas(feitos@) + junta(atual@, partes(s@.skip(i as int))),
        decreases s@.len() - i,
    {
        let ghost resto = s@.skip(i as int);
        proof {
            lemma_partes_nao_vazias(resto);
        }
        if i + 1 < s.len() && s[i] == HIFEN && s[i + 1] == HIFEN {
            assert(separador_em(resto, 0));
            assert(resto.skip(2) =~= s@.skip(i + 2));
            let ghost velho = atual@;
            let ghost cauda = partes(s@.skip(i + 2));
            proof {
                lemma_partes_nao_vazias(s@.skip(i + 2));
            }
            let ghost antes = feitos@;
            let mut pronto: Vec<u8> = Vec::new();
            std::mem::swap(&mut pronto, &mut atual);
            feitos.push(pronto);
            i = i + 2;
            assert(junta(velho, partes(resto)) =~= seq![velho] + cauda);
            assert(junta(atual@, cauda) =~= cauda);
            assert(vistas(feitos@) =~= vistas(antes).push(velho));
        } else {
            assert(!separador_em(resto, 0));
            assert(resto.skip(1) =~= s@.skip(i + 1));
            let ghost velho = atual@;
            proof {
                lemma_partes_nao_vazias(s@.skip(i + 1));
            }
            let ghost cauda = partes(s@.skip(i + 1));
            assert(resto[0] == s@[i as int]);
            assert(partes(resto) == junta(seq![s@[i as int]], cauda));
            atual.push(s[i]);
            i = i + 1;
            assert(velho + (seq![s@[i - 1]] + cauda[0]) =~= atual@ + cauda[0]);
            assert(junta(velho, partes(resto)) =~= junta(atual@, partes(s@.skip(i as int))));
        }
    }
    assert(s@.skip(i as int) =~= Seq::<u8>::empty());
    feitos.push(atual);
    assert(vistas(feitos@) =~= partes(s@));
    feitos
}

} // verus!
