//! What the client library sends to the ring: the nodes to start, the
//! requests to close them, store a value or look a key up, and how it reads
//! a node's answer.

use vstd::prelude::*;
use crate::anel::{no_da_chave, pot2, potencia2, lemma_pot2_positiva, lemma_pot2_cresce};
use crate::decimal::decimal;
use crate::no::{
    entrega, lemma_entrega, bytes_de, ordem, ordem_para, porta_do_no, mensagem_retorno, texto_fecha,
    texto_insere, texto_consulta, separador, txt_consulta, txt_fecha, txt_insere, txt_sep, DestinoV,
    Envio, EnvioV, Destino, Ordem, Tipo,
};
use crate::texto::{
    anexa, copia, desescapa, desescapa_bytes, divide, partes, escapa, escapa_bytes, peca_interna,
    fim_seguro, lemma_duas_pecas, lemma_pecas_tres, lemma_escapa_sem_separador, lemma_desescapa_interna,
    lemma_desescapa_separador, HIFEN,
};

verus! {

/// A node to start: its number, the port on which it listens, and the
/// exponent `p` of its ring of `2^p` nodes.
#[derive(Clone, Copy, Debug, PartialEq, Eq)]
pub struct Instancia {
    pub no: i32,
    pub porta: i32,
    pub power2_nodes: i32,
}

/// The least `q` from `desde` up to 30 with `n <= 2^q`, and 30 where none is.
pub open spec fn expoente_desde(n: int, desde: nat) -> nat
    decreases 30 - desde,
{
    if desde >= 30 || n <= pot2(desde) {
        desde
    } else {
        expoente_desde(n, desde + 1)
    }
}

/// The exponent of the ring that holds `n` nodes: the least `p` with
/// `n <= 2^p`, so `2^p == n` where `n` is a power of two; `p` is at most 30.
pub open spec fn expoente_do_anel(n: int) -> nat {
    expoente_desde(n, 0)
}

/// The exponent of the ring that holds `n` nodes.
pub fn expoente_para(n: i32) -> (p: i32)
    ensures
        p == expoente_do_anel(n as int),
        0 <= p <= 30,
{
    let mut q: i32 = 0;
    while q < 30 && potencia2(q) < n
        invariant
            0 <= q <= 30,
            expoente_desde(n as int, q as nat) == expoente_do_anel(n as int),
        decreases 30 - q,
    {
        q = q + 1;
    }
    q
}

/// The nodes that `inicia(n)` starts: node `i` on port `7000 + i`, for `i`
/// from 0 below `n`, each told the exponent of the ring of `n` nodes.
pub fn inicia(n: i32) -> (r: Vec<Instancia>)
    requires
        n <= i32::MAX - 6999,
    ensures
        r@.len() == (if n > 0 { n as int } else { 0 }),
        forall|i: int|
            0 <= i < r@.len() ==> #[trigger] r@[i].no == i && r@[i].porta == porta_do_no(i)
                && r@[i].power2_nodes == expoente_do_anel(n as int),
{
    let porta: i32 = 7000;
    let no: i32 = 0;
    let power2_nodes = expoente_para(n);
    let mut r: Vec<Instancia> = Vec::new();
    let mut i: i32 = 0;
    while i < n
        invariant
            0 <= i,
            n > 0 ==> i <= n,
            n <= 0 ==> i == 0,
            n <= i32::MAX - 6999,
            porta == 7000,
            no == 0,
            power2_nodes == expoente_do_anel(n as int),
            r@.len() == i,
            forall|j: int|
                0 <= j < i ==> #[trigger] r@[j].no == j && r@[j].porta == porta_do_no(j)
                    && r@[j].power2_nodes == expoente_do_anel(n as int),
        decreases n - i,
    {
        r.push(Instancia { no: no + i, porta: porta + i, power2_nodes });
        i = i + 1;
    }
    r
}

/// The requests of `fecha(n)`: `fecha` to the port of each node `i` from 0
/// below `n`, in order.
pub fn fecha(n: i32) -> (r: Vec<Envio>)
    requires
        n <= i32::MAX - 6999,
    ensures
        r@.len() == (if n > 0 { n as int } else { 0 }),
        forall|i: int| 0 <= i < r@.len() ==> #[trigger] r@[i]@ == (EnvioV {
            destino: DestinoV::Porta(porta_do_no(i)),
            mensagem: txt_fecha(),
        }),
{
    let porta: i32 = 7000;
    let mut r: Vec<Envio> = Vec::new();
    let mut i: i32 = 0;
    while i < n
        invariant
            0 <= i,
            n > 0 ==> i <= n,
            n <= 0 ==> i == 0,
            n <= i32::MAX - 6999,
            porta == 7000,
            r@.len() == i,
            forall|j: int| 0 <= j < i ==> #[trigger] r@[j]@ == (EnvioV {
                destino: DestinoV::Porta(porta_do_no(j)),
                mensagem: txt_fecha(),
            }),
        decreases n - i,
    {
        r.push(Envio { destino: Destino::Porta(porta + i), mensagem: texto_fecha() });
        i = i + 1;
    }
    r
}

/// The request `insere--chave--valor`, with each `--` of the key and of the
/// value escaped as `\--`.
pub open spec fn mensagem_insere(chave: Seq<u8>, valor: Seq<u8>) -> Seq<u8> {
    txt_insere() + escapa(chave) + txt_sep() + escapa(valor)
}

/// The request `consulta--chave--endereco`, with each `--` of the key and of
/// the address escaped as `\--`.
pub open spec fn mensagem_consulta(chave: Seq<u8>, endereco: Seq<u8>) -> Seq<u8> {
    txt_consulta() + escapa(chave) + txt_sep() + escapa(endereco)
}

/// The request that stores `valor` under `chave`, sent to the port of node
/// `no_inicial`.
pub fn insere(no_inicial: i32, chave: &String, valor: &String) -> (e: Envio)
    requires
        no_inicial <= i32::MAX - 7000,
    ensures
        e@ == (EnvioV {
            destino: DestinoV::Porta(porta_do_no(no_inicial as int)),
            mensagem: mensagem_insere(bytes_de(chave@), bytes_de(valor@)),
        }),
{
    let porta = 7000 + no_inicial;
    let mut mensagem = texto_insere();
    anexa(&mut mensagem, escapa_bytes(chave.as_str().as_bytes()).as_slice());
    anexa(&mut mensagem, separador().as_slice());
    anexa(&mut mensagem, escapa_bytes(valor.as_str().as_bytes()).as_slice());
    Envio { destino: Destino::Porta(porta), mensagem }
}

/// The request that looks `chave` up for the client listening at
/// `endereco`, sent to the port of node `no_inicial`; the identifier `_id`
/// goes nowhere.
pub fn consulta(_id: i32, no_inicial: i32, chave: &String, endereco: &String) -> (e: Envio)
    requires
        no_inicial <= i32::MAX - 7000,
    ensures
        e@ == (EnvioV {
            destino: DestinoV::Porta(porta_do_no(no_inicial as int)),
            mensagem: mensagem_consulta(bytes_de(chave@), bytes_de(endereco@)),
        }),
{
    let porta = 7000 + no_inicial;
    let mut mensagem = texto_consulta();
    anexa(&mut mensagem, escapa_bytes(chave.as_str().as_bytes()).as_slice());
    anexa(&mut mensagem, separador().as_slice());
    anexa(&mut mensagem, escapa_bytes(endereco.as_str().as_bytes()).as_slice());
    Envio { destino: Destino::Porta(porta), mensagem }
}

/// The port on which a client waits for its answer: the one the system
/// offered, else `15123 + no` cut to 16 bits.
pub fn porta_de_retorno(oferecida: Option<u16>, no: i32) -> (r: u16)
    requires
        no <= i32::MAX - 15123,
    ensures
        r == (match oferecida {
            Some(p) => p,
            None => (15123 + no) as u16,
        }),
{
    let reserva = (15123 + no) as u16;
    match oferecida {
        Some(p) => p,
        None => reserva,
    }
}

/// The value and the node number that a node's answer carries: its first
/// two pieces once unescaped (`\--` to `--`) and cut at each `--`; `None`
/// for an answer of a single piece.
pub open spec fn retorno_lido(resposta: Seq<u8>) -> Option<(Seq<u8>, Seq<u8>)> {
    let v = partes(desescapa(resposta));
    if v.len() >= 2 {
        Some((v[0], v[1]))
    } else {
        None
    }
}

/// Reads a node's answer: the value and the text of the node that holds it.
pub fn le_retorno(resposta: &String) -> (r: Option<(Vec<u8>, Vec<u8>)>)
    ensures
        r is Some <==> retorno_lido(bytes_de(resposta@)) is Some,
        r matches Some((valor, no)) ==> retorno_lido(bytes_de(resposta@)) == Some((valor@, no@)),
{
    let m = desescapa_bytes(resposta.as_str().as_bytes());
    let v = divide(m.as_slice());
    if v.len() < 2 {
        return None;
    }
    Some((copia(v[0].as_slice()), copia(v[1].as_slice())))
}

proof fn lemma_palavra_interna(s: Seq<u8>)
    requires
        forall|i: int| 0 <= i < s.len() ==> s[i] != HIFEN && s[i] != crate::texto::BARRA,
    ensures
        peca_interna(s),
        escapa(s) == s,
{
    assert forall|i: int| !#[trigger] crate::texto::separador_em(s, i) by {
        if 0 <= i < s.len() {
            assert(s[i] != HIFEN);
        }
    }
    lemma_escapa_sem_separador(s);
}

/// A client's request to store `valor` under `chave` is understood by the
/// node that receives it as sent, `--` inside the key or the value
/// included: stored there if that node owns the key, else passed on towards
/// the owner, in a ring of `2^p` nodes with `p` at most 30. This holds for a
/// key that ends neither with `-` nor with `\\`.
pub proof fn lemma_pedido_insere(chave: Seq<u8>, valor: Seq<u8>, no: int, p: nat)
    requires
        p <= 30,
        fim_seguro(chave),
    ensures
        ordem(mensagem_insere(chave, valor), no, p as int) == ordem_para(
            no_da_chave(chave, p),
            no,
            Tipo::InsereNo,
            chave,
            valor,
        ),
{
    let palavra = seq![105u8, 110, 115, 101, 114, 101];
    lemma_palavra_interna(palavra);
    let sep = txt_sep();
    let x = escapa(chave) + sep + escapa(valor);
    let m = mensagem_insere(chave, valor);
    assert(m =~= escapa(palavra) + sep + escapa(chave) + sep + escapa(valor));
    lemma_pecas_tres(palavra, chave, valor);
    assert(m =~= palavra + (sep + x));
    lemma_desescapa_interna(palavra, sep + x);
    lemma_desescapa_separador(x);
    assert(desescapa(m).take(8) =~= txt_insere());
}

/// A client's request to look `chave` up for `endereco` is understood by
/// the node that receives it as sent, `--` inside the key or the address
/// included: looked up there if that node owns the key, else passed on
/// towards the owner. This holds for a key that ends neither with `-` nor
/// with `\\`.
pub proof fn lemma_pedido_consulta(chave: Seq<u8>, endereco: Seq<u8>, no: int, p: nat)
    requires
        p <= 30,
        fim_seguro(chave),
    ensures
        ordem(mensagem_consulta(chave, endereco), no, p as int) == ordem_para(
            no_da_chave(chave, p),
            no,
            Tipo::ConsultaNo,
            chave,
            endereco,
        ),
{
    let palavra = seq![99u8, 111, 110, 115, 117, 108, 116, 97];
    lemma_palavra_interna(palavra);
    let sep = txt_sep();
    let x = escapa(chave) + sep + escapa(endereco);
    let m = mensagem_consulta(chave, endereco);
    assert(m =~= escapa(palavra) + sep + escapa(chave) + sep + escapa(endereco));
    lemma_pecas_tres(palavra, chave, endereco);
    assert(m =~= palavra + (sep + x));
    lemma_desescapa_interna(palavra, sep + x);
    lemma_desescapa_separador(x);
    let m2 = desescapa(m);
    assert(m2.take(8)[0] != txt_insere()[0]);
    assert(m2.take(9)[0] != crate::no::txt_insere_no()[0]);
    assert(m2.take(10) =~= txt_consulta());
}

/// A value that a client stores through any node of a ring of `2^p` nodes
/// (`p` at most 30) is stored, after at most `p` hops, at the node that owns
/// its key; this holds for a key and a value that end neither with `-` nor
/// with `\\`.
pub proof fn lemma_insercao_chega_ao_dono(chave: Seq<u8>, valor: Seq<u8>, inicial: int, p: nat)
    requires
        p <= 30,
        0 <= inicial < pot2(p),
        fim_seguro(chave),
        fim_seguro(valor),
    ensures
        entrega(mensagem_insere(chave, valor), inicial, p, p) == (
            no_da_chave(chave, p),
            Ordem::Coloca { chave, valor },
        ),
{
    lemma_pot2_positiva(p);
    lemma_pedido_insere(chave, valor, inicial, p);
    lemma_entrega(mensagem_insere(chave, valor), inicial, no_da_chave(chave, p), p, Tipo::InsereNo, chave, valor);
}

/// A consult that a client sends to any node of a ring of `2^p` nodes (`p`
/// at most 30) is looked up, after at most `p` hops, at the node that owns
/// its key, which answers to the client's address; this holds for a key
/// that ends neither with `-` nor with `\\`.
pub proof fn lemma_consulta_chega_ao_dono(chave: Seq<u8>, endereco: Seq<u8>, inicial: int, p: nat)
    requires
        p <= 30,
        0 <= inicial < pot2(p),
        fim_seguro(chave),
    ensures
        entrega(mensagem_consulta(chave, endereco), inicial, p, p) == (
            no_da_chave(chave, p),
            Ordem::Procura { chave, endereco },
        ),
{
    lemma_pot2_positiva(p);
    lemma_pedido_consulta(chave, endereco, inicial, p);
    lemma_entrega(
        mensagem_consulta(chave, endereco),
        inicial,
        no_da_chave(chave, p),
        p,
        Tipo::ConsultaNo,
        chave,
        endereco,
    );
}

/// The client reads from a node's answer the value and the number of the
/// node that sent it, for a value with no `--` that ends neither with `-`
/// nor with `\\`.
pub proof fn lemma_retorno_lido(valor: Seq<u8>, no: i32)
    requires
        peca_interna(valor),
    ensures
        retorno_lido(mensagem_retorno(valor, no as int)) == Some((valor, decimal(no as int))),
{
    let d = decimal(no as int);
    crate::decimal::lemma_decimal_sem_separador(no as int);
    lemma_duas_pecas(valor, d);
    assert(mensagem_retorno(valor, no as int) =~= valor + seq![HIFEN, HIFEN] + d);
}

proof fn lemma_expoente_desde(n: int, q: nat)
    requires
        q <= 30,
        q == 0 || pot2((q - 1) as nat) < n,
    ensures
        q <= expoente_desde(n, q) <= 30,
        expoente_desde(n, q) == 30 || n <= pot2(expoente_desde(n, q)),
        expoente_desde(n, q) == 0 || pot2((expoente_desde(n, q) - 1) as nat) < n,
    decreases 30 - q,
{
    if !(q >= 30 || n <= pot2(q)) {
        lemma_expoente_desde(n, q + 1);
    }
}

/// The ring that holds `n` nodes is the smallest that does: its `2^p` nodes
/// number at least `n`, half as many would not, and `p` is at most 30; one
/// node or none needs `p == 0`, and more than `2^30` nodes get `p == 30`.
pub proof fn lemma_expoente_do_anel(n: int)
    ensures
        expoente_do_anel(n) <= 30,
        n <= pot2(30) ==> n <= pot2(expoente_do_anel(n)),
        expoente_do_anel(n) > 0 ==> pot2((expoente_do_anel(n) - 1) as nat) < n,
        n <= 1 ==> expoente_do_anel(n) == 0,
        n > pot2(30) ==> expoente_do_anel(n) == 30,
{
    lemma_expoente_desde(n, 0);
    let e = expoente_do_anel(n);
    if e > 0 {
        lemma_pot2_positiva((e - 1) as nat);
    }
    if e < 30 && n > pot2(30) {
        lemma_pot2_cresce(e, 30);
    }
}

} // verus!
