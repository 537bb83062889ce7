//! What a node of the ring does with a message: store a value, answer a
//! consult, pass the request on towards the node that owns the key, close, or
//! refuse the message.

use vstd::prelude::*;
use crate::anel::{potencia2, distancia, lemma_passo_aproxima, calcula_bytes, cabe_no_anel, no_da_chave, pot2, proximo, proximo_no, lemma_pot2_cresce, lemma_pot2_positiva};
use crate::decimal::{decimal, escreve_inteiro, le_i32, le_inteiro, lemma_decimal_sem_separador, lemma_le_escreve};
use crate::tabela::{avisados, EstadoTabela, Tabela, lemma_consulta_espera, lemma_le_o_que_escreveu};
use crate::texto::{
    peca_interna,
    anexa, comeca, comeca_com, copia, desescapa, desescapa_bytes, divide_pecas, pecas, vistas, HIFEN,
    escapa, escapa_bytes, fim_seguro, lemma_pecas_curtas, lemma_pecas_quatro,
    lemma_escapa_sem_separador, lemma_desescapa_interna,
};

verus! {

/// The text `insere--`.
pub open spec fn txt_insere() -> Seq<u8> {
    seq![105u8, 110, 115, 101, 114, 101, 45, 45]
}

/// The text `insere_no`.
pub open spec fn txt_insere_no() -> Seq<u8> {
    seq![105u8, 110, 115, 101, 114, 101, 95, 110, 111]
}

/// The text `consulta--`.
pub open spec fn txt_consulta() -> Seq<u8> {
    seq![99u8, 111, 110, 115, 117, 108, 116, 97, 45, 45]
}

/// The text `consulta_no`.
pub open spec fn txt_consulta_no() -> Seq<u8> {
    seq![99u8, 111, 110, 115, 117, 108, 116, 97, 95, 110, 111]
}

/// The text `fecha`.
pub open spec fn txt_fecha() -> Seq<u8> {
    seq![102u8, 101, 99, 104, 97]
}

/// The separator `--`.
pub open spec fn txt_sep() -> Seq<u8> {
    seq![HIFEN, HIFEN]
}

pub fn texto_insere() -> (r: Vec<u8>)
    ensures
        r@ == txt_insere(),
{
    let r = vec![105u8, 110, 115, 101, 114, 101, 45, 45];
    assert(r@ =~= txt_insere());
    r
}

fn texto_insere_no() -> (r: Vec<u8>)
    ensures
        r@ == txt_insere_no(),
{
    let r = vec![105u8, 110, 115, 101, 114, 101, 95, 110, 111];
    assert(r@ =~= txt_insere_no());
    r
}

pub fn texto_consulta() -> (r: Vec<u8>)
    ensures
        r@ == txt_consulta(),
{
    let r = vec![99u8, 111, 110, 115, 117, 108, 116, 97, 45, 45];
    assert(r@ =~= txt_consulta());
    r
}

fn texto_consulta_no() -> (r: Vec<u8>)
    ensures
        r@ == txt_consulta_no(),
{
    let r = vec![99u8, 111, 110, 115, 117, 108, 116, 97, 95, 110, 111];
    assert(r@ =~= txt_consulta_no());
    r
}

pub fn texto_fecha() -> (r: Vec<u8>)
    ensures
        r@ == txt_fecha(),
{
    let r = vec![102u8, 101, 99, 104, 97];
    assert(r@ =~= txt_fecha());
    r
}

/// The kind of a request that travels between nodes.
#[derive(Clone, Copy, Debug, PartialEq, Eq, Structural)]
pub enum Tipo {
    /// Store a value (`insere_no`).
    InsereNo,
    /// Look a key up (`consulta_no`).
    ConsultaNo,
}

impl Tipo {
    /// The name that a forwarded request carries first.
    pub open spec fn nome(self) -> Seq<u8> {
        match self {
            Tipo::InsereNo => txt_insere_no(),
            Tipo::ConsultaNo => txt_consulta_no(),
        }
    }
}

/// Why a node refuses a message.
#[derive(Clone, Copy, Debug, PartialEq, Eq, Structural)]
pub enum Motivo {
    /// `insere--` without exactly three pieces.
    InsercaoInvalida,
    /// `insere_no` without exactly four pieces.
    InsercaoNoInvalida,
    /// `consulta--` without exactly three pieces.
    ConsultaInvalida,
    /// `consulta_no` without exactly four pieces.
    ConsultaNoInvalida,
    /// A forwarded request whose destination is no `i32`.
    NoInvalido,
    /// A message of no known kind.
    Desconhecida,
    /// A request that needs the ring's arithmetic, where the exponent of the
    /// ring is not from 0 to 30, or a hop from this node leaves `i32`.
    AnelInvalido,
}

/// What a message asks of a node, as values.
pub enum Ordem {
    Coloca { chave: Seq<u8>, valor: Seq<u8> },
    Procura { chave: Seq<u8>, endereco: Seq<u8> },
    Roteia { destino: int, tipo: Tipo, chave: Seq<u8>, dado: Seq<u8> },
    Fecha,
    Invalida(Motivo),
}

/// What a message asks of a node.
#[derive(Debug, PartialEq, Eq)]
pub enum Comando {
    /// Store `valor` under `chave` here.
    Coloca { chave: Vec<u8>, valor: Vec<u8> },
    /// Look `chave` up here, answering to `endereco`.
    Procura { chave: Vec<u8>, endereco: Vec<u8> },
    /// Pass a request on towards the node `destino`.
    Roteia { destino: i32, tipo: Tipo, chave: Vec<u8>, dado: Vec<u8> },
    /// Shut the node down.
    Fecha,
    /// Refuse the message.
    Invalida(Motivo),
}

impl View for Comando {
    type V = Ordem;

    open spec fn view(&self) -> Ordem {
        match self {
            Comando::Coloca { chave, valor } => Ordem::Coloca { chave: chave@, valor: valor@ },
            Comando::Procura { chave, endereco } => Ordem::Procura {
                chave: chave@,
                endereco: endereco@,
            },
            Comando::Roteia { destino, tipo, chave, dado } => Ordem::Roteia {
                destino: *destino as int,
                tipo: *tipo,
                chave: chave@,
                dado: dado@,
            },
            Comando::Fecha => Ordem::Fecha,
            Comando::Invalida(m) => Ordem::Invalida(*m),
        }
    }
}

/// What a request of kind `tipo` for the node `destino` asks of node `no`:
/// to be served there if it is its destination, else to be passed on.
pub open spec fn ordem_para(destino: int, no: int, tipo: Tipo, chave: Seq<u8>, dado: Seq<u8>) -> Ordem {
    if destino == no {
        match tipo {
            Tipo::InsereNo => Ordem::Coloca { chave, valor: dado },
            Tipo::ConsultaNo => Ordem::Procura { chave, endereco: dado },
        }
    } else {
        Ordem::Roteia { destino, tipo, chave, dado }
    }
}

/// What the message `mensagem` asks of node `no` in a ring of `2^p` nodes.
/// The message is cut at each separator `--` that is not escaped as `\--`,
/// and each piece is then unescaped (`\--` to `--`), so that a key, value or
/// address keeps its own `--`:
/// - `insere--chave--valor`: store at the node that owns `chave`;
/// - `insere_no--chave--valor--destino`: store at node `destino`;
/// - `consulta--chave--endereco`: look up at the node that owns `chave`;
/// - `consulta_no--chave--destino--endereco`: look up at node `destino`;
/// - `fecha`: shut down;
/// the kind is told by how the unescaped message begins, and a message with
/// the wrong number of pieces, a destination that is no `i32`, or no known
/// beginning is refused; so is a request whose owner is to be computed in a
/// ring whose exponent `p` is not from 0 to 30.
pub open spec fn ordem(mensagem: Seq<u8>, no: int, p: int) -> Ordem {
    let m = desescapa(mensagem);
    let v = pecas(mensagem);
    if comeca_com(m, txt_insere()) {
        if v.len() != 3 {
            Ordem::Invalida(Motivo::InsercaoInvalida)
        } else if !(0 <= p <= 30) {
            Ordem::Invalida(Motivo::AnelInvalido)
        } else {
            ordem_para(no_da_chave(v[1], p as nat), no, Tipo::InsereNo, v[1], v[2])
        }
    } else if comeca_com(m, txt_insere_no()) {
        if v.len() != 4 {
            Ordem::Invalida(Motivo::InsercaoNoInvalida)
        } else {
            match le_i32(v[3]) {
                Some(d) => ordem_para(d, no, Tipo::InsereNo, v[1], v[2]),
                None => Ordem::Invalida(Motivo::NoInvalido),
            }
        }
    } else if comeca_com(m, txt_consulta()) {
        if v.len() != 3 {
            Ordem::Invalida(Motivo::ConsultaInvalida)
        } else if !(0 <= p <= 30) {
            Ordem::Invalida(Motivo::AnelInvalido)
        } else {
            ordem_para(no_da_chave(v[1], p as nat), no, Tipo::ConsultaNo, v[1], v[2])
        }
    } else if comeca_com(m, txt_consulta_no()) {
        if v.len() != 4 {
            Ordem::Invalida(Motivo::ConsultaNoInvalida)
        } else {
            match le_i32(v[2]) {
                Some(d) => ordem_para(d, no, Tipo::ConsultaNo, v[1], v[3]),
                None => Ordem::Invalida(Motivo::NoInvalido),
            }
        }
    } else if comeca_com(m, txt_fecha()) {
        Ordem::Fecha
    } else {
        Ordem::Invalida(Motivo::Desconhecida)
    }
}

fn decide(destino: i32, no: i32, tipo: Tipo, chave: Vec<u8>, dado: Vec<u8>) -> (c: Comando)
    ensures
        c@ == ordem_para(destino as int, no as int, tipo, chave@, dado@),
{
    if destino == no {
        match tipo {
            Tipo::InsereNo => Comando::Coloca { chave, valor: dado },
            Tipo::ConsultaNo => Comando::Procura { chave, endereco: dado },
        }
    } else {
        Comando::Roteia { destino, tipo, chave, dado }
    }
}

/// What the message `mensagem` (its bytes) asks of node `no` in a ring of
/// `2^power2_nodes` nodes.
pub fn interpreta(mensagem: &[u8], no: i32, power2_nodes: i32) -> (c: Comando)
    requires
        mensagem@.len() * 255 <= i32::MAX,
    ensures
        c@ == ordem(mensagem@, no as int, power2_nodes as int),
{
    let m = desescapa_bytes(mensagem);
    let v = divide_pecas(mensagem);
    proof {
        lemma_pecas_curtas(mensagem@);
    }
    let ghost pv = pecas(mensagem@);
    if comeca(m.as_slice(), texto_insere().as_slice()) {
        if v.len() != 3 {
            return Comando::Invalida(Motivo::InsercaoInvalida);
        }
        if power2_nodes < 0 || power2_nodes > 30 {
            return Comando::Invalida(Motivo::AnelInvalido);
        }
        assert(pv[1].len() <= mensagem@.len());
        proof {
            crate::anel::lemma_soma_limitada(pv[1]);
        }
        let chave = copia(v[1].as_slice());
        let valor = copia(v[2].as_slice());
        let alvo = calcula_bytes(chave.as_slice(), power2_nodes);
        decide(alvo, no, Tipo::InsereNo, chave, valor)
    } else if comeca(m.as_slice(), texto_insere_no().as_slice()) {
        if v.len() != 4 {
            return Comando::Invalida(Motivo::InsercaoNoInvalida);
        }
        match le_inteiro(v[3].as_slice()) {
            Some(d) => decide(d, no, Tipo::InsereNo, copia(v[1].as_slice()), copia(v[2].as_slice())),
            None => Comando::Invalida(Motivo::NoInvalido),
        }
    } else if comeca(m.as_slice(), texto_consulta().as_slice()) {
        if v.len() != 3 {
            return Comando::Invalida(Motivo::ConsultaInvalida);
        }
        if power2_nodes < 0 || power2_nodes > 30 {
            return Comando::Invalida(Motivo::AnelInvalido);
        }
        assert(pv[1].len() <= mensagem@.len());
        proof {
            crate::anel::lemma_soma_limitada(pv[1]);
        }
        let chave = copia(v[1].as_slice());
        let endereco = copia(v[2].as_slice());
        let alvo = calcula_bytes(chave.as_slice(), power2_nodes);
        decide(alvo, no, Tipo::ConsultaNo, chave, endereco)
    } else if comeca(m.as_slice(), texto_consulta_no().as_slice()) {
        if v.len() != 4 {
            return Comando::Invalida(Motivo::ConsultaNoInvalida);
        }
        match le_inteiro(v[2].as_slice()) {
            Some(d) => decide(d, no, Tipo::ConsultaNo, copia(v[1].as_slice()), copia(v[3].as_slice())),
            None => Comando::Invalida(Motivo::NoInvalido),
        }
    } else if comeca(m.as_slice(), texto_fecha().as_slice()) {
        Comando::Fecha
    } else {
        Comando::Invalida(Motivo::Desconhecida)
    }
}

pub fn separador() -> (r: Vec<u8>)
    ensures
        r@ == txt_sep(),
{
    let r = vec![HIFEN, HIFEN];
    assert(r@ =~= txt_sep());
    r
}

fn nome_do_tipo(tipo: Tipo) -> (r: Vec<u8>)
    ensures
        r@ == tipo.nome(),
{
    match tipo {
        Tipo::InsereNo => texto_insere_no(),
        Tipo::ConsultaNo => texto_consulta_no(),
    }
}

/// Where a message goes, as values.
pub enum DestinoV {
    Porta(int),
    Endereco(Seq<u8>),
}

/// Where a message goes: to the node that listens on a port of this host,
/// or to an address that a client gave.
#[derive(Debug, PartialEq, Eq)]
pub enum Destino {
    Porta(i32),
    Endereco(Vec<u8>),
}

impl View for Destino {
    type V = DestinoV;

    open spec fn view(&self) -> DestinoV {
        match self {
            Destino::Porta(p) => DestinoV::Porta(*p as int),
            Destino::Endereco(e) => DestinoV::Endereco(e@),
        }
    }
}

/// A message to send, as values.
pub struct EnvioV {
    pub destino: DestinoV,
    pub mensagem: Seq<u8>,
}

/// A message to send, and where.
#[derive(Debug, PartialEq, Eq)]
pub struct Envio {
    pub destino: Destino,
    pub mensagem: Vec<u8>,
}

impl View for Envio {
    type V = EnvioV;

    open spec fn view(&self) -> EnvioV {
        EnvioV { destino: self.destino@, mensagem: self.mensagem@ }
    }
}

/// The contents of each message of `v`.
pub open spec fn vistas_envios(v: Seq<Envio>) -> Seq<EnvioV> {
    Seq::new(v.len(), |i: int| v[i]@)
}

/// The port on which node `no` listens.
pub open spec fn porta_do_no(no: int) -> int {
    7000 + no
}

/// The request passed on between nodes: `insere_no--chave--valor--destino`
/// or `consulta_no--chave--destino--endereco`, with each `--` of the key and
/// of the data written `\--`, as in every request to a node: the node that
/// receives it cuts it only at separators that are not escaped, so that a
/// key or value holding `--` reaches its owner whole.
pub open spec fn mensagem_roteada(tipo: Tipo, chave: Seq<u8>, dado: Seq<u8>, destino: int) -> Seq<u8> {
    match tipo {
        Tipo::InsereNo => tipo.nome() + txt_sep() + escapa(chave) + txt_sep() + escapa(dado) + txt_sep()
            + decimal(destino),
        Tipo::ConsultaNo => tipo.nome() + txt_sep() + escapa(chave) + txt_sep() + decimal(destino)
            + txt_sep() + escapa(dado),
    }
}

/// The answer to a client: `valor--no`.
pub open spec fn mensagem_retorno(valor: Seq<u8>, no: int) -> Seq<u8> {
    valor + txt_sep() + decimal(no)
}

/// Node `no` passes a request of kind `tipo` for node `destino` on to the
/// next hop.
pub open spec fn envio_roteado(destino: int, no: int, p: nat, tipo: Tipo, chave: Seq<u8>, dado: Seq<u8>) -> EnvioV {
    EnvioV {
        destino: DestinoV::Porta(porta_do_no(proximo(destino, no, p))),
        mensagem: mensagem_roteada(tipo, chave, dado, destino),
    }
}

/// Node `no` answers `valor` to the client at `endereco`.
pub open spec fn retorno(endereco: Seq<u8>, valor: Seq<u8>, no: int) -> EnvioV {
    EnvioV { destino: DestinoV::Endereco(endereco), mensagem: mensagem_retorno(valor, no) }
}

/// Node `no` answers `valor` to each client of `enderecos`, in order.
pub open spec fn retornos(enderecos: Seq<Seq<u8>>, valor: Seq<u8>, no: int) -> Seq<EnvioV> {
    Seq::new(enderecos.len(), |i: int| retorno(enderecos[i], valor, no))
}

/// Passes a request of kind `tipo` for node `no_destino` from node
/// `no_atual` on to the next hop of a ring of `2^power2_nodes` nodes: the
/// request, written as `mensagem_roteada` says, goes to the port of that
/// node.
pub fn roteia(
    no_destino: i32,
    no_atual: &i32,
    power2_nodes: &i32,
    chave: &[u8],
    tipo: Tipo,
    valor_ou_endereco: &[u8],
) -> (e: Envio)
    requires
        0 <= *power2_nodes <= 30,
        cabe_no_anel(no_destino as int, *no_atual as int, *power2_nodes as nat),
    ensures
        e@ == envio_roteado(
            no_destino as int,
            *no_atual as int,
            *power2_nodes as nat,
            tipo,
            chave@,
            valor_ou_endereco@,
        ),
{
    let no_prox = proximo_no(no_destino, *no_atual, *power2_nodes);
    proof {
        lemma_pot2_cresce(*power2_nodes as nat, 30);
        crate::anel::lemma_pot2_trinta();
    }
    let mut mensagem = nome_do_tipo(tipo);
    anexa(&mut mensagem, separador().as_slice());
    anexa(&mut mensagem, escapa_bytes(chave).as_slice());
    anexa(&mut mensagem, separador().as_slice());
    match tipo {
        Tipo::InsereNo => {
            anexa(&mut mensagem, escapa_bytes(valor_ou_endereco).as_slice());
            anexa(&mut mensagem, separador().as_slice());
            anexa(&mut mensagem, escreve_inteiro(no_destino).as_slice());
        },
        Tipo::ConsultaNo => {
            anexa(&mut mensagem, escreve_inteiro(no_destino).as_slice());
            anexa(&mut mensagem, separador().as_slice());
            anexa(&mut mensagem, escapa_bytes(valor_ou_endereco).as_slice());
        },
    }
    Envio { destino: Destino::Porta(7000 + no_prox), mensagem }
}

/// The answer `valor--no_atual` of node `no_atual` to the client at
/// `endereco`.
pub fn callback(valor: &[u8], endereco: &[u8], no_atual: &i32) -> (e: Envio)
    ensures
        e@ == retorno(endereco@, valor@, *no_atual as int),
{
    let mut mensagem = copia(valor);
    anexa(&mut mensagem, separador().as_slice());
    anexa(&mut mensagem, escreve_inteiro(*no_atual).as_slice());
    Envio { destino: Destino::Endereco(copia(endereco)), mensagem }
}

/// Stores `valor` under `chave` in the node's table and answers `valor` to
/// every client whose consult waited for `chave`, in the order of their
/// consults.
pub fn coloca(tabela: &mut Tabela, chave: &[u8], valor: &[u8], no_atual: &i32) -> (envios: Vec<Envio>)
    requires
        old(tabela).bem_formada(),
    ensures
        final(tabela).bem_formada(),
        final(tabela)@ == old(tabela)@.apos_insercao(chave@, valor@),
        vistas_envios(envios@) == retornos(avisados(old(tabela)@.espera, chave@), valor@, *no_atual as int),
{
    let avisar = tabela.insere(copia(chave), copia(valor));
    let ghost alvos = vistas(avisar@);
    let mut envios: Vec<Envio> = Vec::new();
    let mut i: usize = 0;
    while i < avisar.len()
        invariant
            i <= avisar@.len(),
            alvos == vistas(avisar@),
            vistas_envios(envios@) == retornos(alvos.take(i as int), valor@, *no_atual as int),
        decreases avisar@.len() - i,
    {
        let ghost antes = envios@;
        envios.push(callback(valor, avisar[i].as_slice(), no_atual));
        i = i + 1;
        assert(vistas_envios(envios@) =~= retornos(alvos.take(i as int), valor@, *no_atual as int)) by {
            assert(vistas_envios(envios@) =~= vistas_envios(antes).push(envios@[i - 1]@));
        }
    }
    assert(alvos.take(i as int) =~= alvos);
    envios
}

/// Looks `chave` up in the node's table: the stored value is answered to the
/// client at `endereco`; where there is none yet, the consult waits.
pub fn procura(tabela: &mut Tabela, chave: &[u8], endereco: &[u8], no_atual: &i32) -> (envios: Vec<Envio>)
    requires
        old(tabela).bem_formada(),
    ensures
        final(tabela).bem_formada(),
        final(tabela)@ == old(tabela)@.apos_consulta(chave@, endereco@),
        vistas_envios(envios@) == (match old(tabela)@.resposta(chave@) {
            Some(v) => seq![retorno(endereco@, v, *no_atual as int)],
            None => Seq::<EnvioV>::empty(),
        }),
{
    let mut envios: Vec<Envio> = Vec::new();
    match tabela.consulta(copia(chave), copia(endereco)) {
        Some(valor) => {
            envios.push(callback(valor.as_slice(), endereco, no_atual));
        },
        None => {},
    }
    assert(vistas_envios(envios@) =~= (match old(tabela)@.resposta(chave@) {
        Some(v) => seq![retorno(endereco@, v, *no_atual as int)],
        None => Seq::<EnvioV>::empty(),
    }));
    envios
}

/// The outcome of a message, as values.
pub enum DesfechoV {
    Envios(Seq<EnvioV>),
    Fecha,
    Invalida(Motivo),
}

/// The outcome of a message: messages to send, shutting down, or a refusal.
#[derive(Debug, PartialEq, Eq)]
pub enum Desfecho {
    Envios(Vec<Envio>),
    Fecha,
    Invalida(Motivo),
}

impl View for Desfecho {
    type V = DesfechoV;

    open spec fn view(&self) -> DesfechoV {
        match self {
            Desfecho::Envios(v) => DesfechoV::Envios(vistas_envios(v@)),
            Desfecho::Fecha => DesfechoV::Fecha,
            Desfecho::Invalida(m) => DesfechoV::Invalida(*m),
        }
    }
}

/// The table after node `no` of a ring of `2^p` nodes carries out `ordem`,
/// and the outcome; a request to pass on is refused where the ring's
/// arithmetic does not fit (`anel_valido`).
pub open spec fn efeito(t: EstadoTabela, ordem: Ordem, no: int, p: int) -> (EstadoTabela, DesfechoV) {
    match ordem {
        Ordem::Coloca { chave, valor } => (
            t.apos_insercao(chave, valor),
            DesfechoV::Envios(retornos(avisados(t.espera, chave), valor, no)),
        ),
        Ordem::Procura { chave, endereco } => (
            t.apos_consulta(chave, endereco),
            DesfechoV::Envios(
                match t.resposta(chave) {
                    Some(v) => seq![retorno(endereco, v, no)],
                    None => Seq::empty(),
                },
            ),
        ),
        Ordem::Roteia { destino, tipo, chave, dado } => if anel_valido(no, p) {
            (t, DesfechoV::Envios(seq![envio_roteado(destino, no, p as nat, tipo, chave, dado)]))
        } else {
            (t, DesfechoV::Invalida(Motivo::AnelInvalido))
        },
        Ordem::Fecha => (t, DesfechoV::Fecha),
        Ordem::Invalida(m) => (t, DesfechoV::Invalida(m)),
    }
}

/// The bytes of a text.
pub open spec fn bytes_de(s: Seq<char>) -> Seq<u8> {
    vstd::utf8::encode_utf8(s)
}

/// The ring's exponent is from 0 to 30, and every hop from node `no` stays
/// within `i32`.
pub open spec fn anel_valido(no: int, p: int) -> bool {
    &&& 0 <= p <= 30
    &&& 0 <= no
    &&& no + pot2(p as nat) - 1 <= i32::MAX
}

/// Node `node` of a ring of `2^power2_nodes` nodes handles the message
/// `mensagem`: it stores, looks up, passes the request on, shuts down or
/// refuses, as `ordem` says, and gives the messages to send.
pub fn trata(tabela: &mut Tabela, mensagem: String, node: &i32, power2_nodes: &i32) -> (d: Desfecho)
    requires
        old(tabela).bem_formada(),
        bytes_de(mensagem@).len() * 255 <= i32::MAX,
    ensures
        final(tabela).bem_formada(),
        (final(tabela)@, d@) == efeito(
            old(tabela)@,
            ordem(bytes_de(mensagem@), *node as int, *power2_nodes as int),
            *node as int,
            *power2_nodes as int,
        ),
{
    let bytes = mensagem.as_str().as_bytes();
    let comando = interpreta(bytes, *node, *power2_nodes);
    match comando {
        Comando::Coloca { chave, valor } => {
            Desfecho::Envios(coloca(tabela, chave.as_slice(), valor.as_slice(), node))
        },
        Comando::Procura { chave, endereco } => {
            Desfecho::Envios(procura(tabela, chave.as_slice(), endereco.as_slice(), node))
        },
        Comando::Roteia { destino, tipo, chave, dado } => {
            if *power2_nodes < 0 || *power2_nodes > 30 || *node < 0 {
                return Desfecho::Invalida(Motivo::AnelInvalido);
            }
            let n = potencia2(*power2_nodes);
            proof {
                lemma_pot2_positiva(*power2_nodes as nat);
            }
            if *node > i32::MAX - n + 1 {
                return Desfecho::Invalida(Motivo::AnelInvalido);
            }
            proof {
                let p = *power2_nodes as nat;
                if p >= 1 {
                    lemma_pot2_positiva((p - 1) as nat);
                    assert(pot2(p) == 2 * pot2((p - 1) as nat));
                }
            }
            let e = roteia(destino, node, power2_nodes, chave.as_slice(), tipo, dado.as_slice());
            let mut envios: Vec<Envio> = Vec::new();
            envios.push(e);
            assert(vistas_envios(envios@) =~= seq![e@]);
            Desfecho::Envios(envios)
        },
        Comando::Fecha => Desfecho::Fecha,
        Comando::Invalida(m) => Desfecho::Invalida(m),
    }
}

/// The names of the kinds of request are inner pieces.
pub proof fn lemma_nomes_internos(tipo: Tipo)
    ensures
        peca_interna(tipo.nome()),
{
    let n = tipo.nome();
    assert forall|i: int| !#[trigger] crate::texto::separador_em(n, i) by {
        if 0 <= i < n.len() {
            assert(n[i] != HIFEN);
        }
    }
}

/// The key, and the value of a store request, have safe ends: these are
/// the pieces that a separator follows in the request passed on.
pub open spec fn dados_seguros(tipo: Tipo, chave: Seq<u8>, dado: Seq<u8>) -> bool {
    &&& fim_seguro(chave)
    &&& tipo is InsereNo ==> fim_seguro(dado)
}

proof fn lemma_roteada_pecas(tipo: Tipo, chave: Seq<u8>, dado: Seq<u8>, destino: i32)
    requires
        dados_seguros(tipo, chave, dado),
    ensures
        desescapa(mensagem_roteada(tipo, chave, dado, destino as int)).len() >= tipo.nome().len(),
        desescapa(mensagem_roteada(tipo, chave, dado, destino as int)).take(tipo.nome().len() as int)
            == tipo.nome(),
        pecas(mensagem_roteada(tipo, chave, dado, destino as int)) == (match tipo {
            Tipo::InsereNo => seq![tipo.nome(), chave, dado, decimal(destino as int)],
            Tipo::ConsultaNo => seq![tipo.nome(), chave, decimal(destino as int), dado],
        }),
{
    let n = tipo.nome();
    let d = decimal(destino as int);
    lemma_nomes_internos(tipo);
    lemma_escapa_sem_separador(n);
    lemma_decimal_sem_separador(destino as int);
    lemma_escapa_sem_separador(d);
    crate::decimal::lemma_decimal_termina_em_digito(destino as int);
    let m = mensagem_roteada(tipo, chave, dado, destino as int);
    let resto = m.skip(n.len() as int);
    assert(m =~= n + resto);
    lemma_desescapa_interna(n, resto);
    assert(desescapa(m).take(n.len() as int) =~= n);
    match tipo {
        Tipo::InsereNo => {
            lemma_pecas_quatro(n, chave, dado, d);
        },
        Tipo::ConsultaNo => {
            lemma_pecas_quatro(n, chave, d, dado);
        },
    }
}

/// A request passed on between nodes is understood by the next node as it
/// was sent: served there if that node is its destination, else passed on
/// again towards the same destination, with the same key and data, `--`
/// inside them included. This holds where the key, and the value of a store
/// request, end neither with `-` nor with `\\`.
pub proof fn lemma_encaminhamento(tipo: Tipo, chave: Seq<u8>, dado: Seq<u8>, destino: i32, no: int, p: nat)
    requires
        dados_seguros(tipo, chave, dado),
    ensures
        ordem(mensagem_roteada(tipo, chave, dado, destino as int), no, p as int) == ordem_para(
            destino as int,
            no,
            tipo,
            chave,
            dado,
        ),
{
    let m = mensagem_roteada(tipo, chave, dado, destino as int);
    let m2 = desescapa(m);
    let v = pecas(m);
    lemma_roteada_pecas(tipo, chave, dado, destino);
    lemma_le_escreve(destino);
    match tipo {
        Tipo::InsereNo => {
            assert(m2.take(9) == txt_insere_no());
            assert(m2[6] == m2.take(9)[6]);
            assert(m2.take(8)[6] == m2[6]);
            assert(m2.take(8)[6] != txt_insere()[6]);
            assert(!comeca_com(m2, txt_insere()));
            assert(comeca_com(m2, txt_insere_no()));
            assert(v.len() == 4 && v[1] == chave && v[2] == dado);
            assert(le_i32(v[3]) == Some(destino as int));
        },
        Tipo::ConsultaNo => {
            assert(m2.take(11) == txt_consulta_no());
            assert(m2[0] == m2.take(11)[0]);
            assert(m2[8] == m2.take(11)[8]);
            assert(m2.take(8)[0] == m2[0]);
            assert(m2.take(9)[0] == m2[0]);
            assert(m2.take(10)[8] == m2[8]);
            assert(m2.take(8)[0] != txt_insere()[0]);
            assert(m2.take(9)[0] != txt_insere_no()[0]);
            assert(m2.take(10)[8] != txt_consulta()[8]);
            assert(!comeca_com(m2, txt_insere()));
            assert(!comeca_com(m2, txt_insere_no()));
            assert(!comeca_com(m2, txt_consulta()));
            assert(comeca_com(m2, txt_consulta_no()));
            assert(v.len() == 4 && v[1] == chave && v[3] == dado);
            assert(le_i32(v[2]) == Some(destino as int));
        },
    }
}

/// Where a message that arrives at node `no` is served, and what it asks
/// there, when each node passes a request on to the node whose port it sends
/// it to, for at most `k` hops.
pub open spec fn entrega(mensagem: Seq<u8>, no: int, p: nat, k: nat) -> (int, Ordem)
    decreases k,
{
    let o = ordem(mensagem, no, p as int);
    match o {
        Ordem::Roteia { destino, tipo, chave, dado } => if k == 0 {
            (no, o)
        } else {
            entrega(mensagem_roteada(tipo, chave, dado, destino), proximo(destino, no, p), p, (k - 1) as nat)
        },
        _ => (no, o),
    }
}

proof fn lemma_entrega_em_k(
    mensagem: Seq<u8>,
    cur: int,
    dest: int,
    p: nat,
    tipo: Tipo,
    chave: Seq<u8>,
    dado: Seq<u8>,
    k: nat,
)
    requires
        0 <= cur < pot2(p),
        0 <= dest < pot2(p),
        pot2(p) <= i32::MAX,
        dados_seguros(tipo, chave, dado),
        ordem(mensagem, cur, p as int) == ordem_para(dest, cur, tipo, chave, dado),
        distancia(cur, dest, pot2(p)) < pot2(k),
    ensures
        entrega(mensagem, cur, p, k) == (dest, ordem_para(dest, dest, tipo, chave, dado)),
    decreases k,
{
    if cur != dest {
        lemma_passo_aproxima(cur, dest, p);
        if k == 0 {
            assert(pot2(0) == 1);
        } else {
            let d = distancia(cur, dest, pot2(p));
            let j = crate::anel::expoente(d, p);
            if j >= k {
                lemma_pot2_cresce(k, j);
            }
            lemma_pot2_cresce(j, (k - 1) as nat);
            let prox = proximo(dest, cur, p);
            lemma_encaminhamento(tipo, chave, dado, dest as i32, prox, p);
            lemma_entrega_em_k(
                mensagem_roteada(tipo, chave, dado, dest),
                prox,
                dest,
                p,
                tipo,
                chave,
                dado,
                (k - 1) as nat,
            );
        }
    }
}

/// A request that a node of a ring of `2^p` nodes (`p` at most 30) finds
/// addressed to node `dest` of the ring is served at `dest`, after at most
/// `p` hops, with the key and data it carried, where the key, and the value
/// of a store request, end neither with `-` nor with `\\`.
pub proof fn lemma_entrega(
    mensagem: Seq<u8>,
    cur: int,
    dest: int,
    p: nat,
    tipo: Tipo,
    chave: Seq<u8>,
    dado: Seq<u8>,
)
    requires
        p <= 30,
        0 <= cur < pot2(p),
        0 <= dest < pot2(p),
        dados_seguros(tipo, chave, dado),
        ordem(mensagem, cur, p as int) == ordem_para(dest, cur, tipo, chave, dado),
    ensures
        entrega(mensagem, cur, p, p) == (dest, ordem_para(dest, dest, tipo, chave, dado)),
{
    lemma_pot2_cresce(p, 30);
    crate::anel::lemma_pot2_trinta();
    lemma_pot2_positiva(p);
    crate::anel::lemma_distancia_menor(cur, dest, pot2(p));
    lemma_entrega_em_k(mensagem, cur, dest, p, tipo, chave, dado, p);
}

/// At the node that owns a key, a consult that follows the storing of a
/// value under it is answered with that value, and changes nothing.
pub proof fn lemma_consulta_apos_insercao(
    t: EstadoTabela,
    chave: Seq<u8>,
    valor: Seq<u8>,
    endereco: Seq<u8>,
    no: int,
    p: int,
)
    ensures
        ({
            let depois = efeito(t, Ordem::Coloca { chave, valor }, no, p).0;
            efeito(depois, Ordem::Procura { chave, endereco }, no, p) == (
                depois,
                DesfechoV::Envios(seq![retorno(endereco, valor, no)]),
            )
        }),
{
    lemma_le_o_que_escreveu(t, chave, valor, endereco);
}

/// At the node that owns a key, a consult that comes before any value is
/// answered by the next storing of a value under that key, after the
/// consults that waited before it.
pub proof fn lemma_insercao_apos_consulta(
    t: EstadoTabela,
    chave: Seq<u8>,
    valor: Seq<u8>,
    endereco: Seq<u8>,
    no: int,
    p: int,
)
    requires
        t.resposta(chave) is None,
    ensures
        ({
            let depois = efeito(t, Ordem::Procura { chave, endereco }, no, p).0;
            efeito(depois, Ordem::Coloca { chave, valor }, no, p).1 == DesfechoV::Envios(
                retornos(avisados(t.espera, chave).push(endereco), valor, no),
            )
        }),
{
    lemma_consulta_espera(t, chave, endereco, chave);
}

/// Storing a value at a node: the key gets that value; every other key keeps
/// its value or its absence, and its waiting consults; the consults that
/// waited for the key are answered `valor--no`, in their order, and wait no
/// more.
pub proof fn lemma_coloca_preserva_outras(
    t: EstadoTabela,
    chave: Seq<u8>,
    valor: Seq<u8>,
    outra: Seq<u8>,
    no: int,
    p: int,
)
    ensures
        ({
            let (u, d) = efeito(t, Ordem::Coloca { chave, valor }, no, p);
            let a = avisados(t.espera, chave);
            &&& u.mapa.contains_key(chave) && u.mapa[chave] == valor
            &&& outra != chave ==> u.mapa.contains_key(outra) == t.mapa.contains_key(outra)
            &&& outra != chave && t.mapa.contains_key(outra) ==> u.mapa[outra] == t.mapa[outra]
            &&& outra != chave ==> avisados(u.espera, outra) == avisados(t.espera, outra)
            &&& avisados(u.espera, chave) == Seq::<Seq<u8>>::empty()
            &&& d matches DesfechoV::Envios(es) && es.len() == a.len() && forall|i: int|
                0 <= i < a.len() ==> #[trigger] es[i] == (EnvioV {
                    destino: DestinoV::Endereco(a[i]),
                    mensagem: valor + seq![HIFEN, HIFEN] + decimal(no),
                })
        }),
{
    crate::tabela::lemma_insercao_atende(t, chave, valor, outra);
}

/// Looking a key up at a node: no value changes; a key with a value is
/// answered at once with `valor--no`, and a key without one makes the
/// consult wait, last, and sends nothing.
pub proof fn lemma_procura_nao_altera_valores(
    t: EstadoTabela,
    chave: Seq<u8>,
    endereco: Seq<u8>,
    no: int,
    p: int,
)
    ensures
        ({
            let (u, d) = efeito(t, Ordem::Procura { chave, endereco }, no, p);
            &&& u.mapa == t.mapa
            &&& t.mapa.contains_key(chave) ==> u.espera == t.espera && d == DesfechoV::Envios(
                seq![
                    EnvioV {
                        destino: DestinoV::Endereco(endereco),
                        mensagem: t.mapa[chave] + seq![HIFEN, HIFEN] + decimal(no),
                    },
                ],
            )
            &&& !t.mapa.contains_key(chave) ==> avisados(u.espera, chave) == avisados(
                t.espera,
                chave,
            ).push(endereco) && d == DesfechoV::Envios(Seq::empty())
        }),
{
    lemma_consulta_espera(t, chave, endereco, chave);
}

/// A node of a ring of `2^p` nodes (`p` at most 30) passes on each request
/// that is not for it: to the port of the next hop, with the request written
/// for the next node, and the table unchanged.
pub proof fn lemma_roteia_passa_adiante(
    t: EstadoTabela,
    destino: int,
    tipo: Tipo,
    chave: Seq<u8>,
    dado: Seq<u8>,
    no: int,
    p: int,
)
    requires
        0 <= p <= 30,
        0 <= no < pot2(p as nat),
    ensures
        efeito(t, Ordem::Roteia { destino, tipo, chave, dado }, no, p) == (
            t,
            DesfechoV::Envios(
                seq![
                    EnvioV {
                        destino: DestinoV::Porta(7000 + proximo(destino, no, p as nat)),
                        mensagem: mensagem_roteada(tipo, chave, dado, destino),
                    },
                ],
            ),
        ),
{
    lemma_pot2_cresce(p as nat, 30);
    crate::anel::lemma_pot2_trinta();
}

} // verus!
