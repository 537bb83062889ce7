//! The table that a node keeps: the values stored under their keys, and the
//! consults for keys that had no value yet, each with the address that waits
//! for the answer, in the order in which they came.

use vstd::prelude::*;
use crate::texto::{copia, iguais, vistas};

verus! {

/// What a table holds: a value for each key stored, and the waiting consults
/// as (key, address) in arrival order.
pub struct EstadoTabela {
    pub mapa: Map<Seq<u8>, Seq<u8>>,
    pub espera: Seq<(Seq<u8>, Seq<u8>)>,
}

/// The addresses of the consults for `chave` in `espera`, in their order.
pub open spec fn avisados(espera: Seq<(Seq<u8>, Seq<u8>)>, chave: Seq<u8>) -> Seq<Seq<u8>>
    decreases espera.len(),
{
    if espera.len() == 0 {
        Seq::empty()
    } else {
        let r = avisados(espera.drop_last(), chave);
        if espera.last().0 == chave {
            r.push(espera.last().1)
        } else {
            r
        }
    }
}

/// The consults of `espera` for keys other than `chave`, in their order.
pub open spec fn restantes(espera: Seq<(Seq<u8>, Seq<u8>)>, chave: Seq<u8>) -> Seq<(Seq<u8>, Seq<u8>)>
    decreases espera.len(),
{
    if espera.len() == 0 {
        Seq::empty()
    } else {
        let r = restantes(espera.drop_last(), chave);
        if espera.last().0 == chave {
            r
        } else {
            r.push(espera.last())
        }
    }
}

impl EstadoTabela {
    /// The table after `valor` is stored under `chave`: the value replaces any
    /// earlier one, and the consults that waited for `chave` leave the queue.
    pub open spec fn apos_insercao(self, chave: Seq<u8>, valor: Seq<u8>) -> EstadoTabela {
        EstadoTabela { mapa: self.mapa.insert(chave, valor), espera: restantes(self.espera, chave) }
    }

    /// The table after a consult for `chave` from `endereco`: unchanged where
    /// the key has a value, else the consult joins the end of the queue.
    pub open spec fn apos_consulta(self, chave: Seq<u8>, endereco: Seq<u8>) -> EstadoTabela {
        if self.mapa.contains_key(chave) {
            self
        } else {
            EstadoTabela { mapa: self.mapa, espera: self.espera.push((chave, endereco)) }
        }
    }

    /// The answer to a consult for `chave`: the stored value, if there is one.
    pub open spec fn resposta(self, chave: Seq<u8>) -> Option<Seq<u8>> {
        if self.mapa.contains_key(chave) {
            Some(self.mapa[chave])
        } else {
            None
        }
    }
}

/// The contents of each pair of vectors of `v`.
pub open spec fn pares(v: Seq<(Vec<u8>, Vec<u8>)>) -> Seq<(Seq<u8>, Seq<u8>)> {
    Seq::new(v.len(), |i: int| (v[i].0@, v[i].1@))
}

/// A node's table of keys and values, with the consults that wait for a key.
pub struct Tabela {
    entradas: Vec<(Vec<u8>, Vec<u8>)>,
    espera: Vec<(Vec<u8>, Vec<u8>)>,
    mapa: Ghost<Map<Seq<u8>, Seq<u8>>>,
}

impl View for Tabela {
    type V = EstadoTabela;

    closed spec fn view(&self) -> EstadoTabela {
        EstadoTabela { mapa: self.mapa@, espera: pares(self.espera@) }
    }
}

impl Tabela {
    /// Each stored key occurs once, and the entries are exactly the map.
    pub closed spec fn bem_formada(&self) -> bool {
        &&& forall|i: int|
            0 <= i < self.entradas@.len() ==> #[trigger] self.mapa@.contains_key(self.entradas@[i].0@)
                && self.mapa@[self.entradas@[i].0@] == self.entradas@[i].1@
        &&& forall|k: Seq<u8>|
            #[trigger] self.mapa@.contains_key(k) ==> exists|i: int|
                0 <= i < self.entradas@.len() && #[trigger] self.entradas@[i].0@ == k
        &&& forall|i: int, j: int|
            0 <= i < j < self.entradas@.len() ==> #[trigger] self.entradas@[i].0@
                != #[trigger] self.entradas@[j].0@
    }

    /// An empty table with no waiting consult.
    pub fn new() -> (t: Tabela)
        ensures
            t.bem_formada(),
            t@.mapa == Map::<Seq<u8>, Seq<u8>>::empty(),
            t@.espera == Seq::<(Seq<u8>, Seq<u8>)>::empty(),
    {
        let t = Tabela { entradas: Vec::new(), espera: Vec::new(), mapa: Ghost(Map::empty()) };
        assert(pares(t.espera@) =~= Seq::<(Seq<u8>, Seq<u8>)>::empty());
        t
    }

    fn indice(&self, chave: &[u8]) -> (r: Option<usize>)
        requires
            self.bem_formada(),
        ensures
            r matches Some(i) ==> i < self.entradas@.len() && self.entradas@[i as int].0@ == chave@,
            r is None ==> !self.mapa@.contains_key(chave@),
    {
        let mut i: usize = 0;
        while i < self.entradas.len()
            invariant
                i <= self.entradas@.len(),
                forall|j: int| 0 <= j < i ==> self.entradas@[j].0@ != chave@,
            decreases self.entradas@.len() - i,
        {
            if iguais(self.entradas[i].0.as_slice(), chave) {
                return Some(i);
            }
            i = i + 1;
        }
        None
    }

    /// Stores `valor` under `chave` and hands back, in their order, the
    /// addresses of the consults that waited for `chave`, which leave the
    /// queue.
    pub fn insere(&mut self, chave: Vec<u8>, valor: Vec<u8>) -> (avisar: Vec<Vec<u8>>)
        requires
            old(self).bem_formada(),
        ensures
            final(self).bem_formada(),
            final(self)@ == old(self)@.apos_insercao(chave@, valor@),
            vistas(avisar@) == avisados(old(self)@.espera, chave@),
    {
        let ghost espera0 = pares(self.espera@);
        let mut avisar: Vec<Vec<u8>> = Vec::new();
        let mut resto: Vec<(Vec<u8>, Vec<u8>)> = Vec::new();
        let mut i: usize = 0;
        proof {
            assert(espera0.take(0) =~= Seq::<(Seq<u8>, Seq<u8>)>::empty());
            assert(vistas(avisar@) =~= Seq::<Seq<u8>>::empty());
            assert(pares(resto@) =~= Seq::<(Seq<u8>, Seq<u8>)>::empty());
        }
        while i < self.espera.len()
            invariant
                i <= self.espera@.len(),
                espera0 == pares(self.espera@),
                vistas(avisar@) == avisados(espera0.take(i as int), chave@),
                pares(resto@) == restantes(espera0.take(i as int), chave@),
            decreases self.espera@.len() - i,
        {
            let ghost prefixo = espera0.take(i + 1);
            assert(prefixo.drop_last() =~= espera0.take(i as int));
            assert(prefixo.last() == (self.espera@[i as int].0@, self.espera@[i as int].1@));
            if iguais(self.espera[i].0.as_slice(), chave.as_slice()) {
                let ghost antes = avisar@;
                avisar.push(copia(self.espera[i].1.as_slice()));
                assert(vistas(avisar@) =~= vistas(antes).push(self.espera@[i as int].1@));
            } else {
                let ghost antes = resto@;
                let par = (copia(self.espera[i].0.as_slice()), copia(self.espera[i].1.as_slice()));
                resto.push(par);
                assert(pares(resto@) =~= pares(antes).push(prefixo.last()));
            }
            i = i + 1;
        }
        assert(espera0.take(i as int) =~= espera0);
        self.espera = resto;
        match self.indice(chave.as_slice()) {
            Some(j) => {
                let ghost velhas = self.entradas@;
                self.entradas.set(j, (chave, valor));
                proof {
                    let mapa0 = self.mapa@;
                    self.mapa@ = self.mapa@.insert(self.entradas@[j as int].0@, self.entradas@[j as int].1@);
                    assert forall|x: int| 0 <= x < self.entradas@.len() implies #[trigger] self.mapa@.contains_key(
                        self.entradas@[x].0@,
                    ) && self.mapa@[self.entradas@[x].0@] == self.entradas@[x].1@ by {
                        if x != j {
                            assert(self.entradas@[x] == velhas[x]);
                            assert(mapa0.contains_key(velhas[x].0@));
                            assert(velhas[x].0@ != velhas[j as int].0@);
                        }
                    }
                    assert forall|x: int, y: int| 0 <= x < y < self.entradas@.len() implies #[trigger] self.entradas@[x].0@
                        != #[trigger] self.entradas@[y].0@ by {
                        assert(self.entradas@[x].0@ == velhas[x].0@);
                        assert(self.entradas@[y].0@ == velhas[y].0@);
                    }
                    assert forall|k: Seq<u8>| #[trigger] self.mapa@.contains_key(k) implies exists|x: int|
                        0 <= x < self.entradas@.len() && #[trigger] self.entradas@[x].0@ == k by {
                        if k != self.entradas@[j as int].0@ {
                            let x = choose|x: int| 0 <= x < velhas.len() && #[trigger] velhas[x].0@ == k;
                            assert(self.entradas@[x].0@ == k);
                        }
                    }
                }
            },
            None => {
                let ghost velhas = self.entradas@;
                let ghost k0 = chave@;
                let ghost v0 = valor@;
                self.entradas.push((chave, valor));
                proof {
                    let mapa0 = self.mapa@;
                    self.mapa@ = self.mapa@.insert(k0, v0);
                    assert forall|x: int| 0 <= x < self.entradas@.len() implies #[trigger] self.mapa@.contains_key(
                        self.entradas@[x].0@,
                    ) && self.mapa@[self.entradas@[x].0@] == self.entradas@[x].1@ by {
                        if x < velhas.len() {
                            assert(self.entradas@[x] == velhas[x]);
                            assert(mapa0.contains_key(velhas[x].0@));
                        }
                    }
                    assert forall|x: int, y: int| 0 <= x < y < self.entradas@.len() implies #[trigger] self.entradas@[x].0@
                        != #[trigger] self.entradas@[y].0@ by {
                        assert(self.entradas@[x] == velhas[x]);
                        assert(mapa0.contains_key(velhas[x].0@));
                        if y < velhas.len() {
                            assert(self.entradas@[y] == velhas[y]);
                        }
                    }
                    assert forall|k: Seq<u8>| #[trigger] self.mapa@.contains_key(k) implies exists|x: int|
                        0 <= x < self.entradas@.len() && #[trigger] self.entradas@[x].0@ == k by {
                        if k != k0 {
                            let x = choose|x: int| 0 <= x < velhas.len() && #[trigger] velhas[x].0@ == k;
                            assert(self.entradas@[x].0@ == k);
                        } else {
                            assert(self.entradas@[velhas.len() as int].0@ == k);
                        }
                    }
                }
            },
        }
        avisar
    }

    /// Answers a consult for `chave`: the stored value where there is one;
    /// else the consult, with the address `endereco` that waits for the
    /// answer, joins the end of the queue.
    pub fn consulta(&mut self, chave: Vec<u8>, endereco: Vec<u8>) -> (r: Option<Vec<u8>>)
        requires
            old(self).bem_formada(),
        ensures
            final(self).bem_formada(),
            final(self)@ == old(self)@.apos_consulta(chave@, endereco@),
            r is Some <==> old(self)@.resposta(chave@) is Some,
            r matches Some(v) ==> old(self)@.resposta(chave@) == Some(v@),
    {
        match self.indice(chave.as_slice()) {
            Some(j) => Some(copia(self.entradas[j].1.as_slice())),
            None => {
                let ghost antes = self.espera@;
                let ghost par = (chave@, endereco@);
                self.espera.push((chave, endereco));
                assert(pares(self.espera@) =~= pares(antes).push(par));
                assert(self.entradas@ == old(self).entradas@);
                assert(self.mapa@ == old(self).mapa@);
                None
            },
        }
    }
}

proof fn lemma_restantes(espera: Seq<(Seq<u8>, Seq<u8>)>, chave: Seq<u8>, outra: Seq<u8>)
    ensures
        avisados(restantes(espera, chave), chave) == Seq::<Seq<u8>>::empty(),
        outra != chave ==> avisados(restantes(espera, chave), outra) == avisados(espera, outra),
    decreases espera.len(),
{
    if espera.len() > 0 {
        lemma_restantes(espera.drop_last(), chave, outra);
        let r = restantes(espera.drop_last(), chave);
        if espera.last().0 != chave {
            assert(r.push(espera.last()).drop_last() =~= r);
        }
    }
}

proof fn lemma_avisados_push(espera: Seq<(Seq<u8>, Seq<u8>)>, par: (Seq<u8>, Seq<u8>), chave: Seq<u8>)
    ensures
        avisados(espera.push(par), chave) == (if par.0 == chave {
            avisados(espera, chave).push(par.1)
        } else {
            avisados(espera, chave)
        }),
{
    assert(espera.push(par).drop_last() =~= espera);
}

/// A read gives back what a write wrote: after `valor` is stored under
/// `chave`, a consult for `chave` is answered with `valor`, and the answer
/// for every other key is what it was.
pub proof fn lemma_le_o_que_escreveu(t: EstadoTabela, chave: Seq<u8>, valor: Seq<u8>, outra: Seq<u8>)
    ensures
        t.apos_insercao(chave, valor).resposta(chave) == Some(valor),
        t.apos_insercao(chave, valor).apos_consulta(chave, outra) == t.apos_insercao(chave, valor),
        outra != chave ==> t.apos_insercao(chave, valor).resposta(outra) == t.resposta(outra),
{
}

/// A consult that finds no value is not lost: its address joins, last, the
/// addresses that the next storing of its key hands back; a consult that
/// finds the value leaves the queue as it was.
pub proof fn lemma_consulta_espera(t: EstadoTabela, chave: Seq<u8>, endereco: Seq<u8>, outra: Seq<u8>)
    ensures
        avisados(t.apos_consulta(chave, endereco).espera, chave) == (if t.resposta(chave) is None {
            avisados(t.espera, chave).push(endereco)
        } else {
            avisados(t.espera, chave)
        }),
        outra != chave ==> avisados(t.apos_consulta(chave, endereco).espera, outra) == avisados(
            t.espera,
            outra,
        ),
{
    lemma_avisados_push(t.espera, (chave, endereco), chave);
    lemma_avisados_push(t.espera, (chave, endereco), outra);
}

/// Storing a key answers every consult that waited for it, so none of them
/// is answered twice, and leaves the consults for other keys waiting.
pub proof fn lemma_insercao_atende(t: EstadoTabela, chave: Seq<u8>, valor: Seq<u8>, outra: Seq<u8>)
    ensures
        avisados(t.apos_insercao(chave, valor).espera, chave) == Seq::<Seq<u8>>::empty(),
        outra != chave ==> avisados(t.apos_insercao(chave, valor).espera, outra) == avisados(
            t.espera,
            outra,
        ),
{
    lemma_restantes(t.espera, chave, outra);
}

/// A request to a node's table, as values.
pub enum Pedido {
    Insere { chave: Seq<u8>, valor: Seq<u8> },
    Consulta { chave: Seq<u8>, endereco: Seq<u8> },
}

impl EstadoTabela {
    /// The table after `pedido`.
    pub open spec fn apos(self, pedido: Pedido) -> EstadoTabela {
        match pedido {
            Pedido::Insere { chave, valor } => self.apos_insercao(chave, valor),
            Pedido::Consulta { chave, endereco } => self.apos_consulta(chave, endereco),
        }
    }

    /// The answers that `pedido` gives, as (address, value): a storing
    /// answers the consults that waited for its key, a consult is answered
    /// where its key has a value.
    pub open spec fn respostas(self, pedido: Pedido) -> Seq<(Seq<u8>, Seq<u8>)> {
        match pedido {
            Pedido::Insere { chave, valor } => {
                let a = avisados(self.espera, chave);
                Seq::new(a.len(), |i: int| (a[i], valor))
            },
            Pedido::Consulta { chave, endereco } => match self.resposta(chave) {
                Some(v) => seq![(endereco, v)],
                None => Seq::empty(),
            },
        }
    }
}

/// The table after the requests `pedidos`, in order.
pub open spec fn aplica(t: EstadoTabela, pedidos: Seq<Pedido>) -> EstadoTabela
    decreases pedidos.len(),
{
    if pedidos.len() == 0 {
        t
    } else {
        aplica(t, pedidos.drop_last()).apos(pedidos.last())
    }
}

/// The value of the last storing of `chave` among `pedidos`, if any.
pub open spec fn ultimo_valor(pedidos: Seq<Pedido>, chave: Seq<u8>) -> Option<Seq<u8>>
    decreases pedidos.len(),
{
    if pedidos.len() == 0 {
        None
    } else {
        match pedidos.last() {
            Pedido::Insere { chave: k, valor } => if k == chave {
                Some(valor)
            } else {
                ultimo_valor(pedidos.drop_last(), chave)
            },
            _ => ultimo_valor(pedidos.drop_last(), chave),
        }
    }
}

/// A read gives back the last write: after any requests, a consult for
/// `chave` finds the value of the last storing of `chave` among them, and
/// where there was none, what it found before. No request removes a key.
pub proof fn lemma_ultima_escrita(t: EstadoTabela, pedidos: Seq<Pedido>, chave: Seq<u8>)
    ensures
        aplica(t, pedidos).resposta(chave) == (match ultimo_valor(pedidos, chave) {
            Some(v) => Some(v),
            None => t.resposta(chave),
        }),
    decreases pedidos.len(),
{
    if pedidos.len() > 0 {
        lemma_ultima_escrita(t, pedidos.drop_last(), chave);
    }
}

/// How many times `e` occurs in `s`.
pub open spec fn conta(s: Seq<Seq<u8>>, e: Seq<u8>) -> nat
    decreases s.len(),
{
    if s.len() == 0 {
        0
    } else {
        conta(s.drop_last(), e) + if s.last() == e {
            1nat
        } else {
            0nat
        }
    }
}

/// How many waiting consults of `espera` answer to the address `e`.
pub open spec fn conta_espera(espera: Seq<(Seq<u8>, Seq<u8>)>, e: Seq<u8>) -> nat
    decreases espera.len(),
{
    if espera.len() == 0 {
        0
    } else {
        conta_espera(espera.drop_last(), e) + if espera.last().1 == e {
            1nat
        } else {
            0nat
        }
    }
}

/// How many answers of `respostas` go to the address `e`.
pub open spec fn conta_respostas(respostas: Seq<(Seq<u8>, Seq<u8>)>, e: Seq<u8>) -> nat
    decreases respostas.len(),
{
    if respostas.len() == 0 {
        0
    } else {
        conta_respostas(respostas.drop_last(), e) + if respostas.last().0 == e {
            1nat
        } else {
            0nat
        }
    }
}

/// How many answers go to the address `e` while the table goes through
/// `pedidos`, from `t`.
pub open spec fn respondidos(t: EstadoTabela, pedidos: Seq<Pedido>, e: Seq<u8>) -> nat
    decreases pedidos.len(),
{
    if pedidos.len() == 0 {
        0
    } else {
        respondidos(t, pedidos.drop_last(), e) + conta_respostas(
            aplica(t, pedidos.drop_last()).respostas(pedidos.last()),
            e,
        )
    }
}

/// How many consults among `pedidos` answer to the address `e`.
pub open spec fn consultas_de(pedidos: Seq<Pedido>, e: Seq<u8>) -> nat
    decreases pedidos.len(),
{
    if pedidos.len() == 0 {
        0
    } else {
        consultas_de(pedidos.drop_last(), e) + match pedidos.last() {
            Pedido::Consulta { endereco, .. } => if endereco == e {
                1nat
            } else {
                0nat
            },
            _ => 0nat,
        }
    }
}

proof fn lemma_conta_divide(espera: Seq<(Seq<u8>, Seq<u8>)>, chave: Seq<u8>, e: Seq<u8>)
    ensures
        conta(avisados(espera, chave), e) + conta_espera(restantes(espera, chave), e) == conta_espera(
            espera,
            e,
        ),
    decreases espera.len(),
{
    if espera.len() > 0 {
        lemma_conta_divide(espera.drop_last(), chave, e);
        let a = avisados(espera.drop_last(), chave);
        let r = restantes(espera.drop_last(), chave);
        if espera.last().0 == chave {
            assert(a.push(espera.last().1).drop_last() =~= a);
        } else {
            assert(r.push(espera.last()).drop_last() =~= r);
        }
    }
}

proof fn lemma_conta_respostas_pares(a: Seq<Seq<u8>>, valor: Seq<u8>, e: Seq<u8>)
    ensures
        conta_respostas(Seq::new(a.len(), |i: int| (a[i], valor)), e) == conta(a, e),
    decreases a.len(),
{
    if a.len() > 0 {
        let s = Seq::new(a.len(), |i: int| (a[i], valor));
        let d = a.drop_last();
        assert(s.drop_last() =~= Seq::new(d.len(), |i: int| (d[i], valor)));
        lemma_conta_respostas_pares(d, valor, e);
    }
}

proof fn lemma_conta_espera_push(espera: Seq<(Seq<u8>, Seq<u8>)>, par: (Seq<u8>, Seq<u8>), e: Seq<u8>)
    ensures
        conta_espera(espera.push(par), e) == conta_espera(espera, e) + if par.1 == e {
            1nat
        } else {
            0nat
        },
{
    assert(espera.push(par).drop_last() =~= espera);
}

/// No consult is lost and none is answered twice: however the requests
/// come, the answers that go to an address and the consults from it that
/// still wait add up to the consults it made, with those that waited at the
/// start.
pub proof fn lemma_cada_consulta_uma_resposta(t: EstadoTabela, pedidos: Seq<Pedido>, e: Seq<u8>)
    ensures
        respondidos(t, pedidos, e) + conta_espera(aplica(t, pedidos).espera, e) == consultas_de(
            pedidos,
            e,
        ) + conta_espera(t.espera, e),
    decreases pedidos.len(),
{
    if pedidos.len() > 0 {
        let anteriores = pedidos.drop_last();
        lemma_cada_consulta_uma_resposta(t, anteriores, e);
        let u = aplica(t, anteriores);
        let ultimo = pedidos.last();
        assert(aplica(t, pedidos) == u.apos(ultimo));
        assert(respondidos(t, pedidos, e) == respondidos(t, anteriores, e) + conta_respostas(
            u.respostas(ultimo),
            e,
        ));
        match ultimo {
            Pedido::Insere { chave, valor } => {
                lemma_conta_divide(u.espera, chave, e);
                lemma_conta_respostas_pares(avisados(u.espera, chave), valor, e);
                assert(consultas_de(pedidos, e) == consultas_de(anteriores, e));
                assert(conta_respostas(u.respostas(ultimo), e) == conta(avisados(u.espera, chave), e));
                assert(aplica(t, pedidos).espera == restantes(u.espera, chave));
            },
            Pedido::Consulta { chave, endereco } => {
                lemma_conta_espera_push(u.espera, (chave, endereco), e);
                let um: nat = if endereco == e {
                    1
                } else {
                    0
                };
                assert(consultas_de(pedidos, e) == consultas_de(anteriores, e) + um);
                let r = u.respostas(ultimo);
                if u.resposta(chave) is Some {
                    assert(r == seq![(endereco, u.mapa[chave])]);
                    assert(r.last().0 == endereco);
                    assert(r.drop_last() =~= Seq::<(Seq<u8>, Seq<u8>)>::empty());
                    assert(conta_respostas(r.drop_last(), e) == 0);
                    assert(conta_respostas(r, e) == um);
                    assert(aplica(t, pedidos).espera == u.espera);
                } else {
                    assert(conta_respostas(r, e) == 0);
                    assert(aplica(t, pedidos).espera == u.espera.push((chave, endereco)));
                }
            },
        }
    }
}

/// Whichever comes first, the consult for a key from an address with no
/// consult waiting, or the storing of a value under that key, the address
/// gets exactly one answer and nothing of it is left waiting.
pub proof fn lemma_uma_resposta_em_qualquer_ordem(
    t: EstadoTabela,
    chave: Seq<u8>,
    valor: Seq<u8>,
    endereco: Seq<u8>,
)
    requires
        conta_espera(t.espera, endereco) == 0,
    ensures
        ({
            let consulta_antes = seq![
                Pedido::Consulta { chave, endereco },
                Pedido::Insere { chave, valor },
            ];
            let insere_antes = seq![
                Pedido::Insere { chave, valor },
                Pedido::Consulta { chave, endereco },
            ];
            &&& respondidos(t, consulta_antes, endereco) == 1
            &&& conta_espera(aplica(t, consulta_antes).espera, endereco) == 0
            &&& respondidos(t, insere_antes, endereco) == 1
            &&& conta_espera(aplica(t, insere_antes).espera, endereco) == 0
        }),
{
    let c = Pedido::Consulta { chave, endereco };
    let i = Pedido::Insere { chave, valor };
    let consulta_antes = seq![c, i];
    let insere_antes = seq![i, c];
    lemma_cada_consulta_uma_resposta(t, consulta_antes, endereco);
    lemma_cada_consulta_uma_resposta(t, insere_antes, endereco);
    lemma_conta_divide(t.espera, chave, endereco);
    assert(consulta_antes.drop_last() =~= seq![c]);
    assert(insere_antes.drop_last() =~= seq![i]);
    assert(seq![c].drop_last() =~= Seq::<Pedido>::empty());
    assert(seq![i].drop_last() =~= Seq::<Pedido>::empty());
    assert(consultas_de(seq![c], endereco) == 1) by {
        assert(consultas_de(Seq::<Pedido>::empty(), endereco) == 0);
    }
    assert(consultas_de(seq![i], endereco) == 0) by {
        assert(consultas_de(Seq::<Pedido>::empty(), endereco) == 0);
    }
    // the consult first: it waits, and the storing takes it out of the queue
    let u1 = t.apos_consulta(chave, endereco);
    assert(aplica(t, Seq::<Pedido>::empty()) == t);
    assert(aplica(t, seq![c]) == aplica(t, seq![c].drop_last()).apos(c));
    assert(aplica(t, seq![c]) == u1);
    if !t.mapa.contains_key(chave) {
        let w = t.espera.push((chave, endereco));
        assert(w.drop_last() =~= t.espera);
        assert(restantes(w, chave) == restantes(t.espera, chave));
    }
    assert(aplica(t, consulta_antes) == u1.apos_insercao(chave, valor));
    // the storing first: the consult finds the value and does not wait
    let u2 = t.apos_insercao(chave, valor);
    assert(aplica(t, seq![i]) == aplica(t, seq![i].drop_last()).apos(i));
    assert(aplica(t, seq![i]) == u2);
    assert(aplica(t, insere_antes) == u2);
}

/// `pedido` stores a value under `chave`.
pub open spec fn insere_chave(pedido: Pedido, chave: Seq<u8>) -> bool {
    match pedido {
        Pedido::Insere { chave: k, .. } => k == chave,
        _ => false,
    }
}

/// No request of `pedidos` stores a value under `chave`.
pub open spec fn sem_insercao(pedidos: Seq<Pedido>, chave: Seq<u8>) -> bool {
    forall|i: int| 0 <= i < pedidos.len() ==> !insere_chave(#[trigger] pedidos[i], chave)
}

/// The addresses of the consults for `chave` among `pedidos`, in order.
pub open spec fn enderecos_de(pedidos: Seq<Pedido>, chave: Seq<u8>) -> Seq<Seq<u8>>
    decreases pedidos.len(),
{
    if pedidos.len() == 0 {
        Seq::empty()
    } else {
        let r = enderecos_de(pedidos.drop_last(), chave);
        match pedidos.last() {
            Pedido::Consulta { chave: k, endereco } => if k == chave {
                r.push(endereco)
            } else {
                r
            },
            _ => r,
        }
    }
}

/// Requests one after the other: `a`, then `b`.
pub proof fn lemma_aplica_concatena(t: EstadoTabela, a: Seq<Pedido>, b: Seq<Pedido>)
    ensures
        aplica(t, a + b) == aplica(aplica(t, a), b),
    decreases b.len(),
{
    if b.len() == 0 {
        assert(a + b =~= a);
    } else {
        assert((a + b).drop_last() =~= a + b.drop_last());
        assert((a + b).last() == b.last());
        lemma_aplica_concatena(t, a, b.drop_last());
    }
}

proof fn lemma_espera_sem_insercao(u: EstadoTabela, pedidos: Seq<Pedido>, chave: Seq<u8>)
    requires
        u.resposta(chave) is None,
        sem_insercao(pedidos, chave),
    ensures
        aplica(u, pedidos).resposta(chave) is None,
        avisados(aplica(u, pedidos).espera, chave) == avisados(u.espera, chave) + enderecos_de(
            pedidos,
            chave,
        ),
    decreases pedidos.len(),
{
    if pedidos.len() == 0 {
        assert(avisados(u.espera, chave) + Seq::<Seq<u8>>::empty() =~= avisados(u.espera, chave));
    } else {
        let anteriores = pedidos.drop_last();
        assert forall|i: int| 0 <= i < anteriores.len() implies !insere_chave(#[trigger] anteriores[i], chave) by {
            assert(anteriores[i] == pedidos[i]);
        }
        lemma_espera_sem_insercao(u, anteriores, chave);
        let w = aplica(u, anteriores);
        let a = avisados(u.espera, chave);
        let r = enderecos_de(anteriores, chave);
        assert(!insere_chave(pedidos[pedidos.len() - 1], chave));
        match pedidos.last() {
            Pedido::Insere { chave: k, valor } => {
                lemma_restantes(w.espera, k, chave);
            },
            Pedido::Consulta { chave: k, endereco } => {
                lemma_avisados_push(w.espera, (k, endereco), chave);
                if k == chave {
                    assert((a + r).push(endereco) =~= a + r.push(endereco));
                }
            },
        }
    }
}

/// A consult that finds no value is answered exactly once: it is not
/// answered when it comes, its address waits in the place that follows the
/// consults for its key that came before it, and it stays there through any
/// requests that store no value under its key, so that the next storing of
/// its key answers it, in that place, and leaves nothing of that key waiting.
pub proof fn lemma_consulta_respondida_uma_vez(
    t: EstadoTabela,
    antes: Seq<Pedido>,
    chave: Seq<u8>,
    endereco: Seq<u8>,
    depois: Seq<Pedido>,
    valor: Seq<u8>,
)
    requires
        aplica(t, antes).resposta(chave) is None,
        sem_insercao(depois, chave),
    ensures
        ({
            let u = aplica(t, antes);
            let consulta = Pedido::Consulta { chave, endereco };
            let w = aplica(t, antes.push(consulta) + depois);
            &&& u.respostas(consulta) == Seq::<(Seq<u8>, Seq<u8>)>::empty()
            &&& avisados(w.espera, chave) == avisados(u.espera, chave).push(endereco) + enderecos_de(
                depois,
                chave,
            )
            &&& avisados(w.apos_insercao(chave, valor).espera, chave) == Seq::<Seq<u8>>::empty()
        }),
{
    let u = aplica(t, antes);
    let consulta = Pedido::Consulta { chave, endereco };
    let v = u.apos_consulta(chave, endereco);
    assert(antes.push(consulta).drop_last() =~= antes);
    assert(aplica(t, antes.push(consulta)) == v);
    lemma_aplica_concatena(t, antes.push(consulta), depois);
    lemma_consulta_espera(u, chave, endereco, chave);
    lemma_espera_sem_insercao(v, depois, chave);
    let w = aplica(t, antes.push(consulta) + depois);
    lemma_insercao_atende(w, chave, valor, chave);
}

/// A consult that finds a value is answered at once with it, and waits for
/// nothing.
pub proof fn lemma_consulta_respondida_na_hora(u: EstadoTabela, chave: Seq<u8>, endereco: Seq<u8>)
    requires
        u.resposta(chave) is Some,
    ensures
        u.respostas(Pedido::Consulta { chave, endereco }) == seq![(endereco, u.mapa[chave])],
        u.apos_consulta(chave, endereco) == u,
{
}

} // verus!
