//! Arithmetic of the ring: its size, the node that owns a key, and the next
//! hop of a request on its way to a node.

use vstd::prelude::*;

verus! {

/// Two to the power `e`.
pub open spec fn pot2(e: nat) -> int
    decreases e,
{
    if e == 0 {
        1
    } else {
        2 * pot2((e - 1) as nat)
    }
}

/// The sum of the bytes of `s`, each taken as a number from 0 to 255.
pub open spec fn soma_bytes(s: Seq<u8>) -> int
    decreases s.len(),
{
    if s.len() == 0 {
        0
    } else {
        soma_bytes(s.drop_last()) + s.last()
    }
}

/// The node that owns a key in a ring of `2^p` nodes.
pub open spec fn no_da_chave(chave: Seq<u8>, p: nat) -> int {
    soma_bytes(chave) % pot2(p)
}

pub proof fn lemma_pot2_positiva(e: nat)
    ensures
        pot2(e) >= 1,
    decreases e,
{
    if e > 0 {
        lemma_pot2_positiva((e - 1) as nat);
    }
}

pub proof fn lemma_pot2_cresce(a: nat, b: nat)
    requires
        a <= b,
    ensures
        pot2(a) <= pot2(b),
    decreases b,
{
    if a < b {
        lemma_pot2_cresce(a, (b - 1) as nat);
        lemma_pot2_positiva((b - 1) as nat);
    }
}

pub proof fn lemma_pot2_trinta()
    ensures
        pot2(30) == 0x4000_0000,
{
    reveal_with_fuel(pot2, 31);
}

pub proof fn lemma_soma_limitada(s: Seq<u8>)
    ensures
        0 <= soma_bytes(s) <= 255 * s.len(),
    decreases s.len(),
{
    if s.len() > 0 {
        lemma_soma_limitada(s.drop_last());
    }
}

proof fn lemma_soma_remove(s: Seq<u8>, i: int)
    requires
        0 <= i < s.len(),
    ensures
        soma_bytes(s) == soma_bytes(s.remove(i)) + s[i],
    decreases s.len(),
{
    if i == s.len() - 1 {
        assert(s.remove(i) =~= s.drop_last());
    } else {
        let r = s.remove(i);
        assert(r.drop_last() =~= s.drop_last().remove(i));
        assert(r.last() == s.last());
        lemma_soma_remove(s.drop_last(), i);
    }
}

proof fn lemma_soma_permutacao(a: Seq<u8>, b: Seq<u8>)
    requires
        a.to_multiset() == b.to_multiset(),
    ensures
        soma_bytes(a) == soma_bytes(b),
    decreases a.len(),
{
    vstd::seq_lib::to_multiset_len(a);
    vstd::seq_lib::to_multiset_len(b);
    if a.len() > 0 {
        let n = (a.len() - 1) as int;
        let x = a[n];
        assert(a.contains(x));
        vstd::seq_lib::to_multiset_contains(a, x);
        vstd::seq_lib::to_multiset_contains(b, x);
        let i = choose|i: int| 0 <= i < b.len() && b[i] == x;
        vstd::seq_lib::to_multiset_remove(a, n);
        vstd::seq_lib::to_multiset_remove(b, i);
        assert(a.remove(n) =~= a.drop_last());
        lemma_soma_permutacao(a.drop_last(), b.remove(i));
        lemma_soma_remove(b, i);
    }
}

/// The owner of a key depends only on which bytes the key holds, not on
/// their order: keys whose bytes are a permutation of each other, such as
/// `ab` and `ba`, belong to the same node.
pub proof fn lemma_dono_nao_depende_da_ordem(a: Seq<u8>, b: Seq<u8>, p: nat)
    requires
        a.to_multiset() == b.to_multiset(),
    ensures
        no_da_chave(a, p) == no_da_chave(b, p),
{
    lemma_soma_permutacao(a, b);
}

proof fn lemma_soma_prefixo(s: Seq<u8>, i: int)
    requires
        0 <= i <= s.len(),
    ensures
        soma_bytes(s.take(i)) <= soma_bytes(s),
    decreases s.len(),
{
    if i == s.len() {
        assert(s.take(i) =~= s);
    } else {
        assert(s.take(i) =~= s.drop_last().take(i));
        lemma_soma_prefixo(s.drop_last(), i);
    }
}

/// `2^e` for `e` from 0 to 30.
pub fn potencia2(e: i32) -> (r: i32)
    requires
        0 <= e <= 30,
    ensures
        r == pot2(e as nat),
{
    let mut r: i32 = 1;
    let mut i: i32 = 0;
    while i < e
        invariant
            0 <= i <= e <= 30,
            r == pot2(i as nat),
        decreases e - i,
    {
        proof {
            lemma_pot2_cresce((i + 1) as nat, 30);
            lemma_pot2_trinta();
            lemma_pot2_positiva(i as nat);
            assert(pot2((i + 1) as nat) == 2 * pot2(i as nat));
        }
        r = r * 2;
        i = i + 1;
    }
    r
}

/// The node of a ring of `2^power2_nodes` nodes that owns the key whose bytes
/// are `chave`: the sum of the bytes modulo the number of nodes.
pub fn calcula_bytes(chave: &[u8], power2_nodes: i32) -> (r: i32)
    requires
        0 <= power2_nodes <= 30,
        soma_bytes(chave@) <= i32::MAX,
    ensures
        r == no_da_chave(chave@, power2_nodes as nat),
        0 <= r < pot2(power2_nodes as nat),
{
    let node_quantity = potencia2(power2_nodes);
    proof {
        lemma_pot2_positiva(power2_nodes as nat);
    }
    let mut soma: i32 = 0;
    let mut i: usize = 0;
    while i < chave.len()
        invariant
            i <= chave@.len(),
            soma_bytes(chave@) <= i32::MAX,
            soma == soma_bytes(chave@.take(i as int)),
        decreases chave@.len() - i,
    {
        proof {
            assert(chave@.take(i + 1).drop_last() =~= chave@.take(i as int));
            lemma_soma_prefixo(chave@, i + 1);
            lemma_soma_limitada(chave@.take(i as int));
        }
        soma = soma + chave[i] as i32;
        i = i + 1;
    }
    proof {
        assert(chave@.take(chave@.len() as int) =~= chave@);
        lemma_soma_limitada(chave@);
    }
    soma % node_quantity
}


/// The node of a ring of `2^power2_nodes` nodes that owns the key `chave`:
/// the sum of its bytes modulo the number of nodes.
pub fn calcula(chave: &String, power2_nodes: &i32) -> (r: i32)
    requires
        0 <= *power2_nodes <= 30,
        soma_bytes(vstd::utf8::encode_utf8(chave@)) <= i32::MAX,
    ensures
        r == no_da_chave(vstd::utf8::encode_utf8(chave@), *power2_nodes as nat),
        0 <= r < pot2(*power2_nodes as nat),
{
    calcula_bytes(chave.as_str().as_bytes(), *power2_nodes)
}

/// Where the destination stands when the ring is unrolled from `cur` onwards:
/// a destination behind `cur` is taken one turn of `n` nodes further.
pub open spec fn alvo(dest: int, cur: int, n: int) -> int {
    if dest < cur {
        dest + n
    } else {
        dest
    }
}

/// The largest `i < p` with `2^i <= d`, and 0 where there is none.
pub open spec fn expoente(d: int, p: nat) -> nat
    decreases p,
{
    if p <= 1 {
        0
    } else if pot2((p - 1) as nat) <= d {
        (p - 1) as nat
    } else {
        expoente(d, (p - 1) as nat)
    }
}

/// The node to which `cur` hands a request for `dest` in a ring of `2^p`
/// nodes: the longest power-of-two jump from `cur` that does not pass the
/// destination (a jump of one where even that passes it), around the ring.
pub open spec fn proximo(dest: int, cur: int, p: nat) -> int {
    if p == 0 {
        0
    } else {
        (cur + pot2(expoente(alvo(dest, cur, pot2(p)) - cur, p))) % pot2(p)
    }
}

/// The inputs on which the hop computation stays within `i32`.
pub open spec fn cabe_no_anel(dest: int, cur: int, p: nat) -> bool {
    &&& 0 <= cur
    &&& p >= 1 ==> cur + pot2((p - 1) as nat) <= i32::MAX
    &&& dest < cur ==> dest + pot2(p) <= i32::MAX
}

/// How many steps forward around a ring of `n` nodes lead from `a` to `b`.
pub open spec fn distancia(a: int, b: int, n: int) -> int {
    (b - a) % n
}

/// The node that a request for `dest`, starting at `cur`, has reached after
/// at most `k` hops; it stops once it is at its destination.
pub open spec fn rota(cur: int, dest: int, p: nat, k: nat) -> int
    decreases k,
{
    if k == 0 || cur == dest {
        cur
    } else {
        rota(proximo(dest, cur, p), dest, p, (k - 1) as nat)
    }
}

proof fn lemma_expoente_estavel(d: int, i: nat, q: nat)
    requires
        1 <= i <= q,
        pot2(i) > d,
    ensures
        expoente(d, q) == expoente(d, i),
    decreases q,
{
    if q > i {
        lemma_pot2_cresce(i, (q - 1) as nat);
        lemma_expoente_estavel(d, i, (q - 1) as nat);
    }
}

proof fn lemma_expoente_intervalo(d: int, p: nat)
    requires
        1 <= d < pot2(p),
    ensures
        expoente(d, p) < p,
        pot2(expoente(d, p)) <= d < 2 * pot2(expoente(d, p)),
    decreases p,
{
    if p >= 2 && pot2((p - 1) as nat) > d {
        lemma_expoente_intervalo(d, (p - 1) as nat);
    }
}

proof fn lemma_mod_simples(x: int, n: int)
    requires
        n > 0,
        -n <= x < 2 * n,
    ensures
        x % n == (if x < 0 {
            x + n
        } else if x < n {
            x
        } else {
            x - n
        }),
{
    if x < 0 {
        vstd::arithmetic::div_mod::lemma_mod_add_multiples_vanish(x, n);
        vstd::arithmetic::div_mod::lemma_small_mod((x + n) as nat, n as nat);
    } else if x < n {
        vstd::arithmetic::div_mod::lemma_small_mod(x as nat, n as nat);
    } else {
        vstd::arithmetic::div_mod::lemma_mod_sub_multiples_vanish(x, n);
        vstd::arithmetic::div_mod::lemma_small_mod((x - n) as nat, n as nat);
    }
}

/// The node to which `no_atual` hands a request for `no_destino` in a ring
/// of `2^power2_nodes` nodes.
pub fn proximo_no(no_destino: i32, no_atual: i32, power2_nodes: i32) -> (r: i32)
    requires
        0 <= power2_nodes <= 30,
        cabe_no_anel(no_destino as int, no_atual as int, power2_nodes as nat),
    ensures
        r == proximo(no_destino as int, no_atual as int, power2_nodes as nat),
        0 <= r < pot2(power2_nodes as nat),
{
    let ghost p = power2_nodes as nat;
    let mut no_prox: i32 = -1;
    let node_quantity = potencia2(power2_nodes);
    proof {
        lemma_pot2_positiva(p);
    }
    let mut no_procurado = no_destino;
    if no_destino < no_atual {
        no_procurado = no_procurado + node_quantity;
    }
    let ghost d = alvo(no_destino as int, no_atual as int, pot2(p)) - no_atual;
    assert(no_procurado - no_atual == d);
    let mut i: i32 = 0;
    while i < power2_nodes
        invariant_except_break
            0 <= i <= power2_nodes <= 30,
            p == power2_nodes as nat,
            no_procurado - no_atual == d,
            0 <= no_atual,
            power2_nodes >= 1 ==> no_atual + pot2((power2_nodes - 1) as nat) <= i32::MAX,
            i == 0 ==> no_prox == -1,
            i > 0 ==> no_prox == no_atual + pot2(expoente(d, i as nat)),
        ensures
            power2_nodes > 0 ==> no_prox == no_atual + pot2(expoente(d, p)),
            power2_nodes == 0 ==> no_prox == -1,
        decreases power2_nodes - i,
    {
        proof {
            lemma_pot2_cresce(i as nat, (power2_nodes - 1) as nat);
            lemma_pot2_positiva(i as nat);
        }
        let no_verifica = no_atual + potencia2(i);
        if i > 0 {
            proof {
                lemma_pot2_positiva(expoente(d, i as nat));
            }
        }
        if no_prox != -1 && no_verifica > no_procurado {
            proof {
                lemma_expoente_estavel(d, i as nat, p);
            }
            break;
        }
        no_prox = no_verifica;
        i = i + 1;
    }
    if power2_nodes > 0 {
        proof {
            lemma_pot2_positiva(expoente(d, p));
        }
    }
    no_prox % node_quantity
}

/// One hop brings a request strictly closer to its destination: from the
/// node it reaches, fewer steps forward remain than a power of two that was
/// no more than the steps from the node it left.
pub proof fn lemma_passo_aproxima(cur: int, dest: int, p: nat)
    requires
        0 <= cur < pot2(p),
        0 <= dest < pot2(p),
        cur != dest,
    ensures
        0 <= proximo(dest, cur, p) < pot2(p),
        distancia(proximo(dest, cur, p), dest, pot2(p))
            < pot2(expoente(distancia(cur, dest, pot2(p)), p))
            <= distancia(cur, dest, pot2(p)),
{
    let n = pot2(p);
    lemma_mod_simples(dest - cur, n);
    let d = distancia(cur, dest, n);
    assert(d == alvo(dest, cur, n) - cur);
    assert(p >= 1) by {
        if p == 0 {
            assert(pot2(0) == 1);
        }
    }
    lemma_expoente_intervalo(d, p);
    let j = expoente(d, p);
    lemma_pot2_positiva(j);
    lemma_mod_simples(cur + pot2(j), n);
    let r = proximo(dest, cur, p);
    lemma_mod_simples(dest - r, n);
}

/// Whatever steps remain below `2^k`, a request gets to its destination in
/// at most `k` hops.
proof fn lemma_rota_em_k(cur: int, dest: int, p: nat, k: nat)
    requires
        0 <= cur < pot2(p),
        0 <= dest < pot2(p),
        distancia(cur, dest, pot2(p)) < pot2(k),
    ensures
        rota(cur, dest, p, k) == dest,
    decreases k,
{
    if cur != dest {
        let n = pot2(p);
        lemma_mod_simples(dest - cur, n);
        let d = distancia(cur, dest, n);
        lemma_passo_aproxima(cur, dest, p);
        let j = expoente(d, p);
        if k == 0 {
            assert(pot2(0) == 1);
        } else {
            if j >= k {
                lemma_pot2_cresce(k, j);
            }
            lemma_pot2_cresce(j, (k - 1) as nat);
            lemma_rota_em_k(proximo(dest, cur, p), dest, p, (k - 1) as nat);
        }
    }
}

/// The steps between two nodes of a ring are fewer than its nodes.
pub proof fn lemma_distancia_menor(a: int, b: int, n: int)
    requires
        0 <= a < n,
        0 <= b < n,
    ensures
        0 <= distancia(a, b, n) < n,
        a == b ==> distancia(a, b, n) == 0,
{
    lemma_mod_simples(b - a, n);
}

/// Routing terminates at the destination: in a ring of `2^p` nodes a request
/// reaches any node from any node in at most `p` hops.
pub proof fn lemma_rota_chega(cur: int, dest: int, p: nat)
    requires
        0 <= cur < pot2(p),
        0 <= dest < pot2(p),
    ensures
        rota(cur, dest, p, p) == dest,
{
    lemma_pot2_positiva(p);
    if cur != dest {
        lemma_mod_simples(dest - cur, pot2(p));
    }
    lemma_rota_em_k(cur, dest, p, p);
}

/// The powers of two: `2^0` is one and each next power is twice the one
/// before.
pub proof fn lemma_potencias_de_dois(e: nat)
    ensures
        pot2(0) == 1,
        pot2(e + 1) == 2 * pot2(e),
{
}

/// The owner of a key is its byte sum reduced around the ring, one byte at a
/// time: the empty key belongs to node 0, and appending the byte `b` moves
/// the owner `b` nodes forward around the ring of `2^p` nodes.
pub proof fn lemma_dono_byte_a_byte(s: Seq<u8>, b: u8, p: nat)
    ensures
        no_da_chave(Seq::<u8>::empty(), p) == 0,
        no_da_chave(s.push(b), p) == (no_da_chave(s, p) + b) % pot2(p),
        0 <= no_da_chave(s, p) < pot2(p),
{
    lemma_pot2_positiva(p);
    let n = pot2(p);
    vstd::arithmetic::div_mod::lemma_small_mod(0, n as nat);
    assert(s.push(b).drop_last() =~= s);
    assert(soma_bytes(s.push(b)) == soma_bytes(s) + b);
    vstd::arithmetic::div_mod::lemma_add_mod_noop_right(b as int, soma_bytes(s), n);
    vstd::arithmetic::div_mod::lemma_mod_bound(soma_bytes(s), n);
}

/// From a node of the ring that is not the destination, a request jumps by
/// the largest power of two `2^j` that is no more than the steps forward to
/// the destination; at the destination itself it jumps by one.
pub proof fn lemma_proximo_maior_salto(cur: int, dest: int, p: nat, j: nat)
    requires
        0 <= cur < pot2(p),
        0 <= dest < pot2(p),
        ({
            let passos = if cur <= dest {
                dest - cur
            } else {
                dest - cur + pot2(p)
            };
            cur != dest ==> pot2(j) <= passos < 2 * pot2(j)
        }),
    ensures
        cur != dest ==> proximo(dest, cur, p) == (cur + pot2(j)) % pot2(p),
        cur == dest ==> proximo(dest, cur, p) == (cur + 1) % pot2(p),
{
    lemma_pot2_positiva(p);
    let n = pot2(p);
    let d = alvo(dest, cur, n) - cur;
    if cur == dest {
        if p == 0 {
            assert(pot2(0) == 1);
            assert(cur == 0);
            assert((cur + 1) % pot2(p) == 0);
        }
        assert(d == 0);
        assert(expoente(0, p) == 0) by {
            lemma_expoente_zero(p);
        }
    } else {
        assert(p >= 1) by {
            if p == 0 {
                assert(pot2(0) == 1);
            }
        }
        lemma_expoente_intervalo(d, p);
        let e = expoente(d, p);
        if j < e {
            lemma_pot2_cresce(j + 1, e);
        } else if e < j {
            lemma_pot2_cresce(e + 1, j);
        }
    }
}

proof fn lemma_expoente_zero(p: nat)
    ensures
        expoente(0, p) == 0,
    decreases p,
{
    if p > 1 {
        lemma_pot2_positiva((p - 1) as nat);
        lemma_expoente_zero((p - 1) as nat);
    }
}

} // verus!
