//! A ring of nodes that shares one key-value table: each key belongs to the
//! node given by the sum of its bytes modulo the ring size, requests travel
//! around the ring by power-of-two jumps, and the owning node stores values and
//! answers lookups, holding back those that arrive before the value.

pub mod anel;
pub mod texto;
pub mod decimal;
pub mod tabela;
pub mod no;
pub mod disthash;
