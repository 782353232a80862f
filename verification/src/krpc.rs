//! The KRPC transaction engine: collision-free transaction identifiers,
//! outstanding-request tracking, message construction for outbound queries,
//! and the dispatch of inbound datagrams. The engine is a pure state machine:
//! the socket work around it hands it datagrams and sends what it returns.

use vstd::prelude::*;

use crate::codec::decode_msg_lenient;
use crate::codec::enc_msg;
use crate::codec::encode_msg;
use crate::dht::copy_bytes;
use crate::dht::upsert;
use crate::dht::IpPort;
use crate::dht::MainlineDHT;
use crate::dht::Node;
use crate::dht::NodeId;
use crate::dht::NodeV;
use crate::dht::ID_BYTES;
use crate::model::ArgsV;
use crate::model::Arguments;
use crate::model::Errors;
use crate::model::Message;
use crate::model::MsgV;
use crate::model::RetV;
use crate::model::Returns;
use crate::model::Type;
use crate::model::TypeV;
use crate::secure::derive_node_id;
use crate::secure::derived_id;

verus! {

/// A 2-byte transaction identifier, unique among outstanding transactions.
#[derive(PartialEq, Eq, Structural, Clone, Copy, Debug)]
pub struct TxId(pub u8, pub u8);

/// Which query an outstanding transaction was sent for; an inbound response
/// is handled according to this, not its own shape.
#[derive(PartialEq, Eq, Structural, Clone, Copy, Debug)]
pub enum QueryKind {
    Ping,
    FindNode,
    GetPeers,
    AnnouncePeer,
}

/// One outstanding transaction: its identifier, the remote address the query
/// went to, and the query kind.
#[derive(PartialEq, Eq, Structural, Clone, Copy, Debug)]
pub struct TxEntry {
    pub txid: TxId,
    pub addr: IpPort,
    pub kind: QueryKind,
}

/// A transaction identifier read as a number, which orders the table.
pub open spec fn txn(t: TxId) -> int {
    (t.0 as int) * 256 + (t.1 as int)
}

/// Equal numbers mean equal identifiers.
pub proof fn lemma_txn_inj(a: TxId, b: TxId)
    requires
        txn(a) == txn(b),
    ensures
        a == b,
{
    assert(a.0 == b.0 && a.1 == b.1) by (nonlinear_arith)
        requires
            (a.0 as int) * 256 + (a.1 as int) == (b.0 as int) * 256 + (b.1 as int),
            a.1 < 256,
            b.1 < 256,
    ;
}

/// The table holds its entries in strictly ascending identifier order.
pub open spec fn tx_wf(s: Seq<TxEntry>) -> bool {
    forall|i: int, j: int|
        0 <= i < j < s.len() ==> txn((#[trigger] s[i]).txid) < txn((#[trigger] s[j]).txid)
}

/// How many entries have an identifier numerically below `n`.
pub open spec fn tx_lb(s: Seq<TxEntry>, n: int) -> int
    decreases s.len(),
{
    if s.len() == 0 {
        0
    } else if txn(s[0].txid) < n {
        1 + tx_lb(s.subrange(1, s.len() as int), n)
    } else {
        0
    }
}

/// Whether the table holds an entry for `t`.
pub open spec fn tx_has(s: Seq<TxEntry>, t: TxId) -> bool {
    let i = tx_lb(s, txn(t));
    i < s.len() && s[i].txid == t
}

/// The entry the table holds for `t`, where one exists.
pub open spec fn tx_get(s: Seq<TxEntry>, t: TxId) -> TxEntry {
    s[tx_lb(s, txn(t))]
}

pub proof fn lemma_tx_lb_props(s: Seq<TxEntry>, n: int)
    requires
        tx_wf(s),
    ensures
        0 <= tx_lb(s, n) <= s.len(),
        forall|j: int| 0 <= j < tx_lb(s, n) ==> txn((#[trigger] s[j]).txid) < n,
        forall|j: int| tx_lb(s, n) <= j < s.len() ==> txn((#[trigger] s[j]).txid) >= n,
    decreases s.len(),
{
    if s.len() == 0 {
    } else {
        let tail = s.subrange(1, s.len() as int);
        assert(tx_wf(tail)) by {
            assert forall|i: int, j: int| 0 <= i < j < tail.len() implies txn(
                (#[trigger] tail[i]).txid,
            ) < txn((#[trigger] tail[j]).txid) by {
                assert(tail[i] == s[i + 1]);
                assert(tail[j] == s[j + 1]);
            }
        }
        lemma_tx_lb_props(tail, n);
        if txn(s[0].txid) < n {
            assert forall|j: int| 0 <= j < tx_lb(s, n) implies txn((#[trigger] s[j]).txid) < n by {
                if j >= 1 {
                    assert(s[j] == tail[j - 1]);
                }
            }
            assert forall|j: int| tx_lb(s, n) <= j < s.len() implies txn((#[trigger] s[j]).txid)
                >= n by {
                assert(s[j] == tail[j - 1]);
            }
        } else {
            assert forall|j: int| 0 <= j < s.len() implies txn((#[trigger] s[j]).txid) >= n by {
                if j > 0 {
                    assert(txn(s[0].txid) < txn(s[j].txid));
                }
            }
        }
    }
}

/// The position characterized by a scan is the lower bound.
pub proof fn lemma_tx_lb_is(s: Seq<TxEntry>, n: int, i: int)
    requires
        tx_wf(s),
        0 <= i <= s.len(),
        forall|j: int| 0 <= j < i ==> txn((#[trigger] s[j]).txid) < n,
        i < s.len() ==> txn(s[i].txid) >= n,
    ensures
        tx_lb(s, n) == i,
{
    lemma_tx_lb_props(s, n);
    if tx_lb(s, n) < i {
        assert(txn(s[tx_lb(s, n)].txid) < n);
        assert(txn(s[tx_lb(s, n)].txid) >= n);
    }
    if tx_lb(s, n) > i {
        assert(txn(s[i].txid) < n);
    }
}

/// What inserting a fresh entry does: it appears, nothing else moves, the
/// table stays sorted and grows by one.
#[verifier::rlimit(100)]
#[verifier::spinoff_prover]
pub proof fn lemma_tx_insert_props(s: Seq<TxEntry>, e: TxEntry)
    requires
        tx_wf(s),
        !tx_has(s, e.txid),
    ensures
        tx_wf(s.insert(tx_lb(s, txn(e.txid)), e)),
        tx_has(s.insert(tx_lb(s, txn(e.txid)), e), e.txid),
        tx_get(s.insert(tx_lb(s, txn(e.txid)), e), e.txid) == e,
        s.insert(tx_lb(s, txn(e.txid)), e).len() == s.len() + 1,
        forall|k: TxId|
            k != e.txid ==> (#[trigger] tx_has(s.insert(tx_lb(s, txn(e.txid)), e), k) <==> tx_has(
                s,
                k,
            )),
        forall|k: TxId|
            k != e.txid && tx_has(s, k) ==> #[trigger] tx_get(s.insert(tx_lb(s, txn(e.txid)), e), k)
                == tx_get(s, k),
{
    let n = txn(e.txid);
    let i = tx_lb(s, n);
    lemma_tx_lb_props(s, n);
    let u = s.insert(i, e);
    assert forall|x: int| i <= x < s.len() implies txn((#[trigger] s[x]).txid) > n by {
        if txn(s[x].txid) == n {
            lemma_txn_inj(s[x].txid, e.txid);
            assert(tx_lb(s, n) == x) by {
                lemma_tx_lb_is(s, n, x);
            }
        }
    }
    assert(tx_wf(u)) by {
        assert forall|x: int, y: int| 0 <= x < y < u.len() implies txn((#[trigger] u[x]).txid)
            < txn((#[trigger] u[y]).txid) by {
            if x < i {
                assert(u[x] == s[x]);
            } else if x == i {
                assert(u[x] == e);
            } else {
                assert(u[x] == s[x - 1]);
            }
            if y < i {
                assert(u[y] == s[y]);
            } else if y == i {
                assert(u[y] == e);
            } else {
                assert(u[y] == s[y - 1]);
            }
        }
    }
    assert(tx_lb(u, n) == i) by {
        assert forall|j: int| 0 <= j < i implies txn((#[trigger] u[j]).txid) < n by {
            assert(u[j] == s[j]);
        }
        lemma_tx_lb_is(u, n, i);
    }
    assert forall|k: TxId| k != e.txid implies (#[trigger] tx_has(u, k) <==> tx_has(s, k)) && (
    tx_has(s, k) ==> tx_get(u, k) == tx_get(s, k)) by {
        let kn = txn(k);
        lemma_tx_lb_props(s, kn);
        lemma_tx_lb_props(u, kn);
        let li = tx_lb(s, kn);
        if tx_has(s, k) {
            // the entry sits at `li` in `s`; in `u` it sits at `li` or one later
            if li < i {
                assert(u[li] == s[li]);
                lemma_tx_lb_is(u, kn, li);
            } else {
                assert(u[li + 1] == s[li]);
                assert forall|j: int| 0 <= j < li + 1 implies txn((#[trigger] u[j]).txid) < kn by {
                    if j < i {
                        assert(u[j] == s[j]);
                    } else if j == i {
                        assert(txn(e.txid) != kn) by {
                            if txn(e.txid) == kn {
                                lemma_txn_inj(e.txid, k);
                            }
                        }
                        assert(txn(s[li].txid) == kn);
                        assert(txn(u[j].txid) == n);
                        if n > kn {
                            assert(txn(s[i].txid) >= n > kn);
                            assert(txn(s[li].txid) >= txn(s[i].txid) || li < i);
                            assert(false);
                        }
                    } else {
                        assert(u[j] == s[j - 1]);
                    }
                }
                lemma_tx_lb_is(u, kn, li + 1);
            }
        } else {
            if tx_has(u, k) {
                let ui = tx_lb(u, kn);
                assert(u[ui].txid == k);
                if ui < i {
                    assert(s[ui].txid == k);
                    lemma_tx_lb_is(s, kn, ui);
                } else if ui == i {
                    assert(u[ui] == e);
                } else {
                    assert(s[ui - 1].txid == k);
                    assert forall|j: int| 0 <= j < ui - 1 implies txn((#[trigger] s[j]).txid)
                        < kn by {
                        if j < i {
                            assert(u[j] == s[j]);
                            assert(j < ui);
                        } else {
                            assert(u[j + 1] == s[j]);
                            assert(j + 1 < ui);
                        }
                    }
                    lemma_tx_lb_is(s, kn, ui - 1);
                }
            }
        }
    }
    assert forall|k: TxId| k != e.txid implies (#[trigger] tx_has(u, k) <==> tx_has(s, k)) by {
        assert(tx_has(u, k) == tx_has(u, k));
    }
    assert forall|k: TxId| k != e.txid && tx_has(s, k) implies #[trigger] tx_get(u, k) == tx_get(
        s,
        k,
    ) by {
        let h = tx_has(u, k);
        assert(h <==> tx_has(s, k));
    }
}

/// What removing the entry for `t` does: it is gone, nothing else moves, the
/// table stays sorted and shrinks by one.
#[verifier::rlimit(100)]
#[verifier::spinoff_prover]
pub proof fn lemma_tx_remove_props(s: Seq<TxEntry>, t: TxId)
    requires
        tx_wf(s),
        tx_has(s, t),
    ensures
        tx_wf(s.remove(tx_lb(s, txn(t)))),
        !tx_has(s.remove(tx_lb(s, txn(t))), t),
        s.remove(tx_lb(s, txn(t))).len() == s.len() - 1,
        forall|k: TxId|
            k != t ==> (#[trigger] tx_has(s.remove(tx_lb(s, txn(t))), k) <==> tx_has(s, k)),
        forall|k: TxId|
            k != t && tx_has(s, k) ==> #[trigger] tx_get(s.remove(tx_lb(s, txn(t))), k) == tx_get(
                s,
                k,
            ),
{
    let n = txn(t);
    let i = tx_lb(s, n);
    lemma_tx_lb_props(s, n);
    let u = s.remove(i);
    assert(tx_wf(u)) by {
        assert forall|x: int, y: int| 0 <= x < y < u.len() implies txn((#[trigger] u[x]).txid)
            < txn((#[trigger] u[y]).txid) by {
            if x < i {
                assert(u[x] == s[x]);
            } else {
                assert(u[x] == s[x + 1]);
            }
            if y < i {
                assert(u[y] == s[y]);
            } else {
                assert(u[y] == s[y + 1]);
            }
        }
    }
    assert(!tx_has(u, t)) by {
        if tx_has(u, t) {
            let ui = tx_lb(u, n);
            lemma_tx_lb_props(u, n);
            assert(u[ui].txid == t);
            if ui < i {
                assert(u[ui] == s[ui]);
                assert(txn(s[ui].txid) < n);
                assert(txn(t) == n);
            } else {
                assert(u[ui] == s[ui + 1]);
                assert(txn(s[i].txid) == n) by {
                    lemma_txn_inj(s[i].txid, t);
                }
                assert(txn(s[ui + 1].txid) > txn(s[i].txid));
                assert(txn(t) == n);
            }
        }
    }
    assert forall|k: TxId| k != t implies (#[trigger] tx_has(u, k) <==> tx_has(s, k)) && (tx_has(
        s,
        k,
    ) ==> tx_get(u, k) == tx_get(s, k)) by {
        let kn = txn(k);
        lemma_tx_lb_props(s, kn);
        lemma_tx_lb_props(u, kn);
        if tx_has(s, k) {
            let li = tx_lb(s, kn);
            assert(li != i) by {
                if li == i {
                    lemma_txn_inj(s[i].txid, k);
                }
            }
            if li < i {
                assert(u[li] == s[li]);
                assert forall|j: int| 0 <= j < li implies txn((#[trigger] u[j]).txid) < kn by {
                    assert(u[j] == s[j]);
                }
                lemma_tx_lb_is(u, kn, li);
            } else {
                assert(u[li - 1] == s[li]);
                assert forall|j: int| 0 <= j < li - 1 implies txn((#[trigger] u[j]).txid) < kn by {
                    if j < i {
                        assert(u[j] == s[j]);
                    } else {
                        assert(u[j] == s[j + 1]);
                        assert(j + 1 < li);
                    }
                }
                lemma_tx_lb_is(u, kn, li - 1);
            }
        } else {
            if tx_has(u, k) {
                let ui = tx_lb(u, kn);
                assert(u[ui].txid == k);
                if ui < i {
                    assert(s[ui].txid == k);
                    lemma_tx_lb_is(s, kn, ui);
                } else {
                    assert(s[ui + 1].txid == k);
                    assert forall|j: int| 0 <= j < ui + 1 implies txn((#[trigger] s[j]).txid)
                        < kn by {
                        if j < i {
                            assert(u[j] == s[j]);
                            assert(j < ui);
                        } else if j == i {
                            assert(txn(s[i].txid) == n);
                            assert(txn(u[ui].txid) == kn);
                            if n >= kn {
                                assert(txn(s[ui + 1].txid) > txn(s[i].txid));
                            }
                        } else {
                            assert(u[j - 1] == s[j]);
                            assert(j - 1 < ui);
                        }
                    }
                    lemma_tx_lb_is(s, kn, ui + 1);
                }
            }
        }
    }
    assert forall|k: TxId| k != t implies (#[trigger] tx_has(u, k) <==> tx_has(s, k)) by {
        assert(tx_has(u, k) == tx_has(u, k));
    }
    assert forall|k: TxId| k != t && tx_has(s, k) implies #[trigger] tx_get(u, k) == tx_get(
        s,
        k,
    ) by {
        let h = tx_has(u, k);
        assert(h <==> tx_has(s, k));
    }
}


/// A datagram the engine asks the transport to send.
#[derive(Debug)]
pub struct Outgoing {
    pub dest: IpPort,
    pub txid: TxId,
    pub bytes: Vec<u8>,
}

/// Why the engine rejected a datagram or refused to send. Malformed
/// datagrams, unknown correlation tokens and protocol errors are recoverable:
/// the caller reports them and reads the next datagram.
#[derive(Debug)]
pub enum KrpcError {
    /// Every transaction identifier is outstanding.
    TableFull,
    /// The datagram is not a well-formed message.
    Decode,
    /// A response's transaction id is not two bytes.
    BadTransactionId,
    /// A response's transaction id was never issued, or was already resolved.
    UnknownTransaction,
    /// The handling this message asks for is an explicit named gap.
    NotImplemented,
    /// A response's shape does not match the query kind it answers.
    Mismatch,
    /// The peer reported an error; its code and text are carried along.
    Protocol(Errors),
}

/// The engine: the write-once self identifier and the outstanding
/// transactions, kept in identifier order.
#[derive(Debug)]
pub struct KRPC {
    pub id: Option<NodeId>,
    pub tx: Vec<TxEntry>,
}

/// The identifier bytes of an optional self identifier.
pub open spec fn id_v(id: Option<NodeId>) -> Option<Seq<u8>> {
    match id {
        Option::Some(n) => Option::Some(n@),
        Option::None => Option::None,
    }
}

/// Twenty zero bytes: the placeholder identifier before one is derived.
pub open spec fn zero20() -> Seq<u8> {
    Seq::new(ID_BYTES as nat, |i: int| 0u8)
}

/// The identifier a query carries: the self identifier if known, else zeros.
pub open spec fn self_id_bytes(id: Option<Seq<u8>>) -> Seq<u8> {
    match id {
        Option::Some(s) => s,
        Option::None => zero20(),
    }
}

/// A transaction identifier as the byte string it takes on the wire.
pub open spec fn txid_seq(t: TxId) -> Seq<u8> {
    seq![t.0, t.1]
}

/// The `ping` query the engine sends.
pub open spec fn ping_msg(t: TxId, id: Seq<u8>) -> MsgV {
    MsgV { t: txid_seq(t), mtype: TypeV::Query { a: ArgsV::Ping { id } } }
}

/// The `find_node` query the engine sends.
pub open spec fn find_node_msg(t: TxId, id: Seq<u8>, target: Seq<u8>) -> MsgV {
    MsgV { t: txid_seq(t), mtype: TypeV::Query { a: ArgsV::FindNode { id, target } } }
}

/// Relies on rand::random: one uniformly drawn byte; nothing is promised of
/// the value, and every outcome is handled.
#[verifier::external_body]
fn random_byte() -> u8 {
    rand::random::<u8>()
}

impl KRPC {
    /// The self identifier's bytes, as specifications see them.
    pub open spec fn idv(&self) -> Option<Seq<u8>> {
        id_v(self.id)
    }

    /// The transaction table is sorted and the identifier, if set, is full
    /// width.
    pub open spec fn wf(&self) -> bool {
        tx_wf(self.tx@) && (self.id matches Some(n) ==> n.wf())
    }

    /// A fresh engine: no self identifier, no outstanding transactions.
    pub fn new() -> (r: Self)
        ensures
            r.wf(),
            r.tx@ == Seq::<TxEntry>::empty(),
            r.idv() is None,
    {
        let r = KRPC { id: Option::None, tx: Vec::new() };
        proof {
            assert(r.tx@ =~= Seq::<TxEntry>::empty());
        }
        r
    }

    /// The position of identifier number `n` in the sorted table.
    fn tx_lower_bound(&self, n: u32) -> (r: usize)
        requires
            self.wf(),
        ensures
            r == tx_lb(self.tx@, n as int),
    {
        let mut i: usize = 0;
        while i < self.tx.len()
            invariant
                0 <= i <= self.tx@.len(),
                self.wf(),
                forall|j: int| 0 <= j < i ==> txn((#[trigger] self.tx@[j]).txid) < n,
            decreases self.tx@.len() - i,
        {
            let e = self.tx[i];
            let v: u32 = (e.txid.0 as u32) * 256 + (e.txid.1 as u32);
            if v >= n {
                proof {
                    lemma_tx_lb_is(self.tx@, n as int, i as int);
                }
                return i;
            }
            i = i + 1;
        }
        proof {
            lemma_tx_lb_is(self.tx@, n as int, i as int);
        }
        i
    }

    /// Whether a transaction is outstanding.
    pub fn is_outstanding(&self, txid: TxId) -> (r: bool)
        requires
            self.wf(),
        ensures
            r == tx_has(self.tx@, txid),
    {
        let n: u32 = (txid.0 as u32) * 256 + (txid.1 as u32);
        let i = self.tx_lower_bound(n);
        i < self.tx.len() && self.tx[i].txid == txid
    }

    /// How many transactions are outstanding.
    pub fn outstanding_len(&self) -> (r: usize)
        ensures
            r == self.tx@.len(),
    {
        self.tx.len()
    }

    /// Records a transaction under `txid` if and only if `txid` is free; no
    /// other entry changes either way.
    pub fn try_reserve(&mut self, txid: TxId, addr: IpPort, kind: QueryKind) -> (r: bool)
        requires
            old(self).wf(),
        ensures
            final(self).wf(),
            final(self).id == old(self).id,
            r <==> !tx_has(old(self).tx@, txid),
            !r ==> final(self).tx@ == old(self).tx@,
            r ==> {
                &&& final(self).tx@ == old(self).tx@.insert(
                    tx_lb(old(self).tx@, txn(txid)),
                    (TxEntry { txid, addr, kind }),
                )
                &&& tx_has(final(self).tx@, txid)
                &&& tx_get(final(self).tx@, txid) == (TxEntry { txid, addr, kind })
                &&& final(self).tx@.len() == old(self).tx@.len() + 1
                &&& forall|k: TxId|
                    k != txid ==> (#[trigger] tx_has(final(self).tx@, k) <==> tx_has(
                        old(self).tx@,
                        k,
                    ))
                &&& forall|k: TxId|
                    k != txid && tx_has(old(self).tx@, k) ==> #[trigger] tx_get(
                        final(self).tx@,
                        k,
                    ) == tx_get(old(self).tx@, k)
            },
    {
        let n: u32 = (txid.0 as u32) * 256 + (txid.1 as u32);
        let i = self.tx_lower_bound(n);
        if i < self.tx.len() && self.tx[i].txid == txid {
            return false;
        }
        let e = TxEntry { txid, addr, kind };
        proof {
            lemma_tx_lb_props(self.tx@, n as int);
            lemma_tx_insert_props(self.tx@, e);
        }
        self.tx.insert(i, e);
        true
    }

    /// Looks up and removes the transaction for `txid`: succeeds if and only
    /// if it was outstanding; no other entry changes either way.
    pub fn take_tx(&mut self, txid: TxId) -> (r: Option<TxEntry>)
        requires
            old(self).wf(),
        ensures
            final(self).wf(),
            final(self).id == old(self).id,
            match r {
                Option::Some(e) => {
                    &&& tx_has(old(self).tx@, txid)
                    &&& e == tx_get(old(self).tx@, txid)
                    &&& final(self).tx@ == old(self).tx@.remove(tx_lb(old(self).tx@, txn(txid)))
                    &&& !tx_has(final(self).tx@, txid)
                    &&& final(self).tx@.len() == old(self).tx@.len() - 1
                    &&& forall|k: TxId|
                        k != txid ==> (#[trigger] tx_has(final(self).tx@, k) <==> tx_has(
                            old(self).tx@,
                            k,
                        ))
                    &&& forall|k: TxId|
                        k != txid && tx_has(old(self).tx@, k) ==> #[trigger] tx_get(
                            final(self).tx@,
                            k,
                        ) == tx_get(old(self).tx@, k)
                },
                Option::None => !tx_has(old(self).tx@, txid) && final(self).tx@ == old(self).tx@,
            },
    {
        let n: u32 = (txid.0 as u32) * 256 + (txid.1 as u32);
        let i = self.tx_lower_bound(n);
        if i < self.tx.len() && self.tx[i].txid == txid {
            proof {
                lemma_tx_remove_props(self.tx@, txid);
            }
            let e = self.tx.remove(i);
            Option::Some(e)
        } else {
            Option::None
        }
    }

    /// Finds a free transaction identifier; fails only when every identifier
    /// is outstanding.
    fn fresh_txid(&self) -> (r: Option<TxId>)
        requires
            self.wf(),
        ensures
            match r {
                Option::Some(t) => !tx_has(self.tx@, t),
                Option::None => self.tx@.len() >= 65536,
            },
    {
        let mut i: usize = 0;
        while i < self.tx.len()
            invariant
                0 <= i <= self.tx@.len(),
                self.wf(),
                forall|j: int| 0 <= j < i ==> txn((#[trigger] self.tx@[j]).txid) == j,
            decreases self.tx@.len() - i,
        {
            let e = self.tx[i];
            let v: usize = (e.txid.0 as usize) * 256 + (e.txid.1 as usize);
            if v != i {
                proof {
                    if i > 0 {
                        assert(txn(self.tx@[i - 1].txid) < txn(self.tx@[i as int].txid));
                    }
                    assert(txn(self.tx@[i as int].txid) > i);
                }
                let t = TxId((i / 256) as u8, (i % 256) as u8);
                proof {
                    assert(txn(t) == i) by (nonlinear_arith)
                        requires
                            t.0 == (i as int) / 256,
                            t.1 == (i as int) % 256,
                            0 <= i < 65536,
                    ;
                    assert forall|j: int| 0 <= j < self.tx@.len() implies txn(
                        (#[trigger] self.tx@[j]).txid,
                    ) != txn(t) by {
                        if j >= i {
                            assert(txn(self.tx@[i as int].txid) <= txn(self.tx@[j].txid));
                        }
                    }
                    if tx_has(self.tx@, t) {
                        lemma_tx_lb_props(self.tx@, txn(t));
                        assert(self.tx@[tx_lb(self.tx@, txn(t))].txid == t);
                    }
                }
                return Option::Some(t);
            }
            proof {
                assert(v < 65536);
            }
            i = i + 1;
        }
        if i >= 65536 {
            return Option::None;
        }
        let t = TxId((i / 256) as u8, (i % 256) as u8);
        proof {
            assert(txn(t) == i) by (nonlinear_arith)
                requires
                    t.0 == (i as int) / 256,
                    t.1 == (i as int) % 256,
                    0 <= i < 65536,
            ;
            assert forall|j: int| 0 <= j < self.tx@.len() implies txn(
                (#[trigger] self.tx@[j]).txid,
            ) != txn(t) by {}
            if tx_has(self.tx@, t) {
                lemma_tx_lb_props(self.tx@, txn(t));
                assert(self.tx@[tx_lb(self.tx@, txn(t))].txid == t);
            }
        }
        Option::Some(t)
    }

    /// The identifier bytes this node currently sends: its derived identifier
    /// if set, else the all-zero placeholder.
    fn self_id_vec(&self) -> (r: Vec<u8>)
        requires
            self.wf(),
        ensures
            r@ == self_id_bytes(self.idv()),
            r@.len() == ID_BYTES,
    {
        match &self.id {
            Option::Some(n) => copy_bytes(&n.0),
            Option::None => {
                let mut v: Vec<u8> = Vec::new();
                let mut i: usize = 0;
                while i < ID_BYTES
                    invariant
                        0 <= i <= ID_BYTES,
                        v@ == zero20().subrange(0, i as int),
                    decreases ID_BYTES - i,
                {
                    v.push(0);
                    proof {
                        assert(v@ =~= zero20().subrange(0, i + 1));
                    }
                    i = i + 1;
                }
                proof {
                    assert(v@ =~= zero20());
                }
                v
            },
        }
    }

    /// Reserves a fresh transaction identifier for a `ping` to `ip_port` and
    /// builds the query's bytes; fails exactly when every identifier is
    /// outstanding. The datagram carries the self identifier, or zeros while
    /// none is derived.
    pub fn ping(&mut self, ip_port: IpPort) -> (r: Result<Outgoing, KrpcError>)
        requires
            old(self).wf(),
        ensures
            final(self).wf(),
            final(self).id == old(self).id,
            match r {
                Result::Ok(out) => {
                    &&& old(self).tx@.len() < 65536
                    &&& !tx_has(old(self).tx@, out.txid)
                    &&& final(self).tx@ == old(self).tx@.insert(
                        tx_lb(old(self).tx@, txn(out.txid)),
                        (TxEntry { txid: out.txid, addr: ip_port, kind: QueryKind::Ping }),
                    )
                    &&& tx_has(final(self).tx@, out.txid)
                    &&& tx_get(final(self).tx@, out.txid) == (TxEntry {
                        txid: out.txid,
                        addr: ip_port,
                        kind: QueryKind::Ping,
                    })
                    &&& final(self).tx@.len() == old(self).tx@.len() + 1
                    &&& forall|k: TxId|
                        k != out.txid ==> (#[trigger] tx_has(final(self).tx@, k) <==> tx_has(
                            old(self).tx@,
                            k,
                        ))
                    &&& forall|k: TxId|
                        k != out.txid && tx_has(old(self).tx@, k) ==> #[trigger] tx_get(
                            final(self).tx@,
                            k,
                        ) == tx_get(old(self).tx@, k)
                    &&& out.dest == ip_port
                    &&& out.bytes@ == enc_msg(ping_msg(out.txid, self_id_bytes(old(self).idv())))
                },
                Result::Err(e) => {
                    &&& e matches KrpcError::TableFull
                    &&& old(self).tx@.len() >= 65536
                    &&& final(self).tx@ == old(self).tx@
                },
            },
    {
        if self.tx.len() >= 65536 {
            return Result::Err(KrpcError::TableFull);
        }
        let mut t = TxId(random_byte(), random_byte());
        if !self.try_reserve(t, ip_port, QueryKind::Ping) {
            t = match self.fresh_txid() {
                Option::Some(f) => f,
                Option::None => {
                    proof {
                        assert(false);
                    }
                    return Result::Err(KrpcError::TableFull);
                },
            };
            if !self.try_reserve(t, ip_port, QueryKind::Ping) {
                proof {
                    assert(false);
                }
                return Result::Err(KrpcError::TableFull);
            }
        }
        let idb = self.self_id_vec();
        let tv: Vec<u8> = vec![t.0, t.1];
        proof {
            assert(tv@ =~= txid_seq(t));
        }
        let msg = Message { t: tv, mtype: Type::Query { a: Arguments::Ping { id: NodeId(idb) } } };
        proof {
            assert(msg@.wf());
            assert(msg@ == ping_msg(t, self_id_bytes(old(self).idv())));
        }
        let bytes = encode_msg(&msg);
        Result::Ok(Outgoing { dest: ip_port, txid: t, bytes })
    }

    /// Reserves a fresh transaction identifier for a `find_node` toward
    /// `target` and builds the query's bytes; fails exactly when every
    /// identifier is outstanding.
    pub fn find_node(&mut self, ip_port: IpPort, target: &NodeId) -> (r: Result<
        Outgoing,
        KrpcError,
    >)
        requires
            old(self).wf(),
            target.wf(),
        ensures
            final(self).wf(),
            final(self).id == old(self).id,
            match r {
                Result::Ok(out) => {
                    &&& old(self).tx@.len() < 65536
                    &&& !tx_has(old(self).tx@, out.txid)
                    &&& final(self).tx@ == old(self).tx@.insert(
                        tx_lb(old(self).tx@, txn(out.txid)),
                        (TxEntry { txid: out.txid, addr: ip_port, kind: QueryKind::FindNode }),
                    )
                    &&& tx_has(final(self).tx@, out.txid)
                    &&& tx_get(final(self).tx@, out.txid) == (TxEntry {
                        txid: out.txid,
                        addr: ip_port,
                        kind: QueryKind::FindNode,
                    })
                    &&& final(self).tx@.len() == old(self).tx@.len() + 1
                    &&& forall|k: TxId|
                        k != out.txid ==> (#[trigger] tx_has(final(self).tx@, k) <==> tx_has(
                            old(self).tx@,
                            k,
                        ))
                    &&& forall|k: TxId|
                        k != out.txid && tx_has(old(self).tx@, k) ==> #[trigger] tx_get(
                            final(self).tx@,
                            k,
                        ) == tx_get(old(self).tx@, k)
                    &&& out.dest == ip_port
                    &&& out.bytes@ == enc_msg(
                        find_node_msg(out.txid, self_id_bytes(old(self).idv()), target@),
                    )
                },
                Result::Err(e) => {
                    &&& e matches KrpcError::TableFull
                    &&& old(self).tx@.len() >= 65536
                    &&& final(self).tx@ == old(self).tx@
                },
            },
    {
        if self.tx.len() >= 65536 {
            return Result::Err(KrpcError::TableFull);
        }
        let mut t = TxId(random_byte(), random_byte());
        if !self.try_reserve(t, ip_port, QueryKind::FindNode) {
            t = match self.fresh_txid() {
                Option::Some(f) => f,
                Option::None => {
                    proof {
                        assert(false);
                    }
                    return Result::Err(KrpcError::TableFull);
                },
            };
            if !self.try_reserve(t, ip_port, QueryKind::FindNode) {
                proof {
                    assert(false);
                }
                return Result::Err(KrpcError::TableFull);
            }
        }
        let idb = self.self_id_vec();
        let tv: Vec<u8> = vec![t.0, t.1];
        proof {
            assert(tv@ =~= txid_seq(t));
        }
        let msg = Message {
            t: tv,
            mtype: Type::Query {
                a: Arguments::FindNode { id: NodeId(idb), target: target.clone() },
            },
        };
        proof {
            assert(msg@.wf());
            assert(msg@ == find_node_msg(t, self_id_bytes(old(self).idv()), target@));
        }
        let bytes = encode_msg(&msg);
        Result::Ok(Outgoing { dest: ip_port, txid: t, bytes })
    }
}


/// Nothing observable changed: identifier, transactions, table and store.
pub open spec fn state_kept(pre: KRPC, post: KRPC, dpre: MainlineDHT, dpost: MainlineDHT) -> bool {
    &&& post.idv() == pre.idv()
    &&& post.tx@ == pre.tx@
    &&& dpost.tview() == dpre.tview()
    &&& dpost.sview() == dpre.sview()
}

/// How the self identifier moves when a response arrives: it is write-once,
/// and it is first derived when a response carries a 6-byte external-address
/// field while none is set; the random inputs are the derivation's.
pub open spec fn sec_post(pre_id: Option<Seq<u8>>, ip: Option<Seq<u8>>, post_id: Option<
    Seq<u8>,
>) -> bool {
    match pre_id {
        Option::Some(s) => post_id == pre_id,
        Option::None => match ip {
            Option::Some(v) => if v.len() == 6 {
                exists|seed: u8, r3: u8, tail: Seq<u8>|
                    tail.len() == 16 && post_id == Option::Some(
                        derived_id(v.subrange(0, 4), seed, r3, tail),
                    )
            } else {
                post_id is None
            },
            Option::None => post_id is None,
        },
    }
}

/// The address of the `j`th compact contact in a `nodes` string.
pub open spec fn chunk_addr(nodes: Seq<u8>, j: int) -> IpPort {
    IpPort {
        ip0: nodes[26 * j + 20],
        ip1: nodes[26 * j + 21],
        ip2: nodes[26 * j + 22],
        ip3: nodes[26 * j + 23],
        port: ((nodes[26 * j + 24] as int) * 256 + (nodes[26 * j + 25] as int)) as u16,
    }
}

/// What the fan-out after a `find_node` response leaves behind: one `ping`
/// datagram per decoded contact, its transaction recorded, and every
/// transaction that was outstanding before still outstanding unchanged.
pub open spec fn fanout_post(
    mid: Seq<TxEntry>,
    post_tx: Seq<TxEntry>,
    post_id: Option<Seq<u8>>,
    nodes: Seq<u8>,
    out: Seq<Outgoing>,
) -> bool {
    let count = nodes.len() as int / 26;
    &&& out.len() == count
    &&& post_tx.len() == mid.len() + count
    &&& forall|j: int| 0 <= j < count ==> (#[trigger] out[j]).dest == chunk_addr(nodes, j)
    &&& forall|j: int|
        0 <= j < count ==> (#[trigger] out[j]).bytes@ == enc_msg(
            ping_msg(out[j].txid, self_id_bytes(post_id)),
        )
    &&& forall|j: int|
        0 <= j < count ==> tx_has(post_tx, (#[trigger] out[j]).txid) && tx_get(
            post_tx,
            out[j].txid,
        ) == (TxEntry { txid: out[j].txid, addr: out[j].dest, kind: QueryKind::Ping })
    &&& forall|k: TxId|
        #[trigger] tx_has(mid, k) ==> tx_has(post_tx, k) && tx_get(post_tx, k) == tx_get(mid, k)
}

/// What one dispatched message does to the engine and the table.
pub open spec fn listen_post(
    pre: KRPC,
    post: KRPC,
    dpre: MainlineDHT,
    dpost: MainlineDHT,
    mv: MsgV,
    src: IpPort,
    r: Result<Vec<Outgoing>, KrpcError>,
) -> bool {
    match mv.mtype {
        TypeV::Query { a } => match a {
            ArgsV::Ping { id } => {
                &&& post.idv() == pre.idv()
                &&& post.tx@ == pre.tx@
                &&& dpost.sview() == dpre.sview()
                &&& dpost.tview() == upsert(dpre.tview(), (NodeV { id, ip_port: src }))
                &&& r matches Ok(out) && out@.len() == 0
            },
            _ => state_kept(pre, post, dpre, dpost) && r matches Err(KrpcError::NotImplemented),
        },
        TypeV::Error { code, msg } => {
            if mv.t.len() != 2 {
                state_kept(pre, post, dpre, dpost) && r matches Err(KrpcError::BadTransactionId)
            } else {
                let txid = TxId(mv.t[0], mv.t[1]);
                if !tx_has(pre.tx@, txid) {
                    state_kept(pre, post, dpre, dpost) && r matches Err(
                        KrpcError::UnknownTransaction,
                    )
                } else {
                    &&& post.idv() == pre.idv()
                    &&& dpost.tview() == dpre.tview()
                    &&& dpost.sview() == dpre.sview()
                    &&& post.tx@ == pre.tx@.remove(tx_lb(pre.tx@, txn(txid)))
                    &&& !tx_has(post.tx@, txid)
                    &&& r matches Err(KrpcError::Protocol(er)) && er.0 == code && er.1@ == msg
                }
            }
        },
        TypeV::Response { ip, r: rt } => {
            if mv.t.len() != 2 {
                state_kept(pre, post, dpre, dpost) && r matches Err(KrpcError::BadTransactionId)
            } else {
                let txid = TxId(mv.t[0], mv.t[1]);
                if !tx_has(pre.tx@, txid) {
                    state_kept(pre, post, dpre, dpost) && r matches Err(
                        KrpcError::UnknownTransaction,
                    )
                } else {
                    let entry = tx_get(pre.tx@, txid);
                    let mid = pre.tx@.remove(tx_lb(pre.tx@, txn(txid)));
                    &&& sec_post(pre.idv(), ip, post.idv())
                    &&& match entry.kind {
                        QueryKind::Ping => {
                            &&& post.tx@ == mid
                            &&& dpost.sview() == dpre.sview()
                            &&& match rt {
                                RetV::Ping { id } => {
                                    &&& dpost.tview() == upsert(
                                        dpre.tview(),
                                        (NodeV { id, ip_port: src }),
                                    )
                                    &&& r matches Ok(out) && out@.len() == 0
                                },
                                _ => dpost.tview() == dpre.tview() && r matches Err(
                                    KrpcError::Mismatch,
                                ),
                            }
                        },
                        QueryKind::FindNode => {
                            &&& dpost.tview() == dpre.tview()
                            &&& dpost.sview() == dpre.sview()
                            &&& match rt {
                                RetV::FindNode { id, nodes } => {
                                    if nodes.len() % 26 != 0 {
                                        post.tx@ == mid && r matches Err(KrpcError::Mismatch)
                                    } else if mid.len() + nodes.len() as int / 26 > 65536 {
                                        post.tx@ == mid && r matches Err(KrpcError::TableFull)
                                    } else {
                                        r matches Ok(out) && fanout_post(
                                            mid,
                                            post.tx@,
                                            post.idv(),
                                            nodes,
                                            out@,
                                        )
                                    }
                                },
                                _ => post.tx@ == mid && r matches Err(KrpcError::Mismatch),
                            }
                        },
                        _ => {
                            &&& post.tx@ == mid
                            &&& dpost.tview() == dpre.tview()
                            &&& dpost.sview() == dpre.sview()
                            &&& r matches Err(KrpcError::NotImplemented)
                        },
                    }
                }
            }
        },
    }
}

impl KRPC {
    /// Dispatches one inbound datagram. A malformed datagram is rejected
    /// without effect; an inbound `ping` query records the sender; a
    /// response or error is correlated by its transaction id and removed
    /// from the outstanding set exactly once. A response may first fix the
    /// self identifier from the observed external address and is then
    /// handled according to the query kind it answers: a `ping` records the
    /// sender, a `find_node` yields one follow-up `ping` per decoded compact
    /// contact. An error resolves its transaction and surfaces the peer's
    /// code and message.
    #[verifier::rlimit(100)]
    #[verifier::spinoff_prover]
    pub fn listen(&mut self, dht: &mut MainlineDHT, buf: &Vec<u8>, src: IpPort) -> (r: Result<
        Vec<Outgoing>,
        KrpcError,
    >)
        requires
            old(self).wf(),
            old(dht).wf(),
        ensures
            final(self).wf(),
            final(dht).wf(),
            r matches Err(KrpcError::Decode) ==> state_kept(
                *old(self),
                *final(self),
                *old(dht),
                *final(dht),
            ),
            forall|mv: MsgV|
                mv.wf() && buf@ == #[trigger] enc_msg(mv) ==> listen_post(
                    *old(self),
                    *final(self),
                    *old(dht),
                    *final(dht),
                    mv,
                    src,
                    r,
                ),
    {
        let m = match decode_msg_lenient(buf) {
            Option::None => {
                return Result::Err(KrpcError::Decode);
            },
            Option::Some(m) => m,
        };
        let ghost mv = m@;
        let Message { t, mtype } = m;
        match mtype {
            Type::Query { a } => {
                match a {
                    Arguments::Ping { id } => {
                        dht.insert_node(Node { id, ip_port: src });
                        Result::Ok(Vec::new())
                    },
                    _ => Result::Err(KrpcError::NotImplemented),
                }
            },
            Type::Error { e } => {
                if t.len() != 2 {
                    return Result::Err(KrpcError::BadTransactionId);
                }
                let txid = TxId(t[0], t[1]);
                match self.take_tx(txid) {
                    Option::None => Result::Err(KrpcError::UnknownTransaction),
                    Option::Some(_entry) => Result::Err(KrpcError::Protocol(e)),
                }
            },
            Type::Response { ip, r: rt } => {
                if t.len() != 2 {
                    return Result::Err(KrpcError::BadTransactionId);
                }
                let txid = TxId(t[0], t[1]);
                let entry = match self.take_tx(txid) {
                    Option::None => {
                        return Result::Err(KrpcError::UnknownTransaction);
                    },
                    Option::Some(e) => e,
                };
                let ghost mid = self.tx@;
                // the security extension: derive the self identifier once
                let mut already = true;
                match &self.id {
                    Option::Some(_) => {},
                    Option::None => {
                        already = false;
                    },
                }
                if !already {
                    match &ip {
                        Option::Some(v) => {
                            if v.len() == 6 {
                                let seed = random_byte();
                                let r3 = random_byte();
                                let mut tail: Vec<u8> = Vec::new();
                                let mut i: usize = 0;
                                while i < 16
                                    invariant
                                        0 <= i <= 16,
                                        tail@.len() == i,
                                    decreases 16 - i,
                                {
                                    tail.push(random_byte());
                                    i = i + 1;
                                }
                                let mut ip4: Vec<u8> = Vec::new();
                                ip4.push(v[0]);
                                ip4.push(v[1]);
                                ip4.push(v[2]);
                                ip4.push(v[3]);
                                proof {
                                    assert(ip4@ =~= v@.subrange(0, 4));
                                }
                                let nid = derive_node_id(&ip4, seed, r3, &tail);
                                self.id = Option::Some(nid);
                                proof {
                                    assert(sec_post(old(self).idv(), mv.mtype->Response_ip,
                                        self.idv()));
                                }
                            }
                        },
                        Option::None => {},
                    }
                }
                proof {
                    assert(sec_post(old(self).idv(), mv.mtype->Response_ip, self.idv()));
                }
                match entry.kind {
                    QueryKind::Ping => {
                        match rt {
                            Returns::Ping { id } => {
                                dht.insert_node(Node { id, ip_port: src });
                                Result::Ok(Vec::new())
                            },
                            _ => Result::Err(KrpcError::Mismatch),
                        }
                    },
                    QueryKind::FindNode => {
                        match rt {
                            Returns::FindNode { id, nodes } => {
                                if nodes.len() % 26 != 0 {
                                    return Result::Err(KrpcError::Mismatch);
                                }
                                let count = nodes.len() / 26;
                                if count > 65536 || self.tx.len() > 65536 - count {
                                    return Result::Err(KrpcError::TableFull);
                                }
                                let ghost nv = nodes@;
                                let ghost postid = self.idv();
                                let mut out: Vec<Outgoing> = Vec::new();
                                let mut j: usize = 0;
                                while j < count
                                    invariant
                                        0 <= j <= count,
                                        count == nv.len() / 26,
                                        nv.len() % 26 == 0,
                                        mid.len() + count <= 65536,
                                        nodes@ == nv,
                                        self.wf(),
                                        self.idv() == postid,
                                        self.tx@.len() == mid.len() + j,
                                        out@.len() == j,
                                        forall|jj: int|
                                            0 <= jj < j ==> (#[trigger] out@[jj]).dest
                                                == chunk_addr(nv, jj),
                                        forall|jj: int|
                                            0 <= jj < j ==> (#[trigger] out@[jj]).bytes@
                                                == enc_msg(
                                                ping_msg(out@[jj].txid, self_id_bytes(postid)),
                                            ),
                                        forall|jj: int|
                                            0 <= jj < j ==> tx_has(
                                                self.tx@,
                                                (#[trigger] out@[jj]).txid,
                                            ) && tx_get(self.tx@, out@[jj].txid) == (TxEntry {
                                                txid: out@[jj].txid,
                                                addr: out@[jj].dest,
                                                kind: QueryKind::Ping,
                                            }),
                                        forall|k: TxId|
                                            #[trigger] tx_has(mid, k) ==> tx_has(self.tx@, k)
                                                && tx_get(self.tx@, k) == tx_get(mid, k),
                                    decreases count - j,
                                {
                                    let chunk = copy_chunk(&nodes, j);
                                    let node = Node::from_be_bytes(chunk);
                                    proof {
                                        assert(node.ip_port == chunk_addr(nv, j as int));
                                    }
                                    let o = match self.ping(node.ip_port) {
                                        Result::Ok(o) => o,
                                        Result::Err(_) => {
                                            proof {
                                                assert(false);
                                            }
                                            return Result::Err(KrpcError::TableFull);
                                        },
                                    };
                                    out.push(o);
                                    j = j + 1;
                                }
                                proof {
                                    assert(fanout_post(mid, self.tx@, postid, nv, out@));
                                }
                                Result::Ok(out)
                            },
                            _ => Result::Err(KrpcError::Mismatch),
                        }
                    },
                    QueryKind::GetPeers => Result::Err(KrpcError::NotImplemented),
                    QueryKind::AnnouncePeer => Result::Err(KrpcError::NotImplemented),
                }
            },
        }
    }
}

/// Copies the `j`th 26-byte window out of a compact-contact string.
fn copy_chunk(nodes: &Vec<u8>, j: usize) -> (r: Vec<u8>)
    requires
        nodes@.len() % 26 == 0,
        j < nodes@.len() / 26,
    ensures
        r@ == nodes@.subrange(26 * j as int, 26 * j as int + 26),
        r@.len() == 26,
{
    let ln: usize = nodes.len();
    proof {
        assert(26 * (j as int) + 26 <= ln as int) by (nonlinear_arith)
            requires
                ln as int == nodes@.len(),
                nodes@.len() % 26 == 0,
                0 <= j < nodes@.len() / 26,
        ;
    }
    let base: usize = 26 * j;
    let mut r: Vec<u8> = Vec::new();
    let mut i: usize = 0;
    while i < 26
        invariant
            0 <= i <= 26,
            base == 26 * j,
            base + 26 <= ln,
            ln == nodes@.len(),
            r@ == nodes@.subrange(base as int, base + i),
        decreases 26 - i,
    {
        r.push(nodes[base + i]);
        proof {
            assert(r@ =~= nodes@.subrange(base as int, base + i + 1));
        }
        i = i + 1;
    }
    r
}

} // verus!
