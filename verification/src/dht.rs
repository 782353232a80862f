//! Identifiers, contacts, and the routing table with closest-node selection.

use vstd::prelude::*;

verus! {

/// Width of a node identifier in bytes (160 bits).
pub const ID_BYTES: usize = 20;

/// Copies a byte vector element by element.
pub fn copy_bytes(v: &Vec<u8>) -> (r: Vec<u8>)
    ensures
        r@ == v@,
{
    let mut r: Vec<u8> = Vec::new();
    let mut i: usize = 0;
    while i < v.len()
        invariant
            0 <= i <= v@.len(),
            r@ == v@.subrange(0, i as int),
        decreases v@.len() - i,
    {
        r.push(v[i]);
        proof {
            assert(r@ =~= v@.subrange(0, i + 1));
        }
        i = i + 1;
    }
    proof {
        assert(r@ =~= v@);
    }
    r
}

/// A 160-bit identifier, also used as an info-hash key for the value store.
/// Canonical byte order is big-endian everywhere: on the wire, as a table key,
/// and in the derived security identifier.
#[derive(Debug)]
pub struct NodeId(pub Vec<u8>);

impl Clone for NodeId {
    fn clone(&self) -> (r: Self)
        ensures
            r@ == self@,
    {
        NodeId(copy_bytes(&self.0))
    }
}

impl View for NodeId {
    type V = Seq<u8>;

    open spec fn view(&self) -> Seq<u8> {
        self.0@
    }
}

impl NodeId {
    /// A well-formed identifier holds exactly twenty bytes.
    pub open spec fn wf(&self) -> bool {
        self@.len() == ID_BYTES
    }
}

/// An IPv4 address and UDP port, as plain bytes.
#[derive(PartialEq, Eq, Structural, Clone, Copy, Debug)]
pub struct IpPort {
    pub ip0: u8,
    pub ip1: u8,
    pub ip2: u8,
    pub ip3: u8,
    pub port: u16,
}

/// A routing-table entry: an identifier paired with a reachable address.
#[derive(Debug)]
pub struct Node {
    pub id: NodeId,
    pub ip_port: IpPort,
}

impl Clone for Node {
    fn clone(&self) -> (r: Self)
        ensures
            r@ == self@,
    {
        Node { id: self.id.clone(), ip_port: self.ip_port }
    }
}

/// The mathematical value of a node as seen by specifications.
pub struct NodeV {
    pub id: Seq<u8>,
    pub ip_port: IpPort,
}

impl View for Node {
    type V = NodeV;

    open spec fn view(&self) -> NodeV {
        NodeV { id: self.id@, ip_port: self.ip_port }
    }
}

impl Node {
    pub open spec fn wf(&self) -> bool {
        self.id.wf()
    }
}

/// 256 raised to the power `n`.
pub open spec fn pow256(n: nat) -> int
    decreases n,
{
    if n == 0 {
        1
    } else {
        256 * pow256((n - 1) as nat)
    }
}

/// The identifier bytes read as one big-endian unsigned integer; identifiers
/// are ordered by this value.
pub open spec fn id_num(s: Seq<u8>) -> int
    decreases s.len(),
{
    if s.len() == 0 {
        0
    } else {
        (s[0] as int) * pow256((s.len() - 1) as nat) + id_num(s.subrange(1, s.len() as int))
    }
}

pub proof fn lemma_pow256_pos(n: nat)
    ensures
        pow256(n) >= 1,
    decreases n,
{
    if n > 0 {
        lemma_pow256_pos((n - 1) as nat);
    }
}

pub proof fn lemma_id_num_bound(s: Seq<u8>)
    ensures
        0 <= id_num(s) < pow256(s.len()),
    decreases s.len(),
{
    if s.len() == 0 {
    } else {
        let tail = s.subrange(1, s.len() as int);
        lemma_id_num_bound(tail);
        let p = pow256((s.len() - 1) as nat);
        lemma_pow256_pos((s.len() - 1) as nat);
        assert((s[0] as int) * p <= 255 * p) by (nonlinear_arith)
            requires
                s[0] <= 255,
                p >= 1,
        ;
        assert(0 <= (s[0] as int) * p) by (nonlinear_arith)
            requires
                0 <= s[0],
                p >= 1,
        ;
        assert(255 * p + p == 256 * p);
    }
}

/// Identifiers of equal width compare numerically as they compare
/// lexicographically: a smaller byte at the first differing index means a
/// smaller value.
pub proof fn lemma_lex_lt(a: Seq<u8>, b: Seq<u8>, i: int)
    requires
        a.len() == b.len(),
        0 <= i < a.len(),
        forall|j: int| 0 <= j < i ==> a[j] == b[j],
        a[i] < b[i],
    ensures
        id_num(a) < id_num(b),
    decreases i,
{
    let ta = a.subrange(1, a.len() as int);
    let tb = b.subrange(1, b.len() as int);
    if i == 0 {
        lemma_id_num_bound(ta);
        lemma_id_num_bound(tb);
        let p = pow256((a.len() - 1) as nat);
        lemma_pow256_pos((a.len() - 1) as nat);
        assert((a[0] as int) * p + p <= (b[0] as int) * p) by (nonlinear_arith)
            requires
                (a[0] as int) < (b[0] as int),
                p >= 1,
        ;
    } else {
        assert(forall|j: int| 0 <= j < i - 1 ==> ta[j] == tb[j]);
        assert(ta[i - 1] < tb[i - 1]);
        lemma_lex_lt(ta, tb, i - 1);
    }
}

/// Identifiers of equal width with the same numeric value are the same bytes.
pub proof fn lemma_id_num_inj(a: Seq<u8>, b: Seq<u8>)
    requires
        a.len() == b.len(),
        id_num(a) == id_num(b),
    ensures
        a == b,
    decreases a.len(),
{
    if a.len() == 0 {
        assert(a =~= b);
    } else {
        if a[0] < b[0] {
            lemma_lex_lt(a, b, 0);
        } else if b[0] < a[0] {
            lemma_lex_lt(b, a, 0);
        } else {
            let ta = a.subrange(1, a.len() as int);
            let tb = b.subrange(1, b.len() as int);
            lemma_id_num_inj(ta, tb);
            assert forall|k: int| 0 <= k < a.len() implies a[k] == b[k] by {
                if k >= 1 {
                    assert(ta[k - 1] == tb[k - 1]);
                }
            }
            assert(a =~= b);
        }
    }
}

/// The outcome of comparing two identifiers.
#[derive(PartialEq, Eq, Structural, Clone, Copy, Debug)]
pub enum Cmp {
    Lt,
    Eq,
    Gt,
}

/// Three-way comparison of identifiers by their big-endian numeric value.
pub fn id_cmp(a: &NodeId, b: &NodeId) -> (r: Cmp)
    requires
        a.wf(),
        b.wf(),
    ensures
        (r == Cmp::Lt <==> id_num(a@) < id_num(b@)),
        (r == Cmp::Gt <==> id_num(a@) > id_num(b@)),
        (r == Cmp::Eq <==> a@ == b@),
{
    let mut i: usize = 0;
    while i < ID_BYTES
        invariant
            0 <= i <= ID_BYTES,
            a.wf(),
            b.wf(),
            forall|j: int| 0 <= j < i ==> a@[j] == b@[j],
        decreases ID_BYTES - i,
    {
        let x = a.0[i];
        let y = b.0[i];
        if x < y {
            proof {
                lemma_lex_lt(a@, b@, i as int);
            }
            return Cmp::Lt;
        }
        if y < x {
            proof {
                lemma_lex_lt(b@, a@, i as int);
            }
            return Cmp::Gt;
        }
        i = i + 1;
    }
    proof {
        assert(a@ =~= b@);
    }
    Cmp::Eq
}

impl Node {
    /// Decodes one 26-byte compact contact: 20 identifier bytes (big-endian,
    /// kept as they stand on the wire), then 4 address bytes, then a 2-byte
    /// big-endian port.
    pub fn from_be_bytes(bytes: Vec<u8>) -> (r: Node)
        requires
            bytes@.len() == 26,
        ensures
            r.wf(),
            r@.id == bytes@.subrange(0, ID_BYTES as int),
            r.ip_port.ip0 == bytes@[20],
            r.ip_port.ip1 == bytes@[21],
            r.ip_port.ip2 == bytes@[22],
            r.ip_port.ip3 == bytes@[23],
            r.ip_port.port == (bytes@[24] as int) * 256 + (bytes@[25] as int),
    {
        let mut idb: Vec<u8> = Vec::new();
        let mut i: usize = 0;
        while i < ID_BYTES
            invariant
                0 <= i <= ID_BYTES,
                bytes@.len() == 26,
                idb@ == bytes@.subrange(0, i as int),
            decreases ID_BYTES - i,
        {
            idb.push(bytes[i]);
            proof {
                assert(idb@ =~= bytes@.subrange(0, i + 1));
            }
            i = i + 1;
        }
        let port: u16 = (bytes[24] as u16) * 256 + (bytes[25] as u16);
        Node {
            id: NodeId(idb),
            ip_port: IpPort {
                ip0: bytes[20],
                ip1: bytes[21],
                ip2: bytes[22],
                ip3: bytes[23],
                port,
            },
        }
    }
}


/// An identifier used as the key of a content swarm in the value store.
pub type InfoHash = NodeId;

/// How many contacts a closest-node lookup returns at most.
pub const K: usize = 8;

/// One value-store entry: the peers that announced an info-hash.
#[derive(Debug)]
pub struct StoreEntry {
    pub id: NodeId,
    pub peers: Vec<IpPort>,
}

/// The mathematical value of a store entry.
pub struct StoreEntryV {
    pub id: Seq<u8>,
    pub peers: Seq<IpPort>,
}

impl View for StoreEntry {
    type V = StoreEntryV;

    open spec fn view(&self) -> StoreEntryV {
        StoreEntryV { id: self.id@, peers: self.peers@ }
    }
}

/// The routing table (ordered by identifier, unique keys) and the info-hash
/// value store (unique keys, peer lists that only grow).
#[derive(Debug)]
pub struct MainlineDHT {
    pub table: Vec<Node>,
    pub hashmap: Vec<StoreEntry>,
}

/// A well-formed node value carries a full-width identifier.
pub open spec fn nv_wf(n: NodeV) -> bool {
    n.id.len() == ID_BYTES
}

/// The routing table holds well-formed nodes in strictly ascending identifier
/// order, so identifiers are unique.
pub open spec fn table_wf(t: Seq<NodeV>) -> bool {
    &&& forall|i: int| 0 <= i < t.len() ==> nv_wf(#[trigger] t[i])
    &&& forall|i: int, j: int|
        0 <= i < j < t.len() ==> id_num((#[trigger] t[i]).id) < id_num((#[trigger] t[j]).id)
}

/// The value store holds well-formed, pairwise distinct info-hash keys.
pub open spec fn store_wf(s: Seq<StoreEntryV>) -> bool {
    &&& forall|i: int| 0 <= i < s.len() ==> (#[trigger] s[i]).id.len() == ID_BYTES
    &&& forall|i: int, j: int|
        0 <= i < j < s.len() ==> (#[trigger] s[i]).id != (#[trigger] s[j]).id
}

/// The number of leading table entries whose identifier is numerically below
/// `id`; for a sorted table this is `id`'s position or insertion point.
pub open spec fn lb(t: Seq<NodeV>, id: Seq<u8>) -> int
    decreases t.len(),
{
    if t.len() == 0 {
        0
    } else if id_num(t[0].id) < id_num(id) {
        1 + lb(t.subrange(1, t.len() as int), id)
    } else {
        0
    }
}

/// Whether some table entry carries exactly this identifier.
pub open spec fn t_contains(t: Seq<NodeV>, id: Seq<u8>) -> bool {
    exists|i: int| 0 <= i < t.len() && (#[trigger] t[i]).id == id
}

/// The entry stored under `id`, where one exists.
pub open spec fn t_at(t: Seq<NodeV>, id: Seq<u8>) -> NodeV {
    t[choose|i: int| 0 <= i < t.len() && (#[trigger] t[i]).id == id]
}

pub proof fn lemma_lb_props(t: Seq<NodeV>, id: Seq<u8>)
    requires
        table_wf(t),
    ensures
        0 <= lb(t, id) <= t.len(),
        forall|j: int| 0 <= j < lb(t, id) ==> id_num((#[trigger] t[j]).id) < id_num(id),
        forall|j: int| lb(t, id) <= j < t.len() ==> id_num((#[trigger] t[j]).id) >= id_num(id),
    decreases t.len(),
{
    if t.len() == 0 {
    } else {
        let tail = t.subrange(1, t.len() as int);
        assert(table_wf(tail)) by {
            assert forall|i: int| 0 <= i < tail.len() implies nv_wf(#[trigger] tail[i]) by {
                assert(tail[i] == t[i + 1]);
            }
            assert forall|i: int, j: int| 0 <= i < j < tail.len() implies id_num(
                (#[trigger] tail[i]).id,
            ) < id_num((#[trigger] tail[j]).id) by {
                assert(tail[i] == t[i + 1]);
                assert(tail[j] == t[j + 1]);
            }
        }
        lemma_lb_props(tail, id);
        if id_num(t[0].id) < id_num(id) {
            assert forall|j: int| 0 <= j < lb(t, id) implies id_num((#[trigger] t[j]).id) < id_num(
                id,
            ) by {
                if j >= 1 {
                    assert(t[j] == tail[j - 1]);
                }
            }
            assert forall|j: int| lb(t, id) <= j < t.len() implies id_num((#[trigger] t[j]).id)
                >= id_num(id) by {
                assert(t[j] == tail[j - 1]);
            }
        } else {
            assert forall|j: int| 0 <= j < t.len() implies id_num((#[trigger] t[j]).id) >= id_num(
                id,
            ) by {
                if j > 0 {
                    assert(id_num(t[0].id) < id_num(t[j].id));
                }
            }
        }
    }
}

/// In a sorted table, distinct positions hold distinct identifiers.
pub proof fn lemma_ids_distinct(t: Seq<NodeV>)
    requires
        table_wf(t),
    ensures
        forall|i: int, j: int|
            0 <= i < t.len() && 0 <= j < t.len() && i != j ==> (#[trigger] t[i]).id != (
            #[trigger] t[j]).id,
{
    assert forall|i: int, j: int|
        0 <= i < t.len() && 0 <= j < t.len() && i != j implies (#[trigger] t[i]).id != (
    #[trigger] t[j]).id by {
        if i < j {
            assert(id_num(t[i].id) < id_num(t[j].id));
        } else {
            assert(id_num(t[j].id) < id_num(t[i].id));
        }
    }
}

/// Pins the stored entry: a position holding `id` is the lookup's result.
pub proof fn lemma_t_at_is(t: Seq<NodeV>, id: Seq<u8>, i: int)
    requires
        table_wf(t),
        0 <= i < t.len(),
        t[i].id == id,
    ensures
        t_contains(t, id),
        t_at(t, id) == t[i],
{
    lemma_ids_distinct(t);
    assert(t_contains(t, id));
    let k = choose|k: int| 0 <= k < t.len() && (#[trigger] t[k]).id == id;
    assert(k == i);
}

/// The position characterized by the loop that scans for `id` is `lb`.
pub proof fn lemma_lb_is(t: Seq<NodeV>, id: Seq<u8>, i: int)
    requires
        table_wf(t),
        0 <= i <= t.len(),
        forall|j: int| 0 <= j < i ==> id_num((#[trigger] t[j]).id) < id_num(id),
        i < t.len() ==> id_num(t[i].id) >= id_num(id),
    ensures
        lb(t, id) == i,
{
    lemma_lb_props(t, id);
    if lb(t, id) < i {
        assert(id_num(t[lb(t, id)].id) < id_num(id));
        assert(id_num(t[lb(t, id)].id) >= id_num(id));
    }
    if lb(t, id) > i {
        assert(id_num(t[i].id) < id_num(id));
    }
}

/// Exact presence at the lower-bound position.
pub proof fn lemma_lb_find(t: Seq<NodeV>, id: Seq<u8>)
    requires
        table_wf(t),
    ensures
        t_contains(t, id) <==> (lb(t, id) < t.len() && t[lb(t, id)].id == id),
        t_contains(t, id) ==> t_at(t, id) == t[lb(t, id)],
{
    lemma_lb_props(t, id);
    if t_contains(t, id) {
        let i = choose|i: int| 0 <= i < t.len() && (#[trigger] t[i]).id == id;
        if i < lb(t, id) {
            assert(id_num(t[i].id) < id_num(id));
        }
        if i > lb(t, id) {
            assert(id_num(t[lb(t, id)].id) < id_num(t[i].id));
            assert(id_num(t[lb(t, id)].id) >= id_num(id));
        }
        assert(i == lb(t, id));
        lemma_t_at_is(t, id, i);
    }
}

/// The table after inserting or replacing the entry for `n`'s identifier.
pub open spec fn upsert(t: Seq<NodeV>, n: NodeV) -> Seq<NodeV> {
    let i = lb(t, n.id);
    if i < t.len() && t[i].id == n.id {
        t.update(i, n)
    } else {
        t.insert(i, n)
    }
}

/// What an upsert does: last write wins for the key, nothing else moves, and
/// the size grows exactly when the key was absent.
pub proof fn lemma_upsert_props(t: Seq<NodeV>, n: NodeV)
    requires
        table_wf(t),
        nv_wf(n),
    ensures
        table_wf(upsert(t, n)),
        t_contains(upsert(t, n), n.id),
        t_at(upsert(t, n), n.id) == n,
        forall|k: Seq<u8>|
            k != n.id ==> (#[trigger] t_contains(upsert(t, n), k) <==> t_contains(t, k)),
        forall|k: Seq<u8>|
            k != n.id && t_contains(t, k) ==> #[trigger] t_at(upsert(t, n), k) == t_at(t, k),
        t_contains(t, n.id) ==> upsert(t, n).len() == t.len(),
        !t_contains(t, n.id) ==> upsert(t, n).len() == t.len() + 1,
{
    let id = n.id;
    let i = lb(t, id);
    lemma_lb_props(t, id);
    lemma_lb_find(t, id);
    lemma_ids_distinct(t);
    if i < t.len() && t[i].id == id {
        let u = t.update(i, n);
        assert(table_wf(u)) by {
            assert forall|x: int| 0 <= x < u.len() implies nv_wf(#[trigger] u[x]) by {
                if x != i {
                    assert(u[x] == t[x]);
                }
            }
            assert forall|x: int, y: int| 0 <= x < y < u.len() implies id_num(
                (#[trigger] u[x]).id,
            ) < id_num((#[trigger] u[y]).id) by {
                assert(id_num(u[x].id) == id_num(t[x].id));
                assert(id_num(u[y].id) == id_num(t[y].id));
            }
        }
        lemma_t_at_is(u, id, i);
        assert forall|k: Seq<u8>| k != id implies (#[trigger] t_contains(u, k) <==> t_contains(
            t,
            k,
        )) by {
            if t_contains(u, k) {
                let x = choose|x: int| 0 <= x < u.len() && (#[trigger] u[x]).id == k;
                assert(x != i);
                assert(t[x].id == k);
            }
            if t_contains(t, k) {
                let x = choose|x: int| 0 <= x < t.len() && (#[trigger] t[x]).id == k;
                assert(x != i);
                assert(u[x].id == k);
            }
        }
        assert forall|k: Seq<u8>| k != id && t_contains(t, k) implies #[trigger] t_at(u, k) == t_at(
            t,
            k,
        ) by {
            let x = choose|x: int| 0 <= x < t.len() && (#[trigger] t[x]).id == k;
            assert(x != i);
            assert(u[x].id == k);
            lemma_t_at_is(t, k, x);
            lemma_t_at_is(u, k, x);
        }
    } else {
        let u = t.insert(i, n);
        assert(!t_contains(t, id));
        assert forall|x: int| 0 <= x < t.len() implies (#[trigger] t[x]).id != id by {
            if t[x].id == id {
                assert(t_contains(t, id));
            }
        }
        assert forall|x: int| i <= x < t.len() implies id_num((#[trigger] t[x]).id) > id_num(
            id,
        ) by {
            assert(id_num(t[x].id) >= id_num(id));
            if id_num(t[x].id) == id_num(id) {
                lemma_id_num_inj(t[x].id, id);
            }
        }
        assert(table_wf(u)) by {
            assert forall|x: int| 0 <= x < u.len() implies nv_wf(#[trigger] u[x]) by {
                if x < i {
                    assert(u[x] == t[x]);
                } else if x == i {
                    assert(u[x] == n);
                } else {
                    assert(u[x] == t[x - 1]);
                }
            }
            assert forall|x: int, y: int| 0 <= x < y < u.len() implies id_num(
                (#[trigger] u[x]).id,
            ) < id_num((#[trigger] u[y]).id) by {
                if x < i {
                    assert(u[x] == t[x]);
                } else if x == i {
                    assert(u[x] == n);
                } else {
                    assert(u[x] == t[x - 1]);
                }
                if y < i {
                    assert(u[y] == t[y]);
                } else if y == i {
                    assert(u[y] == n);
                } else {
                    assert(u[y] == t[y - 1]);
                }
            }
        }
        lemma_t_at_is(u, id, i);
        assert forall|k: Seq<u8>| k != id implies (#[trigger] t_contains(u, k) <==> t_contains(
            t,
            k,
        )) by {
            if t_contains(u, k) {
                let x = choose|x: int| 0 <= x < u.len() && (#[trigger] u[x]).id == k;
                assert(x != i);
                if x < i {
                    assert(t[x].id == k);
                } else {
                    assert(t[x - 1].id == k);
                }
            }
            if t_contains(t, k) {
                let x = choose|x: int| 0 <= x < t.len() && (#[trigger] t[x]).id == k;
                if x < i {
                    assert(u[x].id == k);
                } else {
                    assert(u[x + 1].id == k);
                }
            }
        }
        assert forall|k: Seq<u8>| k != id && t_contains(t, k) implies #[trigger] t_at(u, k) == t_at(
            t,
            k,
        ) by {
            let x = choose|x: int| 0 <= x < t.len() && (#[trigger] t[x]).id == k;
            lemma_t_at_is(t, k, x);
            if x < i {
                assert(u[x].id == k);
                lemma_t_at_is(u, k, x);
            } else {
                assert(u[x + 1].id == k);
                lemma_t_at_is(u, k, x + 1);
            }
        }
    }
}

/// First position of the window a closest-node lookup returns.
pub open spec fn cl_start(t: Seq<NodeV>, id: Seq<u8>) -> int {
    let i = lb(t, id);
    if i >= K / 2 {
        i - K / 2
    } else {
        0
    }
}

/// One past the last position of the window a closest-node lookup returns.
pub open spec fn cl_end(t: Seq<NodeV>, id: Seq<u8>) -> int {
    let i = lb(t, id);
    if i + K / 2 <= t.len() {
        i + K / 2
    } else {
        t.len() as int
    }
}

/// The contiguous window of up to `K` entries around `id`'s sorted position.
pub open spec fn closest_spec(t: Seq<NodeV>, id: Seq<u8>) -> Seq<NodeV> {
    t.subrange(cl_start(t, id), cl_end(t, id))
}

/// The peer list stored for `id`, where one exists.
pub open spec fn peers_of(s: Seq<StoreEntryV>, id: Seq<u8>) -> Option<Seq<IpPort>>
    decreases s.len(),
{
    if s.len() == 0 {
        Option::None
    } else if s[0].id == id {
        Option::Some(s[0].peers)
    } else {
        peers_of(s.subrange(1, s.len() as int), id)
    }
}

/// A position holding `id` whose predecessors do not pins the lookup.
pub proof fn lemma_peers_of_index(s: Seq<StoreEntryV>, id: Seq<u8>, i: int)
    requires
        0 <= i < s.len(),
        s[i].id == id,
        forall|j: int| 0 <= j < i ==> (#[trigger] s[j]).id != id,
    ensures
        peers_of(s, id) == Option::Some(s[i].peers),
    decreases s.len(),
{
    if i == 0 {
    } else {
        let tail = s.subrange(1, s.len() as int);
        assert(tail[i - 1] == s[i]);
        assert forall|j: int| 0 <= j < i - 1 implies (#[trigger] tail[j]).id != id by {
            assert(tail[j] == s[j + 1]);
        }
        lemma_peers_of_index(tail, id, i - 1);
    }
}

/// Where no entry holds `id`, the lookup fails.
pub proof fn lemma_peers_of_none(s: Seq<StoreEntryV>, id: Seq<u8>)
    requires
        forall|j: int| 0 <= j < s.len() ==> (#[trigger] s[j]).id != id,
    ensures
        peers_of(s, id) == Option::None::<Seq<IpPort>>,
    decreases s.len(),
{
    if s.len() > 0 {
        let tail = s.subrange(1, s.len() as int);
        assert forall|j: int| 0 <= j < tail.len() implies (#[trigger] tail[j]).id != id by {
            assert(tail[j] == s[j + 1]);
        }
        lemma_peers_of_none(tail, id);
    }
}

/// Replacing the entry at one position, key kept, changes no other lookup.
pub proof fn lemma_peers_of_update(s: Seq<StoreEntryV>, i: int, e: StoreEntryV, k: Seq<u8>)
    requires
        0 <= i < s.len(),
        s[i].id == e.id,
        k != e.id,
    ensures
        peers_of(s.update(i, e), k) == peers_of(s, k),
    decreases s.len(),
{
    let u = s.update(i, e);
    if s.len() > 0 {
        if i == 0 {
            assert(u.subrange(1, u.len() as int) =~= s.subrange(1, s.len() as int));
        } else {
            assert(u[0] == s[0]);
            if s[0].id == k {
            } else {
                assert(u.subrange(1, u.len() as int) =~= s.subrange(1, s.len() as int).update(
                    i - 1,
                    e,
                ));
                lemma_peers_of_update(s.subrange(1, s.len() as int), i - 1, e, k);
            }
        }
    }
}

/// Appending an entry changes only its own key's lookup.
pub proof fn lemma_peers_of_push(s: Seq<StoreEntryV>, e: StoreEntryV, k: Seq<u8>)
    ensures
        k != e.id ==> peers_of(s.push(e), k) == peers_of(s, k),
        (forall|j: int| 0 <= j < s.len() ==> (#[trigger] s[j]).id != e.id) ==> peers_of(
            s.push(e),
            e.id,
        ) == Option::Some(e.peers),
    decreases s.len(),
{
    let p = s.push(e);
    if s.len() == 0 {
        assert(p[0] == e);
        assert(p.subrange(1, p.len() as int) =~= Seq::<StoreEntryV>::empty());
        assert(peers_of(Seq::<StoreEntryV>::empty(), k) == Option::None::<Seq<IpPort>>);
        assert(peers_of(Seq::<StoreEntryV>::empty(), e.id) == Option::None::<Seq<IpPort>>);
        assert(peers_of(s, k) == Option::None::<Seq<IpPort>>);
    } else {
        assert(p[0] == s[0]);
        assert(p.subrange(1, p.len() as int) =~= s.subrange(1, s.len() as int).push(e));
        lemma_peers_of_push(s.subrange(1, s.len() as int), e, k);
        if (forall|j: int| 0 <= j < s.len() ==> (#[trigger] s[j]).id != e.id) {
            let tail = s.subrange(1, s.len() as int);
            assert forall|j: int| 0 <= j < tail.len() implies (#[trigger] tail[j]).id != e.id by {
                assert(tail[j] == s[j + 1]);
            }
        }
    }
}


/// The node values a table of contacts stands for.
pub open spec fn node_views(t: Seq<Node>) -> Seq<NodeV> {
    t.map_values(|n: Node| n@)
}

/// The entry values a value store stands for.
pub open spec fn store_views(s: Seq<StoreEntry>) -> Seq<StoreEntryV> {
    s.map_values(|e: StoreEntry| e@)
}

impl MainlineDHT {
    /// The routing table as a sequence of node values.
    pub open spec fn tview(&self) -> Seq<NodeV> {
        node_views(self.table@)
    }

    /// The value store as a sequence of entry values.
    pub open spec fn sview(&self) -> Seq<StoreEntryV> {
        store_views(self.hashmap@)
    }

    /// The table and the store are well-formed.
    pub open spec fn wf(&self) -> bool {
        table_wf(self.tview()) && store_wf(self.sview())
    }

    /// An empty routing table and value store.
    pub fn new() -> (r: Self)
        ensures
            r.wf(),
            r.tview() == Seq::<NodeV>::empty(),
            r.sview() == Seq::<StoreEntryV>::empty(),
    {
        let r = MainlineDHT { table: Vec::new(), hashmap: Vec::new() };
        proof {
            assert(r.tview() =~= Seq::<NodeV>::empty());
            assert(r.sview() =~= Seq::<StoreEntryV>::empty());
        }
        r
    }

    /// The position of `id` in the sorted table, or its insertion point.
    fn lower_bound(&self, id: &NodeId) -> (r: usize)
        requires
            self.wf(),
            id.wf(),
        ensures
            r == lb(self.tview(), id@),
    {
        let mut i: usize = 0;
        while i < self.table.len()
            invariant
                0 <= i <= self.tview().len(),
                self.wf(),
                id.wf(),
                forall|j: int| 0 <= j < i ==> id_num((#[trigger] self.tview()[j]).id) < id_num(id@),
            decreases self.tview().len() - i,
        {
            proof {
                assert(self.tview()[i as int] == self.table@[i as int]@);
            }
            match id_cmp(&self.table[i].id, id) {
                Cmp::Lt => {
                    i = i + 1;
                },
                Cmp::Eq => {
                    proof {
                        lemma_lb_is(self.tview(), id@, i as int);
                    }
                    return i;
                },
                Cmp::Gt => {
                    proof {
                        lemma_lb_is(self.tview(), id@, i as int);
                    }
                    return i;
                },
            }
        }
        proof {
            lemma_lb_is(self.tview(), id@, i as int);
        }
        i
    }

    /// Inserts the contact, or replaces the stored contact for its identifier:
    /// last write wins, no other entry moves, and the table grows exactly when
    /// the identifier was new.
    pub fn insert_node(&mut self, node: Node)
        requires
            old(self).wf(),
            node.wf(),
        ensures
            final(self).wf(),
            final(self).sview() == old(self).sview(),
            final(self).tview() == upsert(old(self).tview(), node@),
            t_contains(final(self).tview(), node@.id),
            t_at(final(self).tview(), node@.id) == node@,
            forall|k: Seq<u8>|
                k != node@.id ==> (#[trigger] t_contains(final(self).tview(), k) <==> t_contains(
                    old(self).tview(),
                    k,
                )),
            forall|k: Seq<u8>|
                k != node@.id && t_contains(old(self).tview(), k) ==> #[trigger] t_at(
                    final(self).tview(),
                    k,
                ) == t_at(old(self).tview(), k),
            t_contains(old(self).tview(), node@.id) ==> final(self).tview().len() == old(
                self,
            ).tview().len(),
            !t_contains(old(self).tview(), node@.id) ==> final(self).tview().len() == old(
                self,
            ).tview().len() + 1,
    {
        proof {
            lemma_upsert_props(old(self).tview(), node@);
            lemma_lb_props(old(self).tview(), node@.id);
            lemma_lb_find(old(self).tview(), node@.id);
        }
        let ghost t0 = self.tview();
        let i = self.lower_bound(&node.id);
        let mut replace = false;
        if i < self.table.len() {
            proof {
                assert(self.tview()[i as int] == self.table@[i as int]@);
            }
            if let Cmp::Eq = id_cmp(&self.table[i].id, &node.id) {
                replace = true;
            }
        }
        if replace {
            self.table.remove(i);
            self.table.insert(i, node);
            proof {
                assert(self.tview() =~= upsert(t0, node@));
            }
        } else {
            self.table.insert(i, node);
            proof {
                assert(self.tview() =~= upsert(t0, node@));
            }
        }
    }

    /// Returns the contiguous window of up to `K` known contacts around `id`'s
    /// position in identifier order; fewer near the table's boundaries, none
    /// on an empty table.
    pub fn find_closest(&self, id: &NodeId) -> (r: Vec<Node>)
        requires
            self.wf(),
            id.wf(),
        ensures
            node_views(r@) == closest_spec(self.tview(), id@),
            forall|j: int| 0 <= j < r@.len() ==> (#[trigger] r@[j]).wf(),
    {
        let idx = self.lower_bound(id);
        proof {
            lemma_lb_props(self.tview(), id@);
        }
        let start: usize = if idx >= K / 2 {
            idx - K / 2
        } else {
            0
        };
        let end: usize = if self.table.len() - idx >= K / 2 {
            idx + K / 2
        } else {
            self.table.len()
        };
        proof {
            assert(start as int == cl_start(self.tview(), id@));
            assert(end as int == cl_end(self.tview(), id@));
        }
        let mut r: Vec<Node> = Vec::new();
        let mut j: usize = start;
        while j < end
            invariant
                start <= j <= end,
                end <= self.tview().len(),
                self.wf(),
                node_views(r@) == self.tview().subrange(start as int, j as int),
                forall|x: int| 0 <= x < r@.len() ==> (#[trigger] r@[x]).wf(),
            decreases end - j,
        {
            proof {
                assert(self.tview()[j as int] == self.table@[j as int]@);
            }
            let ghost r0 = r@;
            proof {
                assert(node_views(r0).len() == r0.len());
                assert(r0.len() == j - start);
            }
            let c = self.table[j].clone();
            proof {
                assert(c@ == self.tview()[j as int]);
            }
            r.push(c);
            proof {
                assert(r@ == r0.push(c));
                assert forall|x: int| 0 <= x < r@.len() implies #[trigger] node_views(r@)[x]
                    == self.tview().subrange(start as int, j + 1)[x] by {
                    assert(node_views(r@)[x] == r@[x]@);
                    if x < j - start {
                        assert(r@[x] == r0[x]);
                        assert(node_views(r0)[x] == r0[x]@);
                    } else {
                        assert(r@[x] == c);
                    }
                }
                assert(node_views(r@) =~= self.tview().subrange(start as int, j + 1));
            }
            j = j + 1;
        }
        r
    }

    /// Returns the stored contact for `id`; where none exists, fails with the
    /// same closest-contacts fallback that `find_closest` would return.
    pub fn find_node(&self, id: &NodeId) -> (r: Result<Node, Vec<Node>>)
        requires
            self.wf(),
            id.wf(),
        ensures
            match r {
                Result::Ok(n) => t_contains(self.tview(), id@) && n@ == t_at(self.tview(), id@),
                Result::Err(v) => !t_contains(self.tview(), id@) && node_views(v@) == closest_spec(
                    self.tview(),
                    id@,
                ),
            },
    {
        proof {
            lemma_lb_find(self.tview(), id@);
        }
        let i = self.lower_bound(id);
        if i < self.table.len() {
            proof {
                assert(self.tview()[i as int] == self.table@[i as int]@);
            }
            if let Cmp::Eq = id_cmp(&self.table[i].id, id) {
                proof {
                    lemma_t_at_is(self.tview(), id@, i as int);
                }
                return Result::Ok(self.table[i].clone());
            }
        }
        Result::Err(self.find_closest(id))
    }

    /// Returns the peer list stored for `id`; where none exists, fails with
    /// the closest-contacts fallback.
    pub fn find_value(&self, id: &InfoHash) -> (r: Result<Vec<IpPort>, Vec<Node>>)
        requires
            self.wf(),
            id.wf(),
        ensures
            match r {
                Result::Ok(v) => peers_of(self.sview(), id@) == Option::Some(v@),
                Result::Err(v) => peers_of(self.sview(), id@) is None && node_views(v@)
                    == closest_spec(self.tview(), id@),
            },
    {
        let mut i: usize = 0;
        while i < self.hashmap.len()
            invariant
                0 <= i <= self.sview().len(),
                self.wf(),
                id.wf(),
                forall|j: int| 0 <= j < i ==> (#[trigger] self.sview()[j]).id != id@,
            decreases self.sview().len() - i,
        {
            proof {
                assert(self.sview()[i as int] == self.hashmap@[i as int]@);
                assert(self.hashmap[i as int].id.wf());
            }
            if let Cmp::Eq = id_cmp(&self.hashmap[i].id, id) {
                proof {
                    lemma_peers_of_index(self.sview(), id@, i as int);
                }
                let mut v: Vec<IpPort> = Vec::new();
                let mut j: usize = 0;
                while j < self.hashmap[i].peers.len()
                    invariant
                        0 <= i < self.sview().len(),
                        0 <= j <= self.sview()[i as int].peers.len(),
                        v@ == self.sview()[i as int].peers.subrange(0, j as int),
                    decreases self.sview()[i as int].peers.len() - j,
                {
                    v.push(self.hashmap[i].peers[j]);
                    proof {
                        assert(v@ =~= self.sview()[i as int].peers.subrange(0, j + 1));
                    }
                    j = j + 1;
                }
                proof {
                    assert(v@ =~= self.sview()[i as int].peers);
                }
                return Result::Ok(v);
            }
            i = i + 1;
        }
        proof {
            lemma_peers_of_none(self.sview(), id@);
        }
        Result::Err(self.find_closest(id))
    }

    /// Appends `ip_port` to the peer list for `id`, creating the list where
    /// absent. Never deduplicates; no other key's list changes.
    pub fn store(&mut self, id: &InfoHash, ip_port: IpPort)
        requires
            old(self).wf(),
            id.wf(),
        ensures
            final(self).wf(),
            final(self).tview() == old(self).tview(),
            peers_of(final(self).sview(), id@) == Option::Some(
                match peers_of(old(self).sview(), id@) {
                    Option::Some(p) => p.push(ip_port),
                    Option::None => seq![ip_port],
                },
            ),
            forall|k: Seq<u8>|
                k != id@ ==> #[trigger] peers_of(final(self).sview(), k) == peers_of(
                    old(self).sview(),
                    k,
                ),
    {
        let ghost s0 = self.sview();
        let mut i: usize = 0;
        while i < self.hashmap.len()
            invariant
                0 <= i <= self.sview().len(),
                self.wf(),
                id.wf(),
                self.sview() == s0,
                s0 == old(self).sview(),
                self.tview() == old(self).tview(),
                forall|j: int| 0 <= j < i ==> (#[trigger] self.sview()[j]).id != id@,
            decreases self.sview().len() - i,
        {
            proof {
                assert(self.sview()[i as int] == self.hashmap@[i as int]@);
                assert(self.hashmap[i as int].id.wf());
            }
            if let Cmp::Eq = id_cmp(&self.hashmap[i].id, id) {
                proof {
                    lemma_peers_of_index(s0, id@, i as int);
                }
                let ghost h0 = self.hashmap@;
                let mut e = self.hashmap.remove(i);
                let ghost h1 = self.hashmap@;
                e.peers.push(ip_port);
                self.hashmap.insert(i, e);
                proof {
                    assert(s0 == store_views(h0));
                    assert(s0.len() == h0.len());
                    assert(h1 == h0.remove(i as int));
                    assert(self.hashmap@ == h1.insert(i as int, e));
                    assert(self.hashmap@.len() == h0.len());
                    assert(self.sview().len() == self.hashmap@.len());
                    assert forall|x: int|
                        0 <= x < self.hashmap@.len() && x != i implies #[trigger] self.hashmap@[x]
                        == h0[x] by {
                        if x < i {
                            assert(self.hashmap@[x] == h1[x]);
                            assert(h1[x] == h0[x]);
                        } else {
                            assert(self.hashmap@[x] == h1[x - 1]);
                            assert(h1[x - 1] == h0[x]);
                        }
                    }
                    assert(self.hashmap@[i as int] == e);
                    let e2 = e@;
                    assert(s0[i as int] == h0[i as int]@);
                    assert(self.sview()[i as int] == self.hashmap@[i as int]@);
                    assert(e@.id == h0[i as int]@.id);
                    assert(e@.peers == h0[i as int]@.peers.push(ip_port));
                    assert forall|x: int| 0 <= x < self.sview().len() implies #[trigger] self.sview()[x]
                        == s0.update(i as int, e2)[x] by {
                        assert(self.sview()[x] == self.hashmap@[x]@);
                        if x != i {
                            assert(self.hashmap@[x] == h0[x]);
                            assert(s0[x] == h0[x]@);
                        }
                    }
                    assert(self.sview() =~= s0.update(i as int, e2));
                    assert(e2.id == id@);
                    assert(e2.peers =~= s0[i as int].peers.push(ip_port));
                    lemma_peers_of_index(self.sview(), id@, i as int);
                    assert(peers_of(self.sview(), id@) == Option::Some(e2.peers));
                    assert(peers_of(s0, id@) == Option::Some(s0[i as int].peers));
                    assert(peers_of(self.sview(), id@) == Option::Some(
                        s0[i as int].peers.push(ip_port),
                    ));
                    assert forall|k: Seq<u8>| k != id@ implies #[trigger] peers_of(
                        self.sview(),
                        k,
                    ) == peers_of(s0, k) by {
                        lemma_peers_of_update(s0, i as int, e2, k);
                    }
                    assert(store_wf(self.sview())) by {
                        assert forall|x: int| 0 <= x < self.sview().len() implies (
                        #[trigger] self.sview()[x]).id.len() == ID_BYTES by {
                            if x != i {
                                assert(self.sview()[x] == s0[x]);
                            }
                        }
                        assert forall|x: int, y: int| 0 <= x < y < self.sview().len() implies (
                        #[trigger] self.sview()[x]).id != (#[trigger] self.sview()[y]).id by {
                            assert(self.sview()[x].id == s0[x].id);
                            assert(self.sview()[y].id == s0[y].id);
                        }
                    }
                }
                return ;
            }
            i = i + 1;
        }
        let e = StoreEntry { id: id.clone(), peers: vec![ip_port] };
        self.hashmap.push(e);
        proof {
            let e2 = self.sview()[s0.len() as int];
            assert(self.sview() =~= s0.push(e2));
            assert(e2.id == id@);
            assert(e2.peers =~= seq![ip_port]);
            lemma_peers_of_none(s0, id@);
            lemma_peers_of_push(s0, e2, id@);
            assert forall|k: Seq<u8>| k != id@ implies #[trigger] peers_of(self.sview(), k)
                == peers_of(s0, k) by {
                lemma_peers_of_push(s0, e2, k);
            }
            assert(store_wf(self.sview())) by {
                assert forall|x: int| 0 <= x < self.sview().len() implies (
                #[trigger] self.sview()[x]).id.len() == ID_BYTES by {
                    if x < s0.len() {
                        assert(self.sview()[x] == s0[x]);
                    }
                }
                assert forall|x: int, y: int| 0 <= x < y < self.sview().len() implies (
                #[trigger] self.sview()[x]).id != (#[trigger] self.sview()[y]).id by {
                    if y < s0.len() {
                        assert(self.sview()[x] == s0[x]);
                        assert(self.sview()[y] == s0[y]);
                    } else {
                        assert(self.sview()[x] == s0[x]);
                        assert(self.sview()[y].id == id@);
                    }
                }
            }
        }
    }

    /// How many contacts the routing table holds.
    pub fn table_len(&self) -> (r: usize)
        ensures
            r == self.tview().len(),
    {
        self.table.len()
    }
}

/// What a closest-node lookup yields: never more than `K` contacts, none on an
/// empty table, all of a small table whose window covers it, and the target's
/// own entry whenever the table holds the target.
pub proof fn lemma_find_closest_count(t: Seq<NodeV>, id: Seq<u8>)
    requires
        table_wf(t),
    ensures
        closest_spec(t, id).len() <= K,
        t.len() == 0 ==> closest_spec(t, id).len() == 0,
        (t.len() < K && lb(t, id) <= K / 2 && lb(t, id) + K / 2 >= t.len()) ==> closest_spec(
            t,
            id,
        ).len() == t.len(),
        t_contains(t, id) ==> closest_spec(t, id)[lb(t, id) - cl_start(t, id)].id == id,
{
    lemma_lb_props(t, id);
    lemma_lb_find(t, id);
}

} // verus!
