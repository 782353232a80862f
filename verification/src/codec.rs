//! The wire codec: KRPC messages as bencoded dictionaries with sorted keys.
//!
//! `enc_msg` is the canonical encoding; `encode_msg` produces exactly those
//! bytes, and `decode_msg` accepts a byte string if and only if it is the
//! canonical encoding of a well-formed message, returning that message. The
//! round trip is therefore part of the two functions' contracts.

use vstd::prelude::*;

use crate::dht::copy_bytes;
use crate::dht::NodeId;
use crate::dht::ID_BYTES;
use crate::model::ArgsV;
use crate::model::Arguments;
use crate::model::ErrorCode;
use crate::model::Errors;
use crate::model::Message;
use crate::model::MsgV;
use crate::model::RetV;
use crate::model::Returns;
use crate::model::Slice;
use crate::model::Type;
use crate::model::TypeV;
use crate::model::ValuesNodes;
use crate::model::VnV;
use crate::model::len_ok;

verus! {

/// An ASCII decimal digit.
pub open spec fn is_digit(b: u8) -> bool {
    48 <= b <= 57
}

/// Every byte of the string is a decimal digit.
pub open spec fn all_digits(s: Seq<u8>) -> bool {
    forall|i: int| 0 <= i < s.len() ==> is_digit(#[trigger] s[i])
}

/// The decimal numeral of `n`, most significant digit first.
pub open spec fn dec_digits(n: nat) -> Seq<u8>
    decreases n,
{
    if n < 10 {
        seq![(48 + n) as u8]
    } else {
        dec_digits(n / 10).push((48 + n % 10) as u8)
    }
}

/// The number a digit string stands for.
pub open spec fn digits_val(s: Seq<u8>) -> int
    decreases s.len(),
{
    if s.len() == 0 {
        0
    } else {
        digits_val(s.drop_last()) * 10 + (s.last() as int) - 48
    }
}

/// The piece `p` stands at position `pos` of `b`.
pub open spec fn at(b: Seq<u8>, pos: int, p: Seq<u8>) -> bool {
    0 <= pos && pos + p.len() <= b.len() && b.subrange(pos, pos + p.len()) == p
}

/// Position `p` ends a digit run: the buffer ends or a non-digit follows.
pub open spec fn num_boundary(b: Seq<u8>, p: int) -> bool {
    p == b.len() || !is_digit(b[p])
}

/// A bencoded byte string: the length numeral, a colon, the bytes.
pub open spec fn enc_bstr(s: Seq<u8>) -> Seq<u8> {
    dec_digits(s.len()) + seq![58u8] + s
}

/// A bencoded 20-byte identifier: the fixed prefix `20:` and the bytes.
pub open spec fn enc_id(s: Seq<u8>) -> Seq<u8> {
    seq![50u8, 48u8, 58u8] + s
}

/// A bencoded non-negative integer: `i`, the numeral, `e`.
pub open spec fn enc_int(n: u64) -> Seq<u8> {
    seq![105u8] + dec_digits(n as nat) + seq![101u8]
}

pub proof fn lemma_dec_digits_basic(n: nat)
    ensures
        dec_digits(n).len() >= 1,
        all_digits(dec_digits(n)),
        n > 0 ==> dec_digits(n)[0] != 48,
        n < 10 ==> dec_digits(n) == seq![(48 + n) as u8],
    decreases n,
{
    if n < 10 {
    } else {
        lemma_dec_digits_basic(n / 10);
        let d = dec_digits(n / 10);
        let w = dec_digits(n);
        assert(w == d.push((48 + n % 10) as u8));
        assert forall|i: int| 0 <= i < w.len() implies is_digit(#[trigger] w[i]) by {
            if i < d.len() {
                assert(w[i] == d[i]);
            }
        }
        assert(w[0] == d[0]);
    }
}

pub proof fn lemma_digits_val_dec(n: nat)
    ensures
        digits_val(dec_digits(n)) == n,
    decreases n,
{
    if n < 10 {
        let s = dec_digits(n);
        assert(s.drop_last() =~= Seq::<u8>::empty());
        assert(digits_val(Seq::<u8>::empty()) == 0);
    } else {
        lemma_digits_val_dec(n / 10);
        let s = dec_digits(n);
        assert(s == dec_digits(n / 10).push((48 + n % 10) as u8));
        assert(s.drop_last() =~= dec_digits(n / 10));
        assert(s.last() == (48 + n % 10) as u8);
    }
}

/// Numerals are unique: equal digit strings mean equal numbers.
pub proof fn lemma_dec_digits_inj(a: nat, b: nat)
    requires
        dec_digits(a) == dec_digits(b),
    ensures
        a == b,
{
    lemma_digits_val_dec(a);
    lemma_digits_val_dec(b);
}

pub proof fn lemma_digits_val_nonneg(s: Seq<u8>)
    requires
        all_digits(s),
    ensures
        digits_val(s) >= 0,
    decreases s.len(),
{
    if s.len() > 0 {
        assert(all_digits(s.drop_last())) by {
            assert forall|i: int| 0 <= i < s.drop_last().len() implies is_digit(
                #[trigger] s.drop_last()[i],
            ) by {
                assert(s.drop_last()[i] == s[i]);
            }
        }
        lemma_digits_val_nonneg(s.drop_last());
        assert(is_digit(s.last()));
    }
}

/// A prefix of a digit string stands for no more than the whole.
pub proof fn lemma_digits_val_prefix_le(s: Seq<u8>, k: int)
    requires
        all_digits(s),
        0 <= k <= s.len(),
    ensures
        digits_val(s.take(k)) <= digits_val(s),
    decreases s.len() - k,
{
    if k == s.len() {
        assert(s.take(k) =~= s);
    } else {
        lemma_digits_val_prefix_le(s, k + 1);
        let t = s.take(k + 1);
        assert(t.drop_last() =~= s.take(k));
        assert(t.last() == s[k]);
        assert(all_digits(s.take(k))) by {
            assert forall|i: int| 0 <= i < s.take(k).len() implies is_digit(
                #[trigger] s.take(k)[i],
            ) by {
                assert(s.take(k)[i] == s[i]);
            }
        }
        lemma_digits_val_nonneg(s.take(k));
        assert(is_digit(s[k]));
        assert(digits_val(t) == digits_val(s.take(k)) * 10 + (s[k] as int) - 48);
        assert(digits_val(s.take(k)) * 10 >= digits_val(s.take(k))) by (nonlinear_arith)
            requires
                digits_val(s.take(k)) >= 0,
        ;
    }
}

/// Splits a prefix claim over a concatenation into its two halves.
pub proof fn lemma_at_split(b: Seq<u8>, pos: int, p1: Seq<u8>, p2: Seq<u8>)
    requires
        at(b, pos, p1 + p2),
    ensures
        at(b, pos, p1),
        at(b, pos + p1.len(), p2),
{
    let w = p1 + p2;
    assert forall|i: int| 0 <= i < w.len() implies b[pos + i] == w[i] by {
        assert(b.subrange(pos, pos + w.len())[i] == b[pos + i]);
    }
    assert(b.subrange(pos, pos + p1.len()) =~= p1);
    assert forall|i: int|
        0 <= i < p2.len() implies b.subrange(pos + p1.len(), pos + p1.len() + p2.len())[i]
        == p2[i] by {
        assert(b[pos + p1.len() + i] == w[p1.len() + i]);
    }
    assert(b.subrange(pos + p1.len(), pos + p1.len() + p2.len()) =~= p2);
}

/// Joins two adjacent prefix claims into one over the concatenation.
pub proof fn lemma_at_join(b: Seq<u8>, pos: int, p1: Seq<u8>, p2: Seq<u8>)
    requires
        at(b, pos, p1),
        at(b, pos + p1.len(), p2),
    ensures
        at(b, pos, p1 + p2),
{
    let w = p1 + p2;
    assert forall|i: int| 0 <= i < w.len() implies b.subrange(pos, pos + w.len())[i] == w[i] by {
        if i < p1.len() {
            assert(b.subrange(pos, pos + p1.len())[i] == b[pos + i]);
        } else {
            assert(b.subrange(pos + p1.len(), pos + p1.len() + p2.len())[i - p1.len()] == b[pos
                + i]);
        }
    }
    assert(b.subrange(pos, pos + w.len()) =~= w);
}

/// Reads one byte out of a prefix claim.
pub proof fn lemma_at_byte(b: Seq<u8>, pos: int, p: Seq<u8>, k: int)
    requires
        at(b, pos, p),
        0 <= k < p.len(),
    ensures
        b[pos + k] == p[k],
{
    assert(b.subrange(pos, pos + p.len())[k] == b[pos + k]);
}


/// The bencoded dictionary keys and method names the protocol uses, each
/// with its own length prefix.
pub open spec fn k_a() -> Seq<u8> {
    seq![49u8, 58, 97]
}

pub open spec fn k_q() -> Seq<u8> {
    seq![49u8, 58, 113]
}

pub open spec fn k_t() -> Seq<u8> {
    seq![49u8, 58, 116]
}

pub open spec fn k_y() -> Seq<u8> {
    seq![49u8, 58, 121]
}

pub open spec fn k_r() -> Seq<u8> {
    seq![49u8, 58, 114]
}

pub open spec fn k_e() -> Seq<u8> {
    seq![49u8, 58, 101]
}

pub open spec fn k_ip() -> Seq<u8> {
    seq![50u8, 58, 105, 112]
}

pub open spec fn k_id() -> Seq<u8> {
    seq![50u8, 58, 105, 100]
}

pub open spec fn k_target() -> Seq<u8> {
    seq![54u8, 58, 116, 97, 114, 103, 101, 116]
}

pub open spec fn k_info_hash() -> Seq<u8> {
    seq![57u8, 58, 105, 110, 102, 111, 95, 104, 97, 115, 104]
}

pub open spec fn k_implied_port() -> Seq<u8> {
    seq![49u8, 50, 58, 105, 109, 112, 108, 105, 101, 100, 95, 112, 111, 114, 116]
}

pub open spec fn k_port() -> Seq<u8> {
    seq![52u8, 58, 112, 111, 114, 116]
}

pub open spec fn k_token() -> Seq<u8> {
    seq![53u8, 58, 116, 111, 107, 101, 110]
}

pub open spec fn k_nodes() -> Seq<u8> {
    seq![53u8, 58, 110, 111, 100, 101, 115]
}

pub open spec fn k_values() -> Seq<u8> {
    seq![54u8, 58, 118, 97, 108, 117, 101, 115]
}

pub open spec fn m_ping() -> Seq<u8> {
    seq![52u8, 58, 112, 105, 110, 103]
}

pub open spec fn m_find_node() -> Seq<u8> {
    seq![57u8, 58, 102, 105, 110, 100, 95, 110, 111, 100, 101]
}

pub open spec fn m_get_peers() -> Seq<u8> {
    seq![57u8, 58, 103, 101, 116, 95, 112, 101, 101, 114, 115]
}

pub open spec fn m_announce_peer() -> Seq<u8> {
    seq![49u8, 51, 58, 97, 110, 110, 111, 117, 110, 99, 101, 95, 112, 101, 101, 114]
}

/// The method name a query's argument shape selects.
pub open spec fn method_lit(a: ArgsV) -> Seq<u8> {
    match a {
        ArgsV::AnnouncePeer { .. } => m_announce_peer(),
        ArgsV::FindNode { .. } => m_find_node(),
        ArgsV::GetPeers { .. } => m_get_peers(),
        ArgsV::Ping { .. } => m_ping(),
    }
}

/// The argument dictionary, keys in sorted order.
pub open spec fn enc_args(a: ArgsV) -> Seq<u8> {
    match a {
        ArgsV::AnnouncePeer { id, implied_port, info_hash, port, token } => seq![100u8] + k_id()
            + enc_id(id) + k_implied_port() + enc_int(implied_port) + k_info_hash() + enc_id(
            info_hash,
        ) + k_port() + enc_int(port) + k_token() + enc_bstr(token) + seq![101u8],
        ArgsV::FindNode { id, target } => seq![100u8] + k_id() + enc_id(id) + k_target() + enc_id(
            target,
        ) + seq![101u8],
        ArgsV::GetPeers { id, info_hash } => seq![100u8] + k_id() + enc_id(id) + k_info_hash()
            + enc_id(info_hash) + seq![101u8],
        ArgsV::Ping { id } => seq![100u8] + k_id() + enc_id(id) + seq![101u8],
    }
}

/// The concatenated byte-string elements of a `values` list.
pub open spec fn enc_vals(vs: Seq<Seq<u8>>) -> Seq<u8>
    decreases vs.len(),
{
    if vs.len() == 0 {
        Seq::<u8>::empty()
    } else {
        enc_bstr(vs[0]) + enc_vals(vs.subrange(1, vs.len() as int))
    }
}

/// A bencoded list of byte strings.
pub open spec fn enc_vlist(vs: Seq<Seq<u8>>) -> Seq<u8> {
    seq![108u8] + enc_vals(vs) + seq![101u8]
}

/// The response dictionary, keys in sorted order.
pub open spec fn enc_ret(r: RetV) -> Seq<u8> {
    match r {
        RetV::GetPeers { id, token, values_nodes } => match values_nodes {
            VnV::Nodes { nodes } => seq![100u8] + k_id() + enc_id(id) + k_nodes() + enc_bstr(nodes)
                + k_token() + enc_bstr(token) + seq![101u8],
            VnV::Values { values } => seq![100u8] + k_id() + enc_id(id) + k_token() + enc_bstr(
                token,
            ) + k_values() + enc_vlist(values) + seq![101u8],
        },
        RetV::FindNode { id, nodes } => seq![100u8] + k_id() + enc_id(id) + k_nodes() + enc_bstr(
            nodes,
        ) + seq![101u8],
        RetV::Ping { id } => seq![100u8] + k_id() + enc_id(id) + seq![101u8],
        RetV::AnnouncePeer { id } => seq![100u8] + k_id() + enc_id(id) + seq![101u8],
    }
}

/// The whole message: one dictionary with keys in sorted order and the
/// one-byte discriminator under `y` matching the message kind.
pub open spec fn enc_msg(m: MsgV) -> Seq<u8> {
    match m.mtype {
        TypeV::Query { a } => seq![100u8] + k_a() + enc_args(a) + k_q() + method_lit(a) + k_t()
            + enc_bstr(m.t) + k_y() + seq![49u8, 58u8, 113u8] + seq![101u8],
        TypeV::Response { ip, r } => seq![100u8] + (match ip {
            Option::Some(v) => k_ip() + enc_bstr(v),
            Option::None => Seq::<u8>::empty(),
        }) + k_r() + enc_ret(r) + k_t() + enc_bstr(m.t) + k_y() + seq![49u8, 58u8, 114u8] + seq![
            101u8,
        ],
        TypeV::Error { code, msg } => seq![100u8] + k_e() + seq![108u8] + enc_int(code.spec_code())
            + enc_bstr(msg) + seq![101u8] + k_t() + enc_bstr(m.t) + k_y() + seq![
            49u8,
            58u8,
            101u8,
        ] + seq![101u8],
    }
}

fn x_k_a() -> (r: Vec<u8>)
    ensures
        r@ == k_a(),
{
    let r: Vec<u8> = vec![49u8, 58, 97];
    proof {
        assert(r@ =~= k_a());
    }
    r
}

fn x_k_q() -> (r: Vec<u8>)
    ensures
        r@ == k_q(),
{
    let r: Vec<u8> = vec![49u8, 58, 113];
    proof {
        assert(r@ =~= k_q());
    }
    r
}

fn x_k_t() -> (r: Vec<u8>)
    ensures
        r@ == k_t(),
{
    let r: Vec<u8> = vec![49u8, 58, 116];
    proof {
        assert(r@ =~= k_t());
    }
    r
}

fn x_k_y() -> (r: Vec<u8>)
    ensures
        r@ == k_y(),
{
    let r: Vec<u8> = vec![49u8, 58, 121];
    proof {
        assert(r@ =~= k_y());
    }
    r
}

fn x_k_r() -> (r: Vec<u8>)
    ensures
        r@ == k_r(),
{
    let r: Vec<u8> = vec![49u8, 58, 114];
    proof {
        assert(r@ =~= k_r());
    }
    r
}

fn x_k_e() -> (r: Vec<u8>)
    ensures
        r@ == k_e(),
{
    let r: Vec<u8> = vec![49u8, 58, 101];
    proof {
        assert(r@ =~= k_e());
    }
    r
}

fn x_k_ip() -> (r: Vec<u8>)
    ensures
        r@ == k_ip(),
{
    let r: Vec<u8> = vec![50u8, 58, 105, 112];
    proof {
        assert(r@ =~= k_ip());
    }
    r
}

fn x_k_id() -> (r: Vec<u8>)
    ensures
        r@ == k_id(),
{
    let r: Vec<u8> = vec![50u8, 58, 105, 100];
    proof {
        assert(r@ =~= k_id());
    }
    r
}

fn x_k_target() -> (r: Vec<u8>)
    ensures
        r@ == k_target(),
{
    let r: Vec<u8> = vec![54u8, 58, 116, 97, 114, 103, 101, 116];
    proof {
        assert(r@ =~= k_target());
    }
    r
}

fn x_k_info_hash() -> (r: Vec<u8>)
    ensures
        r@ == k_info_hash(),
{
    let r: Vec<u8> = vec![57u8, 58, 105, 110, 102, 111, 95, 104, 97, 115, 104];
    proof {
        assert(r@ =~= k_info_hash());
    }
    r
}

fn x_k_implied_port() -> (r: Vec<u8>)
    ensures
        r@ == k_implied_port(),
{
    let r: Vec<u8> = vec![49u8, 50, 58, 105, 109, 112, 108, 105, 101, 100, 95, 112, 111, 114, 116];
    proof {
        assert(r@ =~= k_implied_port());
    }
    r
}

fn x_k_port() -> (r: Vec<u8>)
    ensures
        r@ == k_port(),
{
    let r: Vec<u8> = vec![52u8, 58, 112, 111, 114, 116];
    proof {
        assert(r@ =~= k_port());
    }
    r
}

fn x_k_token() -> (r: Vec<u8>)
    ensures
        r@ == k_token(),
{
    let r: Vec<u8> = vec![53u8, 58, 116, 111, 107, 101, 110];
    proof {
        assert(r@ =~= k_token());
    }
    r
}

fn x_k_nodes() -> (r: Vec<u8>)
    ensures
        r@ == k_nodes(),
{
    let r: Vec<u8> = vec![53u8, 58, 110, 111, 100, 101, 115];
    proof {
        assert(r@ =~= k_nodes());
    }
    r
}

fn x_k_values() -> (r: Vec<u8>)
    ensures
        r@ == k_values(),
{
    let r: Vec<u8> = vec![54u8, 58, 118, 97, 108, 117, 101, 115];
    proof {
        assert(r@ =~= k_values());
    }
    r
}

fn x_m_ping() -> (r: Vec<u8>)
    ensures
        r@ == m_ping(),
{
    let r: Vec<u8> = vec![52u8, 58, 112, 105, 110, 103];
    proof {
        assert(r@ =~= m_ping());
    }
    r
}

fn x_m_find_node() -> (r: Vec<u8>)
    ensures
        r@ == m_find_node(),
{
    let r: Vec<u8> = vec![57u8, 58, 102, 105, 110, 100, 95, 110, 111, 100, 101];
    proof {
        assert(r@ =~= m_find_node());
    }
    r
}

fn x_m_get_peers() -> (r: Vec<u8>)
    ensures
        r@ == m_get_peers(),
{
    let r: Vec<u8> = vec![57u8, 58, 103, 101, 116, 95, 112, 101, 101, 114, 115];
    proof {
        assert(r@ =~= m_get_peers());
    }
    r
}

fn x_m_announce_peer() -> (r: Vec<u8>)
    ensures
        r@ == m_announce_peer(),
{
    let r: Vec<u8> = vec![49u8, 51, 58, 97, 110, 110, 111, 117, 110, 99, 101, 95, 112, 101, 101, 114];
    proof {
        assert(r@ =~= m_announce_peer());
    }
    r
}

/// Appends one byte string to another.
fn push_all(out: &mut Vec<u8>, piece: &Vec<u8>)
    ensures
        final(out)@ == old(out)@ + piece@,
{
    let mut i: usize = 0;
    while i < piece.len()
        invariant
            0 <= i <= piece@.len(),
            out@ == old(out)@ + piece@.subrange(0, i as int),
        decreases piece@.len() - i,
    {
        out.push(piece[i]);
        proof {
            assert(old(out)@ + piece@.subrange(0, i + 1) =~= (old(out)@ + piece@.subrange(
                0,
                i as int,
            )).push(piece@[i as int]));
        }
        i = i + 1;
    }
    proof {
        assert(piece@.subrange(0, piece@.len() as int) =~= piece@);
    }
}

/// Builds the decimal numeral of `n`.
fn u64_digits(n: u64) -> (r: Vec<u8>)
    ensures
        r@ == dec_digits(n as nat),
    decreases n,
{
    if n < 10 {
        let r: Vec<u8> = vec![(48 + n) as u8];
        proof {
            assert(r@ =~= dec_digits(n as nat));
        }
        r
    } else {
        let mut r = u64_digits(n / 10);
        r.push((48 + n % 10) as u8);
        r
    }
}

/// Appends the encoding of a byte string.
fn push_bstr(out: &mut Vec<u8>, s: &Vec<u8>)
    ensures
        final(out)@ == old(out)@ + enc_bstr(s@),
{
    let ghost o0 = out@;
    let d = u64_digits(s.len() as u64);
    push_all(out, &d);
    out.push(58);
    push_all(out, s);
    proof {
        assert(out@ =~= o0 + enc_bstr(s@));
    }
}

/// Appends the encoding of a 20-byte identifier.
fn push_id(out: &mut Vec<u8>, id: &NodeId)
    requires
        id.wf(),
    ensures
        final(out)@ == old(out)@ + enc_id(id@),
{
    let ghost o0 = out@;
    out.push(50);
    out.push(48);
    out.push(58);
    push_all(out, &id.0);
    proof {
        assert(out@ =~= o0 + enc_id(id@));
    }
}

/// Appends the encoding of a non-negative integer.
fn push_int(out: &mut Vec<u8>, n: u64)
    ensures
        final(out)@ == old(out)@ + enc_int(n),
{
    let ghost o0 = out@;
    out.push(105);
    let d = u64_digits(n);
    push_all(out, &d);
    out.push(101);
    proof {
        assert(out@ =~= o0 + enc_int(n));
    }
}


/// Appending an element appends its encoding.
pub proof fn lemma_enc_vals_snoc(vs: Seq<Seq<u8>>, s: Seq<u8>)
    ensures
        enc_vals(vs.push(s)) == enc_vals(vs) + enc_bstr(s),
    decreases vs.len(),
{
    let w = vs.push(s);
    if vs.len() == 0 {
        assert(w[0] == s);
        assert(w.subrange(1, w.len() as int) =~= Seq::<Seq<u8>>::empty());
        assert(enc_vals(w) == enc_bstr(s) + enc_vals(Seq::<Seq<u8>>::empty()));
        assert(enc_bstr(s) + Seq::<u8>::empty() =~= enc_bstr(s));
        assert(enc_vals(vs) == Seq::<u8>::empty());
        assert(enc_vals(vs) + enc_bstr(s) =~= enc_bstr(s));
    } else {
        let tail = vs.subrange(1, vs.len() as int);
        assert(w[0] == vs[0]);
        assert(w.subrange(1, w.len() as int) =~= tail.push(s));
        lemma_enc_vals_snoc(tail, s);
        assert(enc_vals(w) == enc_bstr(vs[0]) + (enc_vals(tail) + enc_bstr(s)));
        assert(enc_bstr(vs[0]) + (enc_vals(tail) + enc_bstr(s)) =~= (enc_bstr(vs[0]) + enc_vals(
            tail,
        )) + enc_bstr(s));
    }
}

/// The element encodings split at any position.
pub proof fn lemma_enc_vals_split(vs: Seq<Seq<u8>>, k: int)
    requires
        0 <= k <= vs.len(),
    ensures
        enc_vals(vs) == enc_vals(vs.take(k)) + enc_vals(vs.skip(k)),
    decreases k,
{
    if k == 0 {
        assert(vs.take(0) =~= Seq::<Seq<u8>>::empty());
        assert(vs.skip(0) =~= vs);
        assert(Seq::<u8>::empty() + enc_vals(vs) =~= enc_vals(vs));
    } else {
        lemma_enc_vals_split(vs, k - 1);
        assert(vs.take(k) =~= vs.take(k - 1).push(vs[k - 1]));
        lemma_enc_vals_snoc(vs.take(k - 1), vs[k - 1]);
        let sk = vs.skip(k - 1);
        assert(sk[0] == vs[k - 1]);
        assert(sk.subrange(1, sk.len() as int) =~= vs.skip(k));
        assert(enc_vals(sk) == enc_bstr(vs[k - 1]) + enc_vals(vs.skip(k)));
        assert(enc_vals(vs.take(k - 1)) + (enc_bstr(vs[k - 1]) + enc_vals(vs.skip(k))) =~= (
        enc_vals(vs.take(k - 1)) + enc_bstr(vs[k - 1])) + enc_vals(vs.skip(k)));
    }
}

/// The byte-string views of a list of slices.
pub open spec fn slice_views(v: Seq<Slice>) -> Seq<Seq<u8>> {
    v.map_values(|s: Slice| s@)
}

/// Appends the encoded elements of a `values` list.
fn push_vals(out: &mut Vec<u8>, values: &Vec<Slice>)
    ensures
        final(out)@ == old(out)@ + enc_vals(slice_views(values@)),
{
    let ghost vs = slice_views(values@);
    let mut i: usize = 0;
    while i < values.len()
        invariant
            0 <= i <= values@.len(),
            vs == slice_views(values@),
            out@ == old(out)@ + enc_vals(vs.take(i as int)),
        decreases values@.len() - i,
    {
        proof {
            assert(vs[i as int] == values@[i as int]@);
        }
        push_bstr(out, &values[i].0);
        proof {
            assert(vs.take(i + 1) =~= vs.take(i as int).push(vs[i as int]));
            lemma_enc_vals_snoc(vs.take(i as int), vs[i as int]);
            assert((old(out)@ + enc_vals(vs.take(i as int))) + enc_bstr(vs[i as int]) =~= old(out)@
                + (enc_vals(vs.take(i as int)) + enc_bstr(vs[i as int])));
        }
        i = i + 1;
    }
    proof {
        assert(vs.take(values@.len() as int) =~= vs);
    }
}

/// Appends one byte.
fn push_byte(out: &mut Vec<u8>, b: u8)
    ensures
        final(out)@ == old(out)@ + seq![b],
{
    out.push(b);
    proof {
        assert(out@ =~= old(out)@ + seq![b]);
    }
}

/// Writes the argument dictionary of a query.
fn encode_args(a: &Arguments) -> (r: Vec<u8>)
    requires
        a@.wf(),
    ensures
        r@ == enc_args(a@),
{
    let mut out: Vec<u8> = Vec::new();
    push_byte(&mut out, 100);
    proof {
        assert(out@ =~= seq![100u8]);
    }
    match a {
        Arguments::AnnouncePeer { id, implied_port, info_hash, port, token } => {
            push_all(&mut out, &x_k_id());
            push_id(&mut out, id);
            push_all(&mut out, &x_k_implied_port());
            push_int(&mut out, *implied_port);
            push_all(&mut out, &x_k_info_hash());
            push_id(&mut out, info_hash);
            push_all(&mut out, &x_k_port());
            push_int(&mut out, *port);
            push_all(&mut out, &x_k_token());
            push_bstr(&mut out, token);
            push_byte(&mut out, 101);
        },
        Arguments::FindNode { id, target } => {
            push_all(&mut out, &x_k_id());
            push_id(&mut out, id);
            push_all(&mut out, &x_k_target());
            push_id(&mut out, target);
            push_byte(&mut out, 101);
        },
        Arguments::GetPeers { id, info_hash } => {
            push_all(&mut out, &x_k_id());
            push_id(&mut out, id);
            push_all(&mut out, &x_k_info_hash());
            push_id(&mut out, info_hash);
            push_byte(&mut out, 101);
        },
        Arguments::Ping { id } => {
            push_all(&mut out, &x_k_id());
            push_id(&mut out, id);
            push_byte(&mut out, 101);
        },
    }
    out
}

/// Writes the value dictionary of a response.
fn encode_ret(rt: &Returns) -> (r: Vec<u8>)
    requires
        rt@.wf() || rt@ matches RetV::AnnouncePeer { .. },
        rt@ matches RetV::AnnouncePeer { id } ==> id.len() == ID_BYTES,
    ensures
        r@ == enc_ret(rt@),
{
    let mut out: Vec<u8> = Vec::new();
    push_byte(&mut out, 100);
    proof {
        assert(out@ =~= seq![100u8]);
    }
    match rt {
        Returns::GetPeers { id, token, values_nodes } => {
            push_all(&mut out, &x_k_id());
            push_id(&mut out, id);
            match values_nodes {
                ValuesNodes::Nodes { nodes } => {
                    push_all(&mut out, &x_k_nodes());
                    push_bstr(&mut out, nodes);
                    push_all(&mut out, &x_k_token());
                    push_bstr(&mut out, token);
                },
                ValuesNodes::Values { values } => {
                    push_all(&mut out, &x_k_token());
                    push_bstr(&mut out, token);
                    push_all(&mut out, &x_k_values());
                    push_byte(&mut out, 108);
                    push_vals(&mut out, values);
                    push_byte(&mut out, 101);
                    proof {
                        let pre = seq![100u8] + k_id() + enc_id(rt@->GetPeers_id) + k_token()
                            + enc_bstr(rt@->GetPeers_token);
                        assert(pre + seq![108u8] + enc_vals(slice_views(values@)) + seq![101u8]
                            =~= pre + enc_vlist(slice_views(values@)));
                    }
                },
            }
            push_byte(&mut out, 101);
        },
        Returns::FindNode { id, nodes } => {
            push_all(&mut out, &x_k_id());
            push_id(&mut out, id);
            push_all(&mut out, &x_k_nodes());
            push_bstr(&mut out, nodes);
            push_byte(&mut out, 101);
        },
        Returns::Ping { id } => {
            push_all(&mut out, &x_k_id());
            push_id(&mut out, id);
            push_byte(&mut out, 101);
        },
        Returns::AnnouncePeer { id } => {
            push_all(&mut out, &x_k_id());
            push_id(&mut out, id);
            push_byte(&mut out, 101);
        },
    }
    out
}

/// Writes the canonical bencoding of a well-formed message: one dictionary,
/// keys in sorted order, fixed-width identifier fields, and the method name
/// and discriminator that the message's shape selects.
pub fn encode_msg(m: &Message) -> (r: Vec<u8>)
    requires
        m@.wf(),
    ensures
        r@ == enc_msg(m@),
{
    let mut out: Vec<u8> = Vec::new();
    push_byte(&mut out, 100);
    proof {
        assert(out@ =~= seq![100u8]);
    }
    match &m.mtype {
        Type::Query { a } => {
            push_all(&mut out, &x_k_a());
            let ab = encode_args(a);
            push_all(&mut out, &ab);
            push_all(&mut out, &x_k_q());
            match a {
                Arguments::AnnouncePeer { .. } => push_all(&mut out, &x_m_announce_peer()),
                Arguments::FindNode { .. } => push_all(&mut out, &x_m_find_node()),
                Arguments::GetPeers { .. } => push_all(&mut out, &x_m_get_peers()),
                Arguments::Ping { .. } => push_all(&mut out, &x_m_ping()),
            }
            push_all(&mut out, &x_k_t());
            push_bstr(&mut out, &m.t);
            push_all(&mut out, &x_k_y());
            let y: Vec<u8> = vec![49u8, 58, 113];
            proof {
                assert(y@ =~= seq![49u8, 58u8, 113u8]);
            }
            push_all(&mut out, &y);
            push_byte(&mut out, 101);
        },
        Type::Response { ip, r } => {
            match ip {
                Option::Some(v) => {
                    push_all(&mut out, &x_k_ip());
                    push_bstr(&mut out, v);
                },
                Option::None => {
                    proof {
                        assert(out@ + Seq::<u8>::empty() =~= out@);
                    }
                },
            }
            push_all(&mut out, &x_k_r());
            let rb = encode_ret(r);
            push_all(&mut out, &rb);
            push_all(&mut out, &x_k_t());
            push_bstr(&mut out, &m.t);
            push_all(&mut out, &x_k_y());
            let y: Vec<u8> = vec![49u8, 58, 114];
            proof {
                assert(y@ =~= seq![49u8, 58u8, 114u8]);
            }
            push_all(&mut out, &y);
            push_byte(&mut out, 101);
        },
        Type::Error { e } => {
            push_all(&mut out, &x_k_e());
            push_byte(&mut out, 108);
            push_int(&mut out, e.0.code());
            push_bstr(&mut out, &e.1);
            push_byte(&mut out, 101);
            push_all(&mut out, &x_k_t());
            push_bstr(&mut out, &m.t);
            push_all(&mut out, &x_k_y());
            let y: Vec<u8> = vec![49u8, 58, 101];
            proof {
                assert(y@ =~= seq![49u8, 58u8, 101u8]);
            }
            push_all(&mut out, &y);
            push_byte(&mut out, 101);
        },
    }
    proof {
        assert(out@ =~= enc_msg(m@));
    }
    out
}


/// Copies `n` bytes starting at `from`.
fn copy_range(buf: &Vec<u8>, from: usize, n: usize) -> (r: Vec<u8>)
    requires
        from + n <= buf@.len(),
    ensures
        r@ == buf@.subrange(from as int, from + n),
{
    let bl: usize = buf.len();
    let mut r: Vec<u8> = Vec::new();
    let mut j: usize = 0;
    while j < n
        invariant
            0 <= j <= n,
            from + n <= bl,
            bl == buf@.len(),
            r@ == buf@.subrange(from as int, from + j),
        decreases n - j,
    {
        r.push(buf[from + j]);
        proof {
            assert(r@ =~= buf@.subrange(from as int, from + j + 1));
        }
        j = j + 1;
    }
    r
}

/// Matches a fixed literal at `pos`: succeeds if and only if it stands there.
fn expect(buf: &Vec<u8>, pos: usize, lit: &Vec<u8>) -> (r: Option<usize>)
    ensures
        match r {
            Option::Some(p) => at(buf@, pos as int, lit@) && p == pos + lit@.len(),
            Option::None => !at(buf@, pos as int, lit@),
        },
{
    if buf.len() < lit.len() || pos > buf.len() - lit.len() {
        return Option::None;
    }
    let bl: usize = buf.len();
    let mut i: usize = 0;
    while i < lit.len()
        invariant
            0 <= i <= lit@.len(),
            pos + lit@.len() <= bl,
            bl == buf@.len(),
            forall|j: int| 0 <= j < i ==> buf@[pos + j] == lit@[j],
        decreases lit@.len() - i,
    {
        if buf[pos + i] != lit[i] {
            proof {
                if at(buf@, pos as int, lit@) {
                    lemma_at_byte(buf@, pos as int, lit@, i as int);
                }
            }
            return Option::None;
        }
        i = i + 1;
    }
    proof {
        assert(buf@.subrange(pos as int, pos + lit@.len()) =~= lit@);
    }
    Option::Some(pos + lit.len())
}

/// Reads a decimal numeral at `pos`. Succeeds exactly on the canonical
/// numeral of a number that fits, read up to the first non-digit.
fn parse_number(buf: &Vec<u8>, pos: usize) -> (r: Option<(u64, usize)>)
    ensures
        (match r {
            Option::Some(v) => {
                &&& pos < v.1 <= buf@.len()
                &&& buf@.subrange(pos as int, v.1 as int) == dec_digits(v.0 as nat)
            },
            Option::None => true,
        }),
        forall|n: nat|
            n <= u64::MAX && at(buf@, pos as int, dec_digits(n)) && num_boundary(
                buf@,
                pos + dec_digits(n).len(),
            ) ==> (r matches Some(v) && v.0 == n && v.1 == pos + dec_digits(n).len()),
{
    if pos >= buf.len() {
        proof {
            assert forall|n: nat|
                n <= u64::MAX && at(buf@, pos as int, dec_digits(n)) && num_boundary(
                    buf@,
                    pos + dec_digits(n).len(),
                ) implies false by {
                lemma_dec_digits_basic(n);
            }
        }
        return Option::None;
    }
    let b0 = buf[pos];
    if !(48 <= b0 && b0 <= 57) {
        proof {
            assert forall|n: nat|
                n <= u64::MAX && at(buf@, pos as int, dec_digits(n)) && num_boundary(
                    buf@,
                    pos + dec_digits(n).len(),
                ) implies false by {
                lemma_dec_digits_basic(n);
                lemma_at_byte(buf@, pos as int, dec_digits(n), 0);
            }
        }
        return Option::None;
    }
    if b0 == 48 {
        proof {
            assert(buf@.subrange(pos as int, pos + 1) =~= dec_digits(0));
            assert forall|n: nat|
                n <= u64::MAX && at(buf@, pos as int, dec_digits(n)) && num_boundary(
                    buf@,
                    pos + dec_digits(n).len(),
                ) implies n == 0 by {
                lemma_dec_digits_basic(n);
                lemma_at_byte(buf@, pos as int, dec_digits(n), 0);
            }
        }
        return Option::Some((0, pos + 1));
    }
    let mut acc: u64 = (b0 - 48) as u64;
    let mut i: usize = pos + 1;
    proof {
        assert(buf@.subrange(pos as int, pos + 1) =~= dec_digits(acc as nat));
    }
    while i < buf.len() && 48 <= buf[i] && buf[i] <= 57
        invariant
            pos < i <= buf@.len(),
            1 <= acc <= u64::MAX,
            buf@.subrange(pos as int, i as int) == dec_digits(acc as nat),
        decreases buf@.len() - i,
    {
        let d = buf[i] - 48;
        if acc > (u64::MAX - (d as u64)) / 10 {
            proof {
                lemma_dec_digits_basic(acc as nat);
                assert forall|n: nat|
                    n <= u64::MAX && at(buf@, pos as int, dec_digits(n)) && num_boundary(
                        buf@,
                        pos + dec_digits(n).len(),
                    ) implies false by {
                    let dd = dec_digits(n);
                    lemma_dec_digits_basic(n);
                    lemma_digits_val_dec(n);
                    let ln = dd.len() as int;
                    // the digit run reaches past position i
                    if pos + ln <= i {
                        if pos + ln < i {
                            assert(buf@.subrange(pos as int, i as int)[ln] == buf@[pos + ln]);
                            assert(is_digit(buf@[pos + ln]));
                        } else {
                            assert(is_digit(buf@[i as int]));
                        }
                        assert(false);
                    }
                    // so the bytes up to i + 1 are a proper prefix of the numeral
                    let k = i + 1 - pos;
                    assert(dd.take(k) =~= dec_digits(acc as nat).push((48 + d) as u8)) by {
                        assert forall|x: int| 0 <= x < k implies dd.take(k)[x] == dec_digits(
                            acc as nat,
                        ).push((48 + d) as u8)[x] by {
                            lemma_at_byte(buf@, pos as int, dd, x);
                            if x < k - 1 {
                                assert(buf@.subrange(pos as int, i as int)[x] == buf@[pos + x]);
                            }
                        }
                    }
                    assert(dd.take(k).drop_last() =~= dec_digits(acc as nat));
                    assert(dd.take(k).last() == (48 + d) as u8);
                    lemma_digits_val_dec(acc as nat);
                    assert(digits_val(dd.take(k)) == acc * 10 + d);
                    lemma_digits_val_prefix_le(dd, k);
                    assert(acc * 10 + d <= n);
                    // yet the guard says the next value would not fit
                    assert(10 * ((u64::MAX - (d as u64)) / 10) + 9 >= u64::MAX - (d as u64));
                    assert(acc * 10 + d > u64::MAX) by (nonlinear_arith)
                        requires
                            acc >= (u64::MAX - (d as u64)) / 10 + 1,
                            10 * ((u64::MAX - (d as u64)) / 10) + 9 >= u64::MAX - (d as u64),
                            0 <= d <= 9,
                    ;
                }
            }
            return Option::None;
        }
        let ghost acc0 = acc;
        acc = acc * 10 + (d as u64);
        proof {
            assert(acc as nat >= 10);
            assert((acc as nat) / 10 == acc0 as nat && (acc as nat) % 10 == d as nat)
                by (nonlinear_arith)
                requires
                    acc == acc0 * 10 + d,
                    0 <= d <= 9,
                    acc0 >= 1,
            ;
            assert(dec_digits(acc as nat) == dec_digits(acc0 as nat).push((48 + d) as u8));
            assert(buf@.subrange(pos as int, i + 1) =~= buf@.subrange(pos as int, i as int).push(
                buf@[i as int],
            ));
        }
        i = i + 1;
    }
    proof {
        lemma_dec_digits_basic(acc as nat);
        assert forall|n: nat|
            n <= u64::MAX && at(buf@, pos as int, dec_digits(n)) && num_boundary(
                buf@,
                pos + dec_digits(n).len(),
            ) implies acc == n && i == pos + dec_digits(n).len() by {
            let dd = dec_digits(n);
            lemma_dec_digits_basic(n);
            let ln = dd.len() as int;
            if pos + ln > i {
                assert(ln > i - pos);
                lemma_at_byte(buf@, pos as int, dd, i - pos);
                assert(is_digit(buf@[i as int]));
                assert(false);
            }
            if pos + ln < i {
                assert(buf@.subrange(pos as int, i as int)[ln] == buf@[pos + ln]);
                assert(is_digit(buf@[pos + ln]));
                assert(false);
            }
            assert(buf@.subrange(pos as int, i as int) =~= dd) by {
                assert forall|x: int| 0 <= x < ln implies buf@.subrange(pos as int, i as int)[x]
                    == dd[x] by {
                    lemma_at_byte(buf@, pos as int, dd, x);
                }
            }
            lemma_dec_digits_inj(acc as nat, n);
        }
    }
    Option::Some((acc, i))
}

/// Reads one bencoded byte string at `pos`: succeeds exactly on a canonical
/// length numeral, a colon, and that many bytes.
fn parse_bstr(buf: &Vec<u8>, pos: usize) -> (r: Option<(Vec<u8>, usize)>)
    ensures
        (match r {
            Option::Some(v) => {
                &&& at(buf@, pos as int, enc_bstr(v.0@))
                &&& v.1 == pos + enc_bstr(v.0@).len()
                &&& pos < v.1 <= buf@.len()
                &&& len_ok(v.0@)
            },
            Option::None => true,
        }),
        forall|s: Seq<u8>|
            len_ok(s) && at(buf@, pos as int, enc_bstr(s)) ==> (r matches Some(v) && v.0@ == s
                && v.1 == pos + enc_bstr(s).len()),
{
    proof {
        assert forall|s: Seq<u8>| len_ok(s) && at(buf@, pos as int, enc_bstr(s)) implies at(
            buf@,
            pos as int,
            dec_digits(s.len()),
        ) && at(buf@, pos + dec_digits(s.len()).len(), seq![58u8] + s) by {
            assert(enc_bstr(s) =~= dec_digits(s.len()) + (seq![58u8] + s));
            lemma_at_split(buf@, pos as int, dec_digits(s.len()), seq![58u8] + s);
        }
    }
    let num = parse_number(buf, pos);
    match num {
        Option::None => {
            proof {
                assert forall|s: Seq<u8>| len_ok(s) && at(buf@, pos as int, enc_bstr(s)) implies
                    false by {
                    lemma_dec_digits_basic(s.len());
                    lemma_at_byte(buf@, pos + dec_digits(s.len()).len(), seq![58u8] + s, 0);
                }
            }
            Option::None
        },
        Option::Some((n, p)) => {
            proof {
                assert forall|s: Seq<u8>| len_ok(s) && at(buf@, pos as int, enc_bstr(s)) implies n
                    == s.len() && p == pos + dec_digits(s.len()).len() by {
                    lemma_dec_digits_basic(s.len());
                    lemma_at_byte(buf@, pos + dec_digits(s.len()).len(), seq![58u8] + s, 0);
                }
            }
            if p >= buf.len() || buf[p] != 58 {
                proof {
                    assert forall|s: Seq<u8>| len_ok(s) && at(buf@, pos as int, enc_bstr(s))
                        implies false by {
                        lemma_at_byte(buf@, pos + dec_digits(s.len()).len(), seq![58u8] + s, 0);
                    }
                }
                return Option::None;
            }
            if ((buf.len() - p - 1) as u64) < n {
                proof {
                    assert forall|s: Seq<u8>| len_ok(s) && at(buf@, pos as int, enc_bstr(s))
                        implies false by {
                        assert(pos + enc_bstr(s).len() <= buf@.len());
                        assert(enc_bstr(s).len() == dec_digits(s.len()).len() + 1 + s.len());
                    }
                }
                return Option::None;
            }
            let nn = n as usize;
            let v = copy_range(buf, p + 1, nn);
            proof {
                assert(buf@.subrange(p as int, p + 1) =~= seq![58u8]);
                lemma_at_join(buf@, p as int, seq![58u8], v@);
                lemma_at_join(buf@, pos as int, dec_digits(n as nat), seq![58u8] + v@);
                assert(dec_digits(n as nat) + (seq![58u8] + v@) =~= enc_bstr(v@));
                assert forall|s: Seq<u8>| len_ok(s) && at(buf@, pos as int, enc_bstr(s)) implies v@
                    == s by {
                    lemma_at_split(buf@, pos + dec_digits(s.len()).len(), seq![58u8], s);
                    assert(s =~= buf@.subrange(p + 1, p + 1 + s.len()));
                }
            }
            Option::Some((v, p + 1 + nn))
        },
    }
}

/// Reads one 20-byte identifier value at `pos`: the fixed `20:` prefix and
/// exactly twenty bytes.
fn parse_id(buf: &Vec<u8>, pos: usize) -> (r: Option<(NodeId, usize)>)
    ensures
        (match r {
            Option::Some(v) => {
                &&& v.0.wf()
                &&& at(buf@, pos as int, enc_id(v.0@))
                &&& v.1 == pos + enc_id(v.0@).len()
                &&& pos < v.1 <= buf@.len()
            },
            Option::None => true,
        }),
        forall|s: Seq<u8>|
            s.len() == ID_BYTES && at(buf@, pos as int, enc_id(s)) ==> (r matches Some(v) && v.0@
                == s && v.1 == pos + enc_id(s).len()),
{
    let pre: Vec<u8> = vec![50u8, 48, 58];
    proof {
        assert(pre@ =~= seq![50u8, 48u8, 58u8]);
        assert forall|s: Seq<u8>| s.len() == ID_BYTES && at(buf@, pos as int, enc_id(s)) implies
            at(buf@, pos as int, pre@) && at(buf@, pos + 3, s) by {
            lemma_at_split(buf@, pos as int, seq![50u8, 48u8, 58u8], s);
        }
    }
    match expect(buf, pos, &pre) {
        Option::None => Option::None,
        Option::Some(p) => {
            if buf.len() < ID_BYTES || p > buf.len() - ID_BYTES {
                return Option::None;
            }
            let v = copy_range(buf, p, ID_BYTES);
            proof {
                lemma_at_join(buf@, pos as int, pre@, v@);
                assert(pre@ + v@ =~= enc_id(v@));
                assert forall|s: Seq<u8>| s.len() == ID_BYTES && at(buf@, pos as int, enc_id(s))
                    implies v@ == s by {
                    assert(s =~= buf@.subrange(p as int, p + ID_BYTES));
                }
            }
            Option::Some((NodeId(v), p + ID_BYTES))
        },
    }
}

/// Reads one bencoded non-negative integer at `pos`.
fn parse_int(buf: &Vec<u8>, pos: usize) -> (r: Option<(u64, usize)>)
    ensures
        (match r {
            Option::Some(v) => {
                &&& at(buf@, pos as int, enc_int(v.0))
                &&& v.1 == pos + enc_int(v.0).len()
                &&& pos < v.1 <= buf@.len()
            },
            Option::None => true,
        }),
        forall|n: u64|
            at(buf@, pos as int, enc_int(n)) ==> (r matches Some(v) && v.0 == n && v.1 == pos
                + enc_int(n).len()),
{
    proof {
        assert forall|n: u64| at(buf@, pos as int, enc_int(n)) implies at(
            buf@,
            pos as int,
            seq![105u8],
        ) && at(buf@, pos + 1, dec_digits(n as nat)) && at(
            buf@,
            pos + 1 + dec_digits(n as nat).len(),
            seq![101u8],
        ) by {
            assert(enc_int(n) =~= seq![105u8] + (dec_digits(n as nat) + seq![101u8]));
            lemma_at_split(buf@, pos as int, seq![105u8], dec_digits(n as nat) + seq![101u8]);
            lemma_at_split(buf@, pos + 1, dec_digits(n as nat), seq![101u8]);
        }
    }
    let iv: Vec<u8> = vec![105u8];
    let ev: Vec<u8> = vec![101u8];
    proof {
        assert(iv@ =~= seq![105u8]);
        assert(ev@ =~= seq![101u8]);
    }
    match expect(buf, pos, &iv) {
        Option::None => Option::None,
        Option::Some(p) => {
            proof {
                assert forall|n: u64| at(buf@, pos as int, enc_int(n)) implies num_boundary(
                    buf@,
                    p + dec_digits(n as nat).len(),
                ) by {
                    lemma_at_byte(buf@, pos + 1 + dec_digits(n as nat).len(), seq![101u8], 0);
                }
            }
            match parse_number(buf, p) {
                Option::None => Option::None,
                Option::Some((n, p2)) => {
                    match expect(buf, p2, &ev) {
                        Option::None => Option::None,
                        Option::Some(p3) => {
                            proof {
                                assert(buf@.subrange(pos as int, pos + 1) =~= seq![105u8]);
                                lemma_at_join(
                                    buf@,
                                    p as int,
                                    dec_digits(n as nat),
                                    seq![101u8],
                                );
                                lemma_at_join(
                                    buf@,
                                    pos as int,
                                    seq![105u8],
                                    dec_digits(n as nat) + seq![101u8],
                                );
                                assert(seq![105u8] + (dec_digits(n as nat) + seq![101u8]) =~=
                                    enc_int(n));
                            }
                            Option::Some((n, p3))
                        },
                    }
                },
            }
        },
    }
}


/// Every element of the list is short enough to have a wire numeral.
pub open spec fn vals_ok(vs: Seq<Seq<u8>>) -> bool {
    forall|i: int| 0 <= i < vs.len() ==> len_ok(#[trigger] vs[i])
}

/// Where a list encoding stands at `pos`, its `k`th element's encoding stands
/// after the opening byte and the earlier elements.
proof fn lemma_vlist_elem(b: Seq<u8>, pos: int, vs: Seq<Seq<u8>>, k: int)
    requires
        at(b, pos, enc_vlist(vs)),
        0 <= k < vs.len(),
    ensures
        at(b, pos + 1 + enc_vals(vs.take(k)).len(), enc_bstr(vs[k])),
{
    assert(enc_vlist(vs) =~= seq![108u8] + (enc_vals(vs) + seq![101u8]));
    lemma_at_split(b, pos, seq![108u8], enc_vals(vs) + seq![101u8]);
    lemma_at_split(b, pos + 1, enc_vals(vs), seq![101u8]);
    lemma_enc_vals_split(vs, k);
    lemma_at_split(b, pos + 1, enc_vals(vs.take(k)), enc_vals(vs.skip(k)));
    let sk = vs.skip(k);
    assert(sk[0] == vs[k]);
    assert(sk.subrange(1, sk.len() as int) =~= vs.skip(k + 1));
    assert(enc_vals(sk) == enc_bstr(vs[k]) + enc_vals(vs.skip(k + 1)));
    lemma_at_split(b, pos + 1 + enc_vals(vs.take(k)).len(), enc_bstr(vs[k]), enc_vals(
        vs.skip(k + 1),
    ));
}

/// Where a list encoding stands at `pos`, the closing byte stands after all
/// elements, and the opening byte at `pos`.
proof fn lemma_vlist_end(b: Seq<u8>, pos: int, vs: Seq<Seq<u8>>)
    requires
        at(b, pos, enc_vlist(vs)),
    ensures
        at(b, pos, seq![108u8]),
        at(b, pos + 1 + enc_vals(vs).len(), seq![101u8]),
{
    assert(enc_vlist(vs) =~= seq![108u8] + (enc_vals(vs) + seq![101u8]));
    lemma_at_split(b, pos, seq![108u8], enc_vals(vs) + seq![101u8]);
    lemma_at_split(b, pos + 1, enc_vals(vs), seq![101u8]);
}

/// Reads one bencoded list of byte strings at `pos`: succeeds exactly on the
/// canonical list encoding.
fn parse_values(buf: &Vec<u8>, pos: usize) -> (r: Option<(Vec<Slice>, usize)>)
    ensures
        (match r {
            Option::Some(v) => {
                &&& at(buf@, pos as int, enc_vlist(slice_views(v.0@)))
                &&& v.1 == pos + enc_vlist(slice_views(v.0@)).len()
                &&& pos < v.1 <= buf@.len()
                &&& vals_ok(slice_views(v.0@))
            },
            Option::None => true,
        }),
        forall|vs: Seq<Seq<u8>>|
            vals_ok(vs) && at(buf@, pos as int, enc_vlist(vs)) ==> (r matches Some(v)
                && slice_views(v.0@) == vs && v.1 == pos + enc_vlist(vs).len()),
{
    let lv: Vec<u8> = vec![108u8];
    proof {
        assert(lv@ =~= seq![108u8]);
        assert forall|vs: Seq<Seq<u8>>|
            vals_ok(vs) && at(buf@, pos as int, enc_vlist(vs)) implies at(
            buf@,
            pos as int,
            seq![108u8],
        ) by {
            lemma_vlist_end(buf@, pos as int, vs);
        }
    }
    let q0 = match expect(buf, pos, &lv) {
        Option::None => {
            return Option::None;
        },
        Option::Some(q) => q,
    };
    let mut acc: Vec<Slice> = Vec::new();
    let mut p: usize = q0;
    proof {
        assert(slice_views(acc@) =~= Seq::<Seq<u8>>::empty());
        assert(enc_vals(slice_views(acc@)) == Seq::<u8>::empty());
        assert(at(buf@, q0 as int, enc_vals(slice_views(acc@)))) by {
            assert(buf@.subrange(q0 as int, q0 as int) =~= Seq::<u8>::empty());
        }
    }
    while p < buf.len() && buf[p] != 101
        invariant
            pos < q0 <= p <= buf@.len(),
            q0 == pos + 1,
            at(buf@, pos as int, seq![108u8]),
            vals_ok(slice_views(acc@)),
            at(buf@, q0 as int, enc_vals(slice_views(acc@))),
            p == q0 + enc_vals(slice_views(acc@)).len(),
            forall|vs: Seq<Seq<u8>>|
                vals_ok(vs) && at(buf@, pos as int, enc_vlist(vs)) ==> #[trigger] vs.take(
                    slice_views(acc@).len() as int,
                ) == slice_views(acc@) && vs.len() >= slice_views(acc@).len(),
        decreases buf@.len() - p,
    {
        let ghost a0 = slice_views(acc@);
        proof {
            assert forall|vs: Seq<Seq<u8>>|
                vals_ok(vs) && at(buf@, pos as int, enc_vlist(vs)) implies vs.len() > a0.len()
                && at(buf@, p as int, enc_bstr(vs[a0.len() as int])) && len_ok(
                vs[a0.len() as int],
            ) by {
                assert(vs.take(a0.len() as int) == a0);
                if vs.len() == a0.len() {
                    assert(vs.take(a0.len() as int) =~= vs);
                    lemma_vlist_end(buf@, pos as int, vs);
                    lemma_at_byte(buf@, pos + 1 + enc_vals(vs).len(), seq![101u8], 0);
                }
                lemma_vlist_elem(buf@, pos as int, vs, a0.len() as int);
            }
        }
        match parse_bstr(buf, p) {
            Option::None => {
                return Option::None;
            },
            Option::Some((sv, p2)) => {
                let ghost svv = sv@;
                acc.push(Slice(sv));
                proof {
                    assert(slice_views(acc@) =~= a0.push(svv));
                    lemma_enc_vals_snoc(a0, svv);
                    assert(vals_ok(slice_views(acc@))) by {
                        assert forall|i: int| 0 <= i < slice_views(acc@).len() implies len_ok(
                            #[trigger] slice_views(acc@)[i],
                        ) by {
                            if i < a0.len() {
                                assert(slice_views(acc@)[i] == a0[i]);
                            }
                        }
                    }
                    lemma_at_join(buf@, q0 as int, enc_vals(a0), enc_bstr(svv));
                    assert(at(buf@, q0 as int, enc_vals(slice_views(acc@))));
                    assert forall|vs: Seq<Seq<u8>>|
                        vals_ok(vs) && at(buf@, pos as int, enc_vlist(vs)) implies #[trigger] vs.take(
                        slice_views(acc@).len() as int,
                    ) == slice_views(acc@) && vs.len() >= slice_views(acc@).len() by {
                        assert(vs.len() > a0.len());
                        assert(at(buf@, p as int, enc_bstr(vs[a0.len() as int])));
                        assert(svv == vs[a0.len() as int]);
                        assert(vs.take(a0.len() as int + 1) =~= vs.take(a0.len() as int).push(
                            vs[a0.len() as int],
                        ));
                    }
                }
                p = p2;
            },
        }
    }
    if p >= buf.len() {
        proof {
            assert forall|vs: Seq<Seq<u8>>|
                vals_ok(vs) && at(buf@, pos as int, enc_vlist(vs)) implies false by {
                assert(vs.take(slice_views(acc@).len() as int) == slice_views(acc@));
                if vs.len() == slice_views(acc@).len() {
                    assert(vs.take(slice_views(acc@).len() as int) =~= vs);
                    lemma_vlist_end(buf@, pos as int, vs);
                } else {
                    lemma_vlist_elem(buf@, pos as int, vs, slice_views(acc@).len() as int);
                    lemma_dec_digits_basic(vs[slice_views(acc@).len() as int].len());
                }
            }
        }
        return Option::None;
    }
    proof {
        let a0 = slice_views(acc@);
        assert forall|vs: Seq<Seq<u8>>|
            vals_ok(vs) && at(buf@, pos as int, enc_vlist(vs)) implies vs == a0 && pos
                + enc_vlist(vs).len() == p + 1 by {
            assert(vs.take(a0.len() as int) == a0);
            if vs.len() > a0.len() {
                lemma_vlist_elem(buf@, pos as int, vs, a0.len() as int);
                lemma_dec_digits_basic(vs[a0.len() as int].len());
                lemma_at_byte(buf@, p as int, enc_bstr(vs[a0.len() as int]), 0);
            }
            assert(vs.take(a0.len() as int) =~= vs);
        }
        assert(buf@.subrange(p as int, p + 1) =~= seq![101u8]);
        lemma_at_join(buf@, q0 as int, enc_vals(slice_views(acc@)), seq![101u8]);
        lemma_at_join(buf@, pos as int, seq![108u8], enc_vals(slice_views(acc@)) + seq![101u8]);
        assert(seq![108u8] + (enc_vals(slice_views(acc@)) + seq![101u8]) =~= enc_vlist(
            slice_views(acc@),
        ));
    }
    Option::Some((acc, p + 1))
}


/// The identifier field common to every argument shape.
pub open spec fn args_id(av: ArgsV) -> Seq<u8> {
    match av {
        ArgsV::AnnouncePeer { id, .. } => id,
        ArgsV::FindNode { id, .. } => id,
        ArgsV::GetPeers { id, .. } => id,
        ArgsV::Ping { id } => id,
    }
}

/// Where an argument dictionary stands at `pos`, each of its pieces stands at
/// its own position.
spec fn args_facts(b: Seq<u8>, pos: int, av: ArgsV) -> bool {
    &&& at(b, pos, seq![100u8])
    &&& at(b, pos + 1, k_id())
    &&& at(b, pos + 5, enc_id(args_id(av)))
    &&& match av {
        ArgsV::Ping { id } => at(b, pos + 28, seq![101u8]) && enc_args(av).len() == 29,
        ArgsV::FindNode { id, target } => at(b, pos + 28, k_target()) && at(
            b,
            pos + 36,
            enc_id(target),
        ) && at(b, pos + 59, seq![101u8]) && enc_args(av).len() == 60,
        ArgsV::GetPeers { id, info_hash } => at(b, pos + 28, k_info_hash()) && at(
            b,
            pos + 39,
            enc_id(info_hash),
        ) && at(b, pos + 62, seq![101u8]) && enc_args(av).len() == 63,
        ArgsV::AnnouncePeer { id, implied_port, info_hash, port, token } => {
            let q2 = pos + 43;
            let q3 = q2 + enc_int(implied_port).len();
            let q4 = q3 + 11;
            let q5 = q4 + 23;
            let q6 = q5 + 6;
            let q7 = q6 + enc_int(port).len();
            let q8 = q7 + 7;
            let q9 = q8 + enc_bstr(token).len();
            &&& at(b, pos + 28, k_implied_port())
            &&& at(b, q2, enc_int(implied_port))
            &&& at(b, q3, k_info_hash())
            &&& at(b, q4, enc_id(info_hash))
            &&& at(b, q5, k_port())
            &&& at(b, q6, enc_int(port))
            &&& at(b, q7, k_token())
            &&& at(b, q8, enc_bstr(token))
            &&& at(b, q9, seq![101u8])
            &&& enc_args(av).len() == q9 + 1 - pos
        },
    }
}

#[verifier::rlimit(100)]
#[verifier::spinoff_prover]
proof fn lemma_args_facts(b: Seq<u8>, pos: int, av: ArgsV)
    requires
        av.wf(),
        at(b, pos, enc_args(av)),
    ensures
        args_facts(b, pos, av),
{
    match av {
        ArgsV::Ping { id } => {
            assert(enc_args(av) =~= seq![100u8] + (k_id() + (enc_id(id) + seq![101u8])));
            lemma_at_split(b, pos, seq![100u8], k_id() + (enc_id(id) + seq![101u8]));
            lemma_at_split(b, pos + 1, k_id(), enc_id(id) + seq![101u8]);
            lemma_at_split(b, pos + 5, enc_id(id), seq![101u8]);
        },
        ArgsV::FindNode { id, target } => {
            assert(enc_args(av) =~= seq![100u8] + (k_id() + (enc_id(id) + (k_target() + (enc_id(
                target,
            ) + seq![101u8])))));
            lemma_at_split(b, pos, seq![100u8], k_id() + (enc_id(id) + (k_target() + (enc_id(
                target,
            ) + seq![101u8]))));
            lemma_at_split(b, pos + 1, k_id(), enc_id(id) + (k_target() + (enc_id(target) + seq![
                101u8,
            ])));
            lemma_at_split(b, pos + 5, enc_id(id), k_target() + (enc_id(target) + seq![101u8]));
            lemma_at_split(b, pos + 28, k_target(), enc_id(target) + seq![101u8]);
            lemma_at_split(b, pos + 36, enc_id(target), seq![101u8]);
        },
        ArgsV::GetPeers { id, info_hash } => {
            assert(enc_args(av) =~= seq![100u8] + (k_id() + (enc_id(id) + (k_info_hash() + (
            enc_id(info_hash) + seq![101u8])))));
            lemma_at_split(b, pos, seq![100u8], k_id() + (enc_id(id) + (k_info_hash() + (enc_id(
                info_hash,
            ) + seq![101u8]))));
            lemma_at_split(b, pos + 1, k_id(), enc_id(id) + (k_info_hash() + (enc_id(info_hash)
                + seq![101u8])));
            lemma_at_split(b, pos + 5, enc_id(id), k_info_hash() + (enc_id(info_hash) + seq![
                101u8,
            ]));
            lemma_at_split(b, pos + 28, k_info_hash(), enc_id(info_hash) + seq![101u8]);
            lemma_at_split(b, pos + 39, enc_id(info_hash), seq![101u8]);
        },
        ArgsV::AnnouncePeer { id, implied_port, info_hash, port, token } => {
            let r8 = enc_bstr(token) + seq![101u8];
            let r7 = k_token() + r8;
            let r6 = enc_int(port) + r7;
            let r5 = k_port() + r6;
            let r4 = enc_id(info_hash) + r5;
            let r3 = k_info_hash() + r4;
            let r2 = enc_int(implied_port) + r3;
            let r1 = k_implied_port() + r2;
            let r0 = enc_id(id) + r1;
            assert(enc_args(av) =~= seq![100u8] + (k_id() + r0));
            lemma_at_split(b, pos, seq![100u8], k_id() + r0);
            lemma_at_split(b, pos + 1, k_id(), r0);
            lemma_at_split(b, pos + 5, enc_id(id), r1);
            lemma_at_split(b, pos + 28, k_implied_port(), r2);
            lemma_at_split(b, pos + 43, enc_int(implied_port), r3);
            let q3 = pos + 43 + enc_int(implied_port).len();
            lemma_at_split(b, q3, k_info_hash(), r4);
            lemma_at_split(b, q3 + 11, enc_id(info_hash), r5);
            lemma_at_split(b, q3 + 34, k_port(), r6);
            lemma_at_split(b, q3 + 40, enc_int(port), r7);
            let q7 = q3 + 40 + enc_int(port).len();
            lemma_at_split(b, q7, k_token(), r8);
            lemma_at_split(b, q7 + 7, enc_bstr(token), seq![101u8]);
        },
    }
}

/// Reads one argument dictionary at `pos`: succeeds exactly on the canonical
/// encoding of a well-formed argument shape, telling the shapes apart by
/// which keys are present.
#[verifier::rlimit(100)]
#[verifier::spinoff_prover]
fn decode_args(buf: &Vec<u8>, pos: usize) -> (r: Option<(Arguments, usize)>)
    ensures
        (match r {
            Option::Some(v) => {
                &&& v.0@.wf()
                &&& at(buf@, pos as int, enc_args(v.0@))
                &&& v.1 == pos + enc_args(v.0@).len()
                &&& pos < v.1 <= buf@.len()
            },
            Option::None => true,
        }),
        forall|av: ArgsV|
            av.wf() && at(buf@, pos as int, enc_args(av)) ==> (r matches Some(v) && v.0@ == av
                && v.1 == pos + enc_args(av).len()),
{
    proof {
        assert forall|av: ArgsV| av.wf() && #[trigger] at(buf@, pos as int, enc_args(av)) implies
            args_facts(buf@, pos as int, av) by {
            lemma_args_facts(buf@, pos as int, av);
        }
    }
    let dv: Vec<u8> = vec![100u8];
    let ev: Vec<u8> = vec![101u8];
    proof {
        assert(dv@ =~= seq![100u8]);
        assert(ev@ =~= seq![101u8]);
    }
    let p1 = match expect(buf, pos, &dv) {
        Option::None => {
            return Option::None;
        },
        Option::Some(p) => p,
    };
    let p2 = match expect(buf, p1, &x_k_id()) {
        Option::None => {
            return Option::None;
        },
        Option::Some(p) => p,
    };
    let (id, p3) = match parse_id(buf, p2) {
        Option::None => {
            return Option::None;
        },
        Option::Some(v) => v,
    };
    if let Option::Some(p4) = expect(buf, p3, &ev) {
        proof {
            assert forall|av: ArgsV| av.wf() && at(buf@, pos as int, enc_args(av)) implies
                av matches ArgsV::Ping { .. } by {
                match av {
                    ArgsV::Ping { .. } => {},
                    ArgsV::FindNode { .. } => {
                        lemma_at_byte(buf@, pos + 28, k_target(), 0);
                        lemma_at_byte(buf@, pos + 28, seq![101u8], 0);
                    },
                    ArgsV::GetPeers { .. } => {
                        lemma_at_byte(buf@, pos + 28, k_info_hash(), 0);
                        lemma_at_byte(buf@, pos + 28, seq![101u8], 0);
                    },
                    ArgsV::AnnouncePeer { .. } => {
                        lemma_at_byte(buf@, pos + 28, k_implied_port(), 0);
                        lemma_at_byte(buf@, pos + 28, seq![101u8], 0);
                    },
                }
            }
            assert(buf@.subrange(pos as int, pos + 1) =~= seq![100u8]);
            lemma_at_join(buf@, p2 as int, enc_id(id@), seq![101u8]);
            lemma_at_join(buf@, p1 as int, k_id(), enc_id(id@) + seq![101u8]);
            lemma_at_join(buf@, pos as int, seq![100u8], k_id() + (enc_id(id@) + seq![101u8]));
            assert(seq![100u8] + (k_id() + (enc_id(id@) + seq![101u8])) =~= enc_args(
                ArgsV::Ping { id: id@ },
            ));
        }
        return Option::Some((Arguments::Ping { id }, p4));
    }
    if let Option::Some(p4) = expect(buf, p3, &x_k_target()) {
        let (target, p5) = match parse_id(buf, p4) {
            Option::None => {
                return Option::None;
            },
            Option::Some(v) => v,
        };
        let p6 = match expect(buf, p5, &ev) {
            Option::None => {
                return Option::None;
            },
            Option::Some(p) => p,
        };
        proof {
            assert forall|av: ArgsV| av.wf() && at(buf@, pos as int, enc_args(av)) implies
                av matches ArgsV::FindNode { .. } by {
                match av {
                    ArgsV::FindNode { .. } => {},
                    ArgsV::Ping { .. } => {
                        lemma_at_byte(buf@, pos + 28, k_target(), 0);
                        lemma_at_byte(buf@, pos + 28, seq![101u8], 0);
                    },
                    ArgsV::GetPeers { .. } => {
                        lemma_at_byte(buf@, pos + 28, k_info_hash(), 0);
                        lemma_at_byte(buf@, pos + 28, k_target(), 0);
                    },
                    ArgsV::AnnouncePeer { .. } => {
                        lemma_at_byte(buf@, pos + 28, k_implied_port(), 0);
                        lemma_at_byte(buf@, pos + 28, k_target(), 0);
                    },
                }
            }
            let w = seq![100u8] + (k_id() + (enc_id(id@) + (k_target() + (enc_id(target@) + seq![
                101u8,
            ]))));
            lemma_at_join(buf@, p4 as int, enc_id(target@), seq![101u8]);
            lemma_at_join(buf@, p3 as int, k_target(), enc_id(target@) + seq![101u8]);
            lemma_at_join(buf@, p2 as int, enc_id(id@), k_target() + (enc_id(target@) + seq![
                101u8,
            ]));
            lemma_at_join(buf@, p1 as int, k_id(), enc_id(id@) + (k_target() + (enc_id(target@)
                + seq![101u8])));
            lemma_at_join(buf@, pos as int, seq![100u8], k_id() + (enc_id(id@) + (k_target() + (
            enc_id(target@) + seq![101u8]))));
            assert(w =~= enc_args(ArgsV::FindNode { id: id@, target: target@ }));
        }
        return Option::Some((Arguments::FindNode { id, target }, p6));
    }
    if let Option::Some(p4) = expect(buf, p3, &x_k_info_hash()) {
        let (info_hash, p5) = match parse_id(buf, p4) {
            Option::None => {
                return Option::None;
            },
            Option::Some(v) => v,
        };
        let p6 = match expect(buf, p5, &ev) {
            Option::None => {
                return Option::None;
            },
            Option::Some(p) => p,
        };
        proof {
            assert forall|av: ArgsV| av.wf() && at(buf@, pos as int, enc_args(av)) implies
                av matches ArgsV::GetPeers { .. } by {
                match av {
                    ArgsV::GetPeers { .. } => {},
                    ArgsV::Ping { .. } => {
                        lemma_at_byte(buf@, pos + 28, k_info_hash(), 0);
                        lemma_at_byte(buf@, pos + 28, seq![101u8], 0);
                    },
                    ArgsV::FindNode { .. } => {
                        lemma_at_byte(buf@, pos + 28, k_info_hash(), 0);
                        lemma_at_byte(buf@, pos + 28, k_target(), 0);
                    },
                    ArgsV::AnnouncePeer { .. } => {
                        lemma_at_byte(buf@, pos + 28, k_implied_port(), 1);
                        lemma_at_byte(buf@, pos + 28, k_info_hash(), 1);
                    },
                }
            }
            let w = seq![100u8] + (k_id() + (enc_id(id@) + (k_info_hash() + (enc_id(info_hash@)
                + seq![101u8]))));
            lemma_at_join(buf@, p4 as int, enc_id(info_hash@), seq![101u8]);
            lemma_at_join(buf@, p3 as int, k_info_hash(), enc_id(info_hash@) + seq![101u8]);
            lemma_at_join(buf@, p2 as int, enc_id(id@), k_info_hash() + (enc_id(info_hash@) + seq![
                101u8,
            ]));
            lemma_at_join(buf@, p1 as int, k_id(), enc_id(id@) + (k_info_hash() + (enc_id(
                info_hash@,
            ) + seq![101u8])));
            lemma_at_join(buf@, pos as int, seq![100u8], k_id() + (enc_id(id@) + (k_info_hash() + (
            enc_id(info_hash@) + seq![101u8]))));
            assert(w =~= enc_args(ArgsV::GetPeers { id: id@, info_hash: info_hash@ }));
        }
        return Option::Some((Arguments::GetPeers { id, info_hash }, p6));
    }
    if let Option::Some(p4) = expect(buf, p3, &x_k_implied_port()) {
        proof {
            assert forall|av: ArgsV| av.wf() && at(buf@, pos as int, enc_args(av)) implies
                av matches ArgsV::AnnouncePeer { .. } by {
                match av {
                    ArgsV::AnnouncePeer { .. } => {},
                    ArgsV::Ping { .. } => {
                        lemma_at_byte(buf@, pos + 28, k_implied_port(), 0);
                        lemma_at_byte(buf@, pos + 28, seq![101u8], 0);
                    },
                    ArgsV::FindNode { .. } => {
                        lemma_at_byte(buf@, pos + 28, k_implied_port(), 0);
                        lemma_at_byte(buf@, pos + 28, k_target(), 0);
                    },
                    ArgsV::GetPeers { .. } => {
                        lemma_at_byte(buf@, pos + 28, k_implied_port(), 1);
                        lemma_at_byte(buf@, pos + 28, k_info_hash(), 1);
                    },
                }
            }
        }
        let (implied_port, p5) = match parse_int(buf, p4) {
            Option::None => {
                return Option::None;
            },
            Option::Some(v) => v,
        };
        let p6 = match expect(buf, p5, &x_k_info_hash()) {
            Option::None => {
                return Option::None;
            },
            Option::Some(p) => p,
        };
        let (info_hash, p7) = match parse_id(buf, p6) {
            Option::None => {
                return Option::None;
            },
            Option::Some(v) => v,
        };
        let p8 = match expect(buf, p7, &x_k_port()) {
            Option::None => {
                return Option::None;
            },
            Option::Some(p) => p,
        };
        let (port, p9) = match parse_int(buf, p8) {
            Option::None => {
                return Option::None;
            },
            Option::Some(v) => v,
        };
        let p10 = match expect(buf, p9, &x_k_token()) {
            Option::None => {
                return Option::None;
            },
            Option::Some(p) => p,
        };
        let (token, p11) = match parse_bstr(buf, p10) {
            Option::None => {
                return Option::None;
            },
            Option::Some(v) => v,
        };
        let p12 = match expect(buf, p11, &ev) {
            Option::None => {
                return Option::None;
            },
            Option::Some(p) => p,
        };
        proof {
            let r8 = enc_bstr(token@) + seq![101u8];
            let r7 = k_token() + r8;
            let r6 = enc_int(port) + r7;
            let r5 = k_port() + r6;
            let r4 = enc_id(info_hash@) + r5;
            let r3 = k_info_hash() + r4;
            let r2 = enc_int(implied_port) + r3;
            let r1 = k_implied_port() + r2;
            let r0 = enc_id(id@) + r1;
            lemma_at_join(buf@, p10 as int, enc_bstr(token@), seq![101u8]);
            lemma_at_join(buf@, p9 as int, k_token(), r8);
            lemma_at_join(buf@, p8 as int, enc_int(port), r7);
            lemma_at_join(buf@, p7 as int, k_port(), r6);
            lemma_at_join(buf@, p6 as int, enc_id(info_hash@), r5);
            lemma_at_join(buf@, p5 as int, k_info_hash(), r4);
            lemma_at_join(buf@, p4 as int, enc_int(implied_port), r3);
            lemma_at_join(buf@, p3 as int, k_implied_port(), r2);
            lemma_at_join(buf@, p2 as int, enc_id(id@), r1);
            lemma_at_join(buf@, p1 as int, k_id(), r0);
            lemma_at_join(buf@, pos as int, seq![100u8], k_id() + r0);
            let avn = ArgsV::AnnouncePeer {
                id: id@,
                implied_port,
                info_hash: info_hash@,
                port,
                token: token@,
            };
            assert(seq![100u8] + (k_id() + r0) =~= enc_args(avn));
        }
        return Option::Some(
            (
                Arguments::AnnouncePeer {
                    id,
                    implied_port,
                    info_hash,
                    port,
                    token: token,
                },
                p12,
            ),
        );
    }
    proof {
        assert forall|av: ArgsV| av.wf() && at(buf@, pos as int, enc_args(av)) implies false by {
            match av {
                ArgsV::Ping { .. } => {},
                ArgsV::FindNode { .. } => {},
                ArgsV::GetPeers { .. } => {},
                ArgsV::AnnouncePeer { .. } => {},
            }
        }
    }
    Option::None
}


/// The identifier field common to every response shape.
pub open spec fn ret_id(rv: RetV) -> Seq<u8> {
    match rv {
        RetV::GetPeers { id, .. } => id,
        RetV::FindNode { id, .. } => id,
        RetV::Ping { id } => id,
        RetV::AnnouncePeer { id } => id,
    }
}

/// Where a response dictionary stands at `pos`, each of its pieces stands at
/// its own position.
spec fn ret_facts(b: Seq<u8>, pos: int, rv: RetV) -> bool {
    &&& at(b, pos, seq![100u8])
    &&& at(b, pos + 1, k_id())
    &&& at(b, pos + 5, enc_id(ret_id(rv)))
    &&& match rv {
        RetV::Ping { id } => at(b, pos + 28, seq![101u8]) && enc_ret(rv).len() == 29,
        RetV::FindNode { id, nodes } => {
            let q = pos + 35 + enc_bstr(nodes).len();
            &&& at(b, pos + 28, k_nodes())
            &&& at(b, pos + 35, enc_bstr(nodes))
            &&& at(b, q, seq![101u8])
            &&& enc_ret(rv).len() == q + 1 - pos
        },
        RetV::GetPeers { id, token, values_nodes } => match values_nodes {
            VnV::Nodes { nodes } => {
                let q = pos + 35 + enc_bstr(nodes).len();
                let q2 = q + 7 + enc_bstr(token).len();
                &&& at(b, pos + 28, k_nodes())
                &&& at(b, pos + 35, enc_bstr(nodes))
                &&& at(b, q, k_token())
                &&& at(b, q + 7, enc_bstr(token))
                &&& at(b, q2, seq![101u8])
                &&& enc_ret(rv).len() == q2 + 1 - pos
            },
            VnV::Values { values } => {
                let q = pos + 35 + enc_bstr(token).len();
                let q2 = q + 8 + enc_vlist(values).len();
                &&& at(b, pos + 28, k_token())
                &&& at(b, pos + 35, enc_bstr(token))
                &&& at(b, q, k_values())
                &&& at(b, q + 8, enc_vlist(values))
                &&& at(b, q2, seq![101u8])
                &&& enc_ret(rv).len() == q2 + 1 - pos
            },
        },
        RetV::AnnouncePeer { id } => false,
    }
}

#[verifier::rlimit(100)]
#[verifier::spinoff_prover]
proof fn lemma_ret_facts(b: Seq<u8>, pos: int, rv: RetV)
    requires
        rv.wf(),
        at(b, pos, enc_ret(rv)),
    ensures
        ret_facts(b, pos, rv),
{
    match rv {
        RetV::Ping { id } => {
            assert(enc_ret(rv) =~= seq![100u8] + (k_id() + (enc_id(id) + seq![101u8])));
            lemma_at_split(b, pos, seq![100u8], k_id() + (enc_id(id) + seq![101u8]));
            lemma_at_split(b, pos + 1, k_id(), enc_id(id) + seq![101u8]);
            lemma_at_split(b, pos + 5, enc_id(id), seq![101u8]);
        },
        RetV::FindNode { id, nodes } => {
            let r2 = enc_bstr(nodes) + seq![101u8];
            let r1 = k_nodes() + r2;
            let r0 = enc_id(id) + r1;
            assert(enc_ret(rv) =~= seq![100u8] + (k_id() + r0));
            lemma_at_split(b, pos, seq![100u8], k_id() + r0);
            lemma_at_split(b, pos + 1, k_id(), r0);
            lemma_at_split(b, pos + 5, enc_id(id), r1);
            lemma_at_split(b, pos + 28, k_nodes(), r2);
            lemma_at_split(b, pos + 35, enc_bstr(nodes), seq![101u8]);
        },
        RetV::GetPeers { id, token, values_nodes } => {
            match values_nodes {
                VnV::Nodes { nodes } => {
                    let r3 = enc_bstr(token) + seq![101u8];
                    let r2 = k_token() + r3;
                    let r1 = enc_bstr(nodes) + r2;
                    let r05 = k_nodes() + r1;
                    let r0 = enc_id(id) + r05;
                    assert(enc_ret(rv) =~= seq![100u8] + (k_id() + r0));
                    lemma_at_split(b, pos, seq![100u8], k_id() + r0);
                    lemma_at_split(b, pos + 1, k_id(), r0);
                    lemma_at_split(b, pos + 5, enc_id(id), r05);
                    lemma_at_split(b, pos + 28, k_nodes(), r1);
                    lemma_at_split(b, pos + 35, enc_bstr(nodes), r2);
                    let q = pos + 35 + enc_bstr(nodes).len();
                    lemma_at_split(b, q, k_token(), r3);
                    lemma_at_split(b, q + 7, enc_bstr(token), seq![101u8]);
                },
                VnV::Values { values } => {
                    let r3 = enc_vlist(values) + seq![101u8];
                    let r2 = k_values() + r3;
                    let r1 = enc_bstr(token) + r2;
                    let r05 = k_token() + r1;
                    let r0 = enc_id(id) + r05;
                    assert(enc_ret(rv) =~= seq![100u8] + (k_id() + r0));
                    lemma_at_split(b, pos, seq![100u8], k_id() + r0);
                    lemma_at_split(b, pos + 1, k_id(), r0);
                    lemma_at_split(b, pos + 5, enc_id(id), r05);
                    lemma_at_split(b, pos + 28, k_token(), r1);
                    lemma_at_split(b, pos + 35, enc_bstr(token), r2);
                    let q = pos + 35 + enc_bstr(token).len();
                    lemma_at_split(b, q, k_values(), r3);
                    lemma_at_split(b, q + 8, enc_vlist(values), seq![101u8]);
                },
            }
        },
        RetV::AnnouncePeer { id } => {},
    }
}

/// Reads one response dictionary at `pos`: succeeds exactly on the canonical
/// encoding of a wire-expressible response shape. A dictionary holding only
/// an identifier reads as a `ping` response.
#[verifier::rlimit(100)]
#[verifier::spinoff_prover]
fn decode_ret(buf: &Vec<u8>, pos: usize) -> (r: Option<(Returns, usize)>)
    ensures
        (match r {
            Option::Some(v) => {
                &&& v.0@.wf()
                &&& at(buf@, pos as int, enc_ret(v.0@))
                &&& v.1 == pos + enc_ret(v.0@).len()
                &&& pos < v.1 <= buf@.len()
            },
            Option::None => true,
        }),
        forall|rv: RetV|
            rv.wf() && at(buf@, pos as int, enc_ret(rv)) ==> (r matches Some(v) && v.0@ == rv
                && v.1 == pos + enc_ret(rv).len()),
{
    proof {
        assert forall|rv: RetV| rv.wf() && #[trigger] at(buf@, pos as int, enc_ret(rv)) implies
            ret_facts(buf@, pos as int, rv) by {
            lemma_ret_facts(buf@, pos as int, rv);
        }
    }
    let dv: Vec<u8> = vec![100u8];
    let ev: Vec<u8> = vec![101u8];
    proof {
        assert(dv@ =~= seq![100u8]);
        assert(ev@ =~= seq![101u8]);
    }
    let p1 = match expect(buf, pos, &dv) {
        Option::None => {
            return Option::None;
        },
        Option::Some(p) => p,
    };
    let p2 = match expect(buf, p1, &x_k_id()) {
        Option::None => {
            return Option::None;
        },
        Option::Some(p) => p,
    };
    let (id, p3) = match parse_id(buf, p2) {
        Option::None => {
            return Option::None;
        },
        Option::Some(v) => v,
    };
    if let Option::Some(p4) = expect(buf, p3, &ev) {
        proof {
            assert forall|rv: RetV| rv.wf() && at(buf@, pos as int, enc_ret(rv)) implies
                rv matches RetV::Ping { .. } by {
                match rv {
                    RetV::Ping { .. } => {},
                    RetV::FindNode { .. } => {
                        lemma_at_byte(buf@, pos + 28, k_nodes(), 0);
                        lemma_at_byte(buf@, pos + 28, seq![101u8], 0);
                    },
                    RetV::GetPeers { values_nodes, .. } => {
                        match values_nodes {
                            VnV::Nodes { .. } => {
                                lemma_at_byte(buf@, pos + 28, k_nodes(), 0);
                            },
                            VnV::Values { .. } => {
                                lemma_at_byte(buf@, pos + 28, k_token(), 0);
                            },
                        }
                        lemma_at_byte(buf@, pos + 28, seq![101u8], 0);
                    },
                    RetV::AnnouncePeer { .. } => {},
                }
            }
            assert(buf@.subrange(pos as int, pos + 1) =~= seq![100u8]);
            lemma_at_join(buf@, p2 as int, enc_id(id@), seq![101u8]);
            lemma_at_join(buf@, p1 as int, k_id(), enc_id(id@) + seq![101u8]);
            lemma_at_join(buf@, pos as int, seq![100u8], k_id() + (enc_id(id@) + seq![101u8]));
            assert(seq![100u8] + (k_id() + (enc_id(id@) + seq![101u8])) =~= enc_ret(
                RetV::Ping { id: id@ },
            ));
        }
        return Option::Some((Returns::Ping { id }, p4));
    }
    if let Option::Some(p4) = expect(buf, p3, &x_k_nodes()) {
        let (nodes, p5) = match parse_bstr(buf, p4) {
            Option::None => {
                return Option::None;
            },
            Option::Some(v) => v,
        };
        proof {
            assert forall|rv: RetV| rv.wf() && at(buf@, pos as int, enc_ret(rv)) implies (
            rv matches RetV::FindNode { .. } || (rv matches RetV::GetPeers {
                values_nodes: VnV::Nodes { .. },
                ..
            })) by {
                match rv {
                    RetV::FindNode { .. } => {},
                    RetV::Ping { .. } => {
                        lemma_at_byte(buf@, pos + 28, k_nodes(), 0);
                        lemma_at_byte(buf@, pos + 28, seq![101u8], 0);
                    },
                    RetV::GetPeers { values_nodes, .. } => {
                        if rv matches RetV::GetPeers { values_nodes: VnV::Values { .. }, .. } {
                            lemma_at_byte(buf@, pos + 28, k_nodes(), 2);
                            lemma_at_byte(buf@, pos + 28, k_token(), 2);
                        }
                    },
                    RetV::AnnouncePeer { .. } => {},
                }
            }
        }
        if let Option::Some(p6) = expect(buf, p5, &x_k_token()) {
            let (token, p7) = match parse_bstr(buf, p6) {
                Option::None => {
                    return Option::None;
                },
                Option::Some(v) => v,
            };
            let p8 = match expect(buf, p7, &ev) {
                Option::None => {
                    return Option::None;
                },
                Option::Some(p) => p,
            };
            proof {
                assert forall|rv: RetV| rv.wf() && at(buf@, pos as int, enc_ret(rv)) implies
                    rv matches RetV::GetPeers { values_nodes: VnV::Nodes { .. }, .. } by {
                    if rv matches RetV::FindNode { .. } {
                        lemma_at_byte(buf@, p5 as int, k_token(), 0);
                        lemma_at_byte(buf@, p5 as int, seq![101u8], 0);
                    }
                }
                let r3 = enc_bstr(token@) + seq![101u8];
                let r2 = k_token() + r3;
                let r1 = enc_bstr(nodes@) + r2;
                let r05 = k_nodes() + r1;
                let r0 = enc_id(id@) + r05;
                lemma_at_join(buf@, p6 as int, enc_bstr(token@), seq![101u8]);
                lemma_at_join(buf@, p5 as int, k_token(), r3);
                lemma_at_join(buf@, p4 as int, enc_bstr(nodes@), r2);
                lemma_at_join(buf@, p3 as int, k_nodes(), r1);
                lemma_at_join(buf@, p2 as int, enc_id(id@), r05);
                lemma_at_join(buf@, p1 as int, k_id(), r0);
                lemma_at_join(buf@, pos as int, seq![100u8], k_id() + r0);
                let rvn = RetV::GetPeers {
                    id: id@,
                    token: token@,
                    values_nodes: VnV::Nodes { nodes: nodes@ },
                };
                assert(seq![100u8] + (k_id() + r0) =~= enc_ret(rvn));
            }
            return Option::Some(
                (
                    Returns::GetPeers {
                        id,
                        token,
                        values_nodes: ValuesNodes::Nodes { nodes },
                    },
                    p8,
                ),
            );
        }
        let p6 = match expect(buf, p5, &ev) {
            Option::None => {
                return Option::None;
            },
            Option::Some(p) => p,
        };
        proof {
            assert forall|rv: RetV| rv.wf() && at(buf@, pos as int, enc_ret(rv)) implies
                rv matches RetV::FindNode { .. } by {
                if rv matches RetV::GetPeers { values_nodes: VnV::Nodes { .. }, .. } {
                    lemma_at_byte(buf@, p5 as int, k_token(), 0);
                    lemma_at_byte(buf@, p5 as int, seq![101u8], 0);
                }
            }
            let r2 = enc_bstr(nodes@) + seq![101u8];
            let r1 = k_nodes() + r2;
            let r0 = enc_id(id@) + r1;
            lemma_at_join(buf@, p4 as int, enc_bstr(nodes@), seq![101u8]);
            lemma_at_join(buf@, p3 as int, k_nodes(), r2);
            lemma_at_join(buf@, p2 as int, enc_id(id@), r1);
            lemma_at_join(buf@, p1 as int, k_id(), r0);
            lemma_at_join(buf@, pos as int, seq![100u8], k_id() + r0);
            assert(seq![100u8] + (k_id() + r0) =~= enc_ret(
                RetV::FindNode { id: id@, nodes: nodes@ },
            ));
        }
        return Option::Some((Returns::FindNode { id, nodes }, p6));
    }
    if let Option::Some(p4) = expect(buf, p3, &x_k_token()) {
        proof {
            assert forall|rv: RetV| rv.wf() && at(buf@, pos as int, enc_ret(rv)) implies
                rv matches RetV::GetPeers { values_nodes: VnV::Values { .. }, .. } by {
                match rv {
                    RetV::Ping { .. } => {
                        lemma_at_byte(buf@, pos + 28, k_token(), 0);
                        lemma_at_byte(buf@, pos + 28, seq![101u8], 0);
                    },
                    RetV::FindNode { .. } => {
                        lemma_at_byte(buf@, pos + 28, k_nodes(), 2);
                        lemma_at_byte(buf@, pos + 28, k_token(), 2);
                    },
                    RetV::GetPeers { values_nodes, .. } => {
                        if rv matches RetV::GetPeers { values_nodes: VnV::Nodes { .. }, .. } {
                            lemma_at_byte(buf@, pos + 28, k_nodes(), 2);
                            lemma_at_byte(buf@, pos + 28, k_token(), 2);
                        }
                    },
                    RetV::AnnouncePeer { .. } => {},
                }
            }
        }
        let (token, p5) = match parse_bstr(buf, p4) {
            Option::None => {
                return Option::None;
            },
            Option::Some(v) => v,
        };
        proof {
            assert forall|rv: RetV| rv.wf() && at(buf@, pos as int, enc_ret(rv)) implies {
                &&& rv matches RetV::GetPeers { values_nodes: VnV::Values { .. }, .. }
                &&& match rv {
                    RetV::GetPeers { token: tw, values_nodes: VnV::Values { values: vsw }, .. } => {
                        &&& token@ == tw
                        &&& p5 == pos + 35 + enc_bstr(tw).len()
                        &&& at(buf@, p5 as int, k_values())
                        &&& at(buf@, p5 + 8, enc_vlist(vsw))
                        &&& vals_ok(vsw)
                    },
                    _ => false,
                }
            } by {
                match rv {
                    RetV::GetPeers { token: tw, values_nodes, .. } => {
                        match values_nodes {
                            VnV::Values { values: vsw } => {
                                assert(at(buf@, pos + 35, enc_bstr(tw)));
                                assert(len_ok(tw));
                            },
                            VnV::Nodes { .. } => {},
                        }
                    },
                    _ => {},
                }
            }
        }
        let p6 = match expect(buf, p5, &x_k_values()) {
            Option::None => {
                return Option::None;
            },
            Option::Some(p) => p,
        };
        let (values, p7) = match parse_values(buf, p6) {
            Option::None => {
                return Option::None;
            },
            Option::Some(v) => v,
        };
        let p8 = match expect(buf, p7, &ev) {
            Option::None => {
                return Option::None;
            },
            Option::Some(p) => p,
        };
        proof {
            assert forall|rv: RetV| rv.wf() && at(buf@, pos as int, enc_ret(rv)) implies
                rv matches RetV::GetPeers { values_nodes: VnV::Values { .. }, .. } by {
                match rv {
                    RetV::Ping { .. } => {
                        lemma_at_byte(buf@, pos + 28, k_token(), 0);
                        lemma_at_byte(buf@, pos + 28, seq![101u8], 0);
                    },
                    RetV::FindNode { .. } => {
                        lemma_at_byte(buf@, pos + 28, k_nodes(), 2);
                        lemma_at_byte(buf@, pos + 28, k_token(), 2);
                    },
                    RetV::GetPeers { values_nodes, .. } => {
                        if rv matches RetV::GetPeers { values_nodes: VnV::Nodes { .. }, .. } {
                            lemma_at_byte(buf@, pos + 28, k_nodes(), 2);
                            lemma_at_byte(buf@, pos + 28, k_token(), 2);
                        }
                    },
                    RetV::AnnouncePeer { .. } => {},
                }
            }
            let r3 = enc_vlist(slice_views(values@)) + seq![101u8];
            let r2 = k_values() + r3;
            let r1 = enc_bstr(token@) + r2;
            let r05 = k_token() + r1;
            let r0 = enc_id(id@) + r05;
            lemma_at_join(buf@, p6 as int, enc_vlist(slice_views(values@)), seq![101u8]);
            lemma_at_join(buf@, p5 as int, k_values(), r3);
            lemma_at_join(buf@, p4 as int, enc_bstr(token@), r2);
            lemma_at_join(buf@, p3 as int, k_token(), r1);
            lemma_at_join(buf@, p2 as int, enc_id(id@), r05);
            lemma_at_join(buf@, p1 as int, k_id(), r0);
            lemma_at_join(buf@, pos as int, seq![100u8], k_id() + r0);
            let rvn = RetV::GetPeers {
                id: id@,
                token: token@,
                values_nodes: VnV::Values { values: slice_views(values@) },
            };
            assert(seq![100u8] + (k_id() + r0) =~= enc_ret(rvn));
        }
        return Option::Some(
            (
                Returns::GetPeers {
                    id,
                    token,
                    values_nodes: ValuesNodes::Values { values },
                },
                p8,
            ),
        );
    }
    proof {
        assert forall|rv: RetV| rv.wf() && at(buf@, pos as int, enc_ret(rv)) implies false by {
            match rv {
                RetV::Ping { .. } => {},
                RetV::FindNode { .. } => {},
                RetV::GetPeers { values_nodes, .. } => {
                    match values_nodes {
                        VnV::Nodes { .. } => {},
                        VnV::Values { .. } => {},
                    }
                },
                RetV::AnnouncePeer { .. } => {},
            }
        }
    }
    Option::None
}


/// The envelope tail every message ends with: the `t` key and transaction id,
/// the `y` key and one-byte discriminator, and the dictionary's closing byte.
pub open spec fn tail_enc(t: Seq<u8>, y: Seq<u8>) -> Seq<u8> {
    k_t() + enc_bstr(t) + k_y() + y + seq![101u8]
}

/// Reads the envelope tail at `pos`, with the given discriminator bytes.
fn parse_tail(buf: &Vec<u8>, pos: usize, y: &Vec<u8>) -> (r: Option<(Vec<u8>, usize)>)
    ensures
        (match r {
            Option::Some(v) => {
                &&& at(buf@, pos as int, tail_enc(v.0@, y@))
                &&& v.1 == pos + tail_enc(v.0@, y@).len()
                &&& v.1 <= buf@.len()
                &&& len_ok(v.0@)
            },
            Option::None => true,
        }),
        forall|t: Seq<u8>|
            len_ok(t) && at(buf@, pos as int, tail_enc(t, y@)) ==> (r matches Some(v) && v.0@ == t
                && v.1 == pos + tail_enc(t, y@).len()),
{
    proof {
        assert forall|t: Seq<u8>| len_ok(t) && #[trigger] at(buf@, pos as int, tail_enc(t, y@))
            implies {
            &&& at(buf@, pos as int, k_t())
            &&& at(buf@, pos + 3, enc_bstr(t))
            &&& at(buf@, pos + 3 + enc_bstr(t).len(), k_y())
            &&& at(buf@, pos + 6 + enc_bstr(t).len(), y@)
            &&& at(buf@, pos + 6 + enc_bstr(t).len() + y@.len(), seq![101u8])
        } by {
            let r3 = y@ + seq![101u8];
            let r2 = k_y() + r3;
            let r1 = enc_bstr(t) + r2;
            assert(tail_enc(t, y@) =~= k_t() + r1);
            lemma_at_split(buf@, pos as int, k_t(), r1);
            lemma_at_split(buf@, pos + 3, enc_bstr(t), r2);
            lemma_at_split(buf@, pos + 3 + enc_bstr(t).len(), k_y(), r3);
            lemma_at_split(buf@, pos + 6 + enc_bstr(t).len(), y@, seq![101u8]);
        }
    }
    let ev: Vec<u8> = vec![101u8];
    proof {
        assert(ev@ =~= seq![101u8]);
    }
    let p1 = match expect(buf, pos, &x_k_t()) {
        Option::None => {
            return Option::None;
        },
        Option::Some(p) => p,
    };
    let (t, p2) = match parse_bstr(buf, p1) {
        Option::None => {
            return Option::None;
        },
        Option::Some(v) => v,
    };
    let p3 = match expect(buf, p2, &x_k_y()) {
        Option::None => {
            return Option::None;
        },
        Option::Some(p) => p,
    };
    let p4 = match expect(buf, p3, y) {
        Option::None => {
            return Option::None;
        },
        Option::Some(p) => p,
    };
    let p5 = match expect(buf, p4, &ev) {
        Option::None => {
            return Option::None;
        },
        Option::Some(p) => p,
    };
    proof {
        let r3 = y@ + seq![101u8];
        let r2 = k_y() + r3;
        let r1 = enc_bstr(t@) + r2;
        lemma_at_join(buf@, p3 as int, y@, seq![101u8]);
        lemma_at_join(buf@, p2 as int, k_y(), r3);
        lemma_at_join(buf@, p1 as int, enc_bstr(t@), r2);
        lemma_at_join(buf@, pos as int, k_t(), r1);
        assert(k_t() + r1 =~= tail_enc(t@, y@));
    }
    Option::Some((t, p5))
}

/// Where a whole message encoding fills the buffer, each top-level piece
/// stands at its own position.
spec fn msg_facts(b: Seq<u8>, mv: MsgV) -> bool {
    &&& at(b, 0, seq![100u8])
    &&& match mv.mtype {
        TypeV::Query { a } => {
            let q4 = 4 + enc_args(a).len() as int;
            let q5 = q4 + 3 + method_lit(a).len() as int;
            &&& at(b, 1, k_a())
            &&& at(b, 4, enc_args(a))
            &&& at(b, q4, k_q())
            &&& at(b, q4 + 3, method_lit(a))
            &&& at(b, q5, tail_enc(mv.t, seq![49u8, 58u8, 113u8]))
            &&& b.len() == q5 + tail_enc(mv.t, seq![49u8, 58u8, 113u8]).len()
        },
        TypeV::Response { ip, r } => {
            let qr: int = match ip {
                Option::Some(v) => 5 + enc_bstr(v).len() as int,
                Option::None => 1,
            };
            let q5 = qr + 3 + enc_ret(r).len() as int;
            &&& match ip {
                Option::Some(v) => at(b, 1, k_ip()) && at(b, 5, enc_bstr(v)),
                Option::None => true,
            }
            &&& at(b, qr, k_r())
            &&& at(b, qr + 3, enc_ret(r))
            &&& at(b, q5, tail_enc(mv.t, seq![49u8, 58u8, 114u8]))
            &&& b.len() == q5 + tail_enc(mv.t, seq![49u8, 58u8, 114u8]).len()
        },
        TypeV::Error { code, msg } => {
            let q2 = 5 + enc_int(code.spec_code()).len() as int;
            let q3 = q2 + enc_bstr(msg).len() as int;
            let q5 = q3 + 1;
            &&& at(b, 1, k_e())
            &&& at(b, 4, seq![108u8])
            &&& at(b, 5, enc_int(code.spec_code()))
            &&& at(b, q2, enc_bstr(msg))
            &&& at(b, q3, seq![101u8])
            &&& at(b, q5, tail_enc(mv.t, seq![49u8, 58u8, 101u8]))
            &&& b.len() == q5 + tail_enc(mv.t, seq![49u8, 58u8, 101u8]).len()
        },
    }
}

#[verifier::rlimit(100)]
#[verifier::spinoff_prover]
proof fn lemma_msg_facts(b: Seq<u8>, mv: MsgV)
    requires
        mv.wf(),
        b == enc_msg(mv),
    ensures
        msg_facts(b, mv),
{
    assert(at(b, 0, enc_msg(mv))) by {
        assert(b.subrange(0, b.len() as int) =~= b);
    }
    match mv.mtype {
        TypeV::Query { a } => {
            let tl = tail_enc(mv.t, seq![49u8, 58u8, 113u8]);
            let r3 = method_lit(a) + tl;
            let r2 = k_q() + r3;
            let r1 = enc_args(a) + r2;
            let r0 = k_a() + r1;
            assert(enc_msg(mv) =~= seq![100u8] + r0);
            lemma_at_split(b, 0, seq![100u8], r0);
            lemma_at_split(b, 1, k_a(), r1);
            lemma_at_split(b, 4, enc_args(a), r2);
            lemma_at_split(b, 4 + enc_args(a).len() as int, k_q(), r3);
            lemma_at_split(b, 7 + enc_args(a).len() as int, method_lit(a), tl);
        },
        TypeV::Response { ip, r } => {
            let tl = tail_enc(mv.t, seq![49u8, 58u8, 114u8]);
            let r2 = enc_ret(r) + tl;
            let r1 = k_r() + r2;
            match ip {
                Option::Some(v) => {
                    let r0 = k_ip() + (enc_bstr(v) + r1);
                    assert(enc_msg(mv) =~= seq![100u8] + r0);
                    lemma_at_split(b, 0, seq![100u8], r0);
                    lemma_at_split(b, 1, k_ip(), enc_bstr(v) + r1);
                    lemma_at_split(b, 5, enc_bstr(v), r1);
                    lemma_at_split(b, 5 + enc_bstr(v).len() as int, k_r(), r2);
                    lemma_at_split(b, 8 + enc_bstr(v).len() as int, enc_ret(r), tl);
                },
                Option::None => {
                    assert(enc_msg(mv) =~= seq![100u8] + r1);
                    lemma_at_split(b, 0, seq![100u8], r1);
                    lemma_at_split(b, 1, k_r(), r2);
                    lemma_at_split(b, 4, enc_ret(r), tl);
                },
            }
        },
        TypeV::Error { code, msg } => {
            let tl = tail_enc(mv.t, seq![49u8, 58u8, 101u8]);
            let r4 = seq![101u8] + tl;
            let r3 = enc_bstr(msg) + r4;
            let r2 = enc_int(code.spec_code()) + r3;
            let r1 = seq![108u8] + r2;
            let r0 = k_e() + r1;
            assert(enc_msg(mv) =~= seq![100u8] + r0);
            lemma_at_split(b, 0, seq![100u8], r0);
            lemma_at_split(b, 1, k_e(), r1);
            lemma_at_split(b, 4, seq![108u8], r2);
            lemma_at_split(b, 5, enc_int(code.spec_code()), r3);
            lemma_at_split(b, 5 + enc_int(code.spec_code()).len() as int, enc_bstr(msg), r4);
            lemma_at_split(b, 5 + enc_int(code.spec_code()).len() as int + enc_bstr(msg).len() as int, seq![
                101u8,
            ], tl);
        },
    }
}

/// Reads a query datagram whose first key is `a`.
#[verifier::rlimit(100)]
#[verifier::spinoff_prover]
fn decode_query(buf: &Vec<u8>) -> (r: Option<Message>)
    requires
        at(buf@, 0, seq![100u8]),
        at(buf@, 1, k_a()),
    ensures
        (match r {
            Option::Some(m) => m@.wf() && buf@ == enc_msg(m@),
            Option::None => true,
        }),
        forall|mv: MsgV| mv.wf() && buf@ == #[trigger] enc_msg(mv) ==> (r matches Some(m) && m@
            == mv),
{
    proof {
        assert forall|mv: MsgV| mv.wf() && buf@ == #[trigger] enc_msg(mv) implies msg_facts(
            buf@,
            mv,
        ) && mv.mtype matches TypeV::Query { .. } by {
            lemma_msg_facts(buf@, mv);
            match mv.mtype {
                TypeV::Query { .. } => {},
                TypeV::Response { ip, .. } => {
                    match ip {
                        Option::Some(v) => {
                            lemma_at_byte(buf@, 1, k_ip(), 0);
                            lemma_at_byte(buf@, 1, k_a(), 0);
                        },
                        Option::None => {
                            lemma_at_byte(buf@, 1, k_r(), 2);
                            lemma_at_byte(buf@, 1, k_a(), 2);
                        },
                    }
                },
                TypeV::Error { .. } => {
                    lemma_at_byte(buf@, 1, k_e(), 2);
                    lemma_at_byte(buf@, 1, k_a(), 2);
                },
            }
        }
    }
    let (a, p3) = match decode_args(buf, 4) {
        Option::None => {
            return Option::None;
        },
        Option::Some(v) => v,
    };
    let p4 = match expect(buf, p3, &x_k_q()) {
        Option::None => {
            return Option::None;
        },
        Option::Some(p) => p,
    };
    let p5 = match (match &a {
        Arguments::AnnouncePeer { .. } => expect(buf, p4, &x_m_announce_peer()),
        Arguments::FindNode { .. } => expect(buf, p4, &x_m_find_node()),
        Arguments::GetPeers { .. } => expect(buf, p4, &x_m_get_peers()),
        Arguments::Ping { .. } => expect(buf, p4, &x_m_ping()),
    }) {
        Option::None => {
            return Option::None;
        },
        Option::Some(p) => p,
    };
    let y: Vec<u8> = vec![49u8, 58, 113];
    proof {
        assert(y@ =~= seq![49u8, 58u8, 113u8]);
    }
    let (t, p6) = match parse_tail(buf, p5, &y) {
        Option::None => {
            return Option::None;
        },
        Option::Some(v) => v,
    };
    if p6 != buf.len() {
        return Option::None;
    }
    let m = Message { t, mtype: Type::Query { a } };
    proof {
        let r3 = method_lit(m@.mtype->Query_a) + tail_enc(m.t@, y@);
        let r2 = k_q() + r3;
        let r1 = enc_args(m@.mtype->Query_a) + r2;
        let r0 = k_a() + r1;
        lemma_at_join(buf@, p4 as int, method_lit(m@.mtype->Query_a), tail_enc(m.t@, y@));
        lemma_at_join(buf@, p3 as int, k_q(), r3);
        lemma_at_join(buf@, 4, enc_args(m@.mtype->Query_a), r2);
        lemma_at_join(buf@, 1, k_a(), r1);
        lemma_at_join(buf@, 0, seq![100u8], r0);
        assert(seq![100u8] + r0 =~= enc_msg(m@));
        assert(buf@ =~= buf@.subrange(0, buf@.len() as int));
    }
    Option::Some(m)
}

/// Reads an error datagram whose first key is `e`.
#[verifier::rlimit(100)]
#[verifier::spinoff_prover]
fn decode_error(buf: &Vec<u8>) -> (r: Option<Message>)
    requires
        at(buf@, 0, seq![100u8]),
        at(buf@, 1, k_e()),
    ensures
        (match r {
            Option::Some(m) => m@.wf() && buf@ == enc_msg(m@),
            Option::None => true,
        }),
        forall|mv: MsgV| mv.wf() && buf@ == #[trigger] enc_msg(mv) ==> (r matches Some(m) && m@
            == mv),
{
    proof {
        assert forall|mv: MsgV| mv.wf() && buf@ == #[trigger] enc_msg(mv) implies msg_facts(
            buf@,
            mv,
        ) && mv.mtype matches TypeV::Error { .. } by {
            lemma_msg_facts(buf@, mv);
            match mv.mtype {
                TypeV::Error { .. } => {},
                TypeV::Response { ip, .. } => {
                    match ip {
                        Option::Some(v) => {
                            lemma_at_byte(buf@, 1, k_ip(), 0);
                            lemma_at_byte(buf@, 1, k_e(), 0);
                        },
                        Option::None => {
                            lemma_at_byte(buf@, 1, k_r(), 2);
                            lemma_at_byte(buf@, 1, k_e(), 2);
                        },
                    }
                },
                TypeV::Query { .. } => {
                    lemma_at_byte(buf@, 1, k_a(), 2);
                    lemma_at_byte(buf@, 1, k_e(), 2);
                },
            }
        }
    }
    let lv: Vec<u8> = vec![108u8];
    let ev: Vec<u8> = vec![101u8];
    proof {
        assert(lv@ =~= seq![108u8]);
        assert(ev@ =~= seq![101u8]);
    }
    let p3 = match expect(buf, 4, &lv) {
        Option::None => {
            return Option::None;
        },
        Option::Some(p) => p,
    };
    let (c, p4) = match parse_int(buf, p3) {
        Option::None => {
            return Option::None;
        },
        Option::Some(v) => v,
    };
    let ec = match ErrorCode::of_code(c) {
        Option::None => {
            proof {
                assert forall|mv: MsgV| mv.wf() && buf@ == #[trigger] enc_msg(mv) implies false by {
                    match mv.mtype {
                        TypeV::Error { code, .. } => {
                            assert(c == code.spec_code());
                        },
                        _ => {},
                    }
                }
            }
            return Option::None;
        },
        Option::Some(e) => e,
    };
    let (emsg, p5) = match parse_bstr(buf, p4) {
        Option::None => {
            return Option::None;
        },
        Option::Some(v) => v,
    };
    let p6 = match expect(buf, p5, &ev) {
        Option::None => {
            return Option::None;
        },
        Option::Some(p) => p,
    };
    let y: Vec<u8> = vec![49u8, 58, 101];
    proof {
        assert(y@ =~= seq![49u8, 58u8, 101u8]);
    }
    let (t, p7) = match parse_tail(buf, p6, &y) {
        Option::None => {
            return Option::None;
        },
        Option::Some(v) => v,
    };
    if p7 != buf.len() {
        return Option::None;
    }
    let m = Message { t, mtype: Type::Error { e: Errors(ec, emsg) } };
    proof {
        assert(ec.spec_code() == c) by {
            match ec {
                ErrorCode::GenericError => {},
                ErrorCode::ServerError => {},
                ErrorCode::ProtocolError => {},
                ErrorCode::MethodUnknown => {},
            }
        }
        let tl = tail_enc(m.t@, y@);
        let r4 = seq![101u8] + tl;
        let r3 = enc_bstr(m@.mtype->Error_msg) + r4;
        let r2 = enc_int(c) + r3;
        let r1 = seq![108u8] + r2;
        let r0 = k_e() + r1;
        lemma_at_join(buf@, p5 as int, seq![101u8], tl);
        lemma_at_join(buf@, p4 as int, enc_bstr(m@.mtype->Error_msg), r4);
        lemma_at_join(buf@, p3 as int, enc_int(c), r3);
        lemma_at_join(buf@, 4, seq![108u8], r2);
        lemma_at_join(buf@, 1, k_e(), r1);
        lemma_at_join(buf@, 0, seq![100u8], r0);
        assert(seq![100u8] + r0 =~= enc_msg(m@));
        assert(buf@ =~= buf@.subrange(0, buf@.len() as int));
    }
    Option::Some(m)
}

/// Reads a response datagram that carries the external-address field.
#[verifier::rlimit(100)]
#[verifier::spinoff_prover]
fn decode_response_ip(buf: &Vec<u8>) -> (r: Option<Message>)
    requires
        at(buf@, 0, seq![100u8]),
        at(buf@, 1, k_ip()),
    ensures
        (match r {
            Option::Some(m) => m@.wf() && buf@ == enc_msg(m@),
            Option::None => true,
        }),
        forall|mv: MsgV| mv.wf() && buf@ == #[trigger] enc_msg(mv) ==> (r matches Some(m) && m@
            == mv),
{
    proof {
        assert forall|mv: MsgV| mv.wf() && buf@ == #[trigger] enc_msg(mv) implies msg_facts(
            buf@,
            mv,
        ) && mv.mtype matches TypeV::Response { ip: Option::Some(..), .. } by {
            lemma_msg_facts(buf@, mv);
            match mv.mtype {
                TypeV::Response { ip, .. } => {
                    match ip {
                        Option::Some(v) => {},
                        Option::None => {
                            lemma_at_byte(buf@, 1, k_r(), 0);
                            lemma_at_byte(buf@, 1, k_ip(), 0);
                        },
                    }
                },
                TypeV::Query { .. } => {
                    lemma_at_byte(buf@, 1, k_a(), 0);
                    lemma_at_byte(buf@, 1, k_ip(), 0);
                },
                TypeV::Error { .. } => {
                    lemma_at_byte(buf@, 1, k_e(), 0);
                    lemma_at_byte(buf@, 1, k_ip(), 0);
                },
            }
        }
    }
    let (ipv, p3) = match parse_bstr(buf, 5) {
        Option::None => {
            return Option::None;
        },
        Option::Some(v) => v,
    };
    let p4 = match expect(buf, p3, &x_k_r()) {
        Option::None => {
            return Option::None;
        },
        Option::Some(p) => p,
    };
    let (rt, p5) = match decode_ret(buf, p4) {
        Option::None => {
            return Option::None;
        },
        Option::Some(v) => v,
    };
    let y: Vec<u8> = vec![49u8, 58, 114];
    proof {
        assert(y@ =~= seq![49u8, 58u8, 114u8]);
    }
    let (t, p6) = match parse_tail(buf, p5, &y) {
        Option::None => {
            return Option::None;
        },
        Option::Some(v) => v,
    };
    if p6 != buf.len() {
        return Option::None;
    }
    let m = Message { t, mtype: Type::Response { ip: Option::Some(ipv), r: rt } };
    proof {
        let tl = tail_enc(m.t@, y@);
        let r2 = enc_ret(m@.mtype->Response_r) + tl;
        let r1 = k_r() + r2;
        let r0 = k_ip() + (enc_bstr(ipv@) + r1);
        lemma_at_join(buf@, p4 as int, enc_ret(m@.mtype->Response_r), tl);
        lemma_at_join(buf@, p3 as int, k_r(), r2);
        lemma_at_join(buf@, 5, enc_bstr(ipv@), r1);
        lemma_at_join(buf@, 1, k_ip(), enc_bstr(ipv@) + r1);
        lemma_at_join(buf@, 0, seq![100u8], r0);
        assert(seq![100u8] + r0 =~= enc_msg(m@));
        assert(buf@ =~= buf@.subrange(0, buf@.len() as int));
    }
    Option::Some(m)
}

/// Reads a response datagram without the external-address field.
#[verifier::rlimit(100)]
#[verifier::spinoff_prover]
fn decode_response(buf: &Vec<u8>) -> (r: Option<Message>)
    requires
        at(buf@, 0, seq![100u8]),
        at(buf@, 1, k_r()),
    ensures
        (match r {
            Option::Some(m) => m@.wf() && buf@ == enc_msg(m@),
            Option::None => true,
        }),
        forall|mv: MsgV| mv.wf() && buf@ == #[trigger] enc_msg(mv) ==> (r matches Some(m) && m@
            == mv),
{
    proof {
        assert forall|mv: MsgV| mv.wf() && buf@ == #[trigger] enc_msg(mv) implies msg_facts(
            buf@,
            mv,
        ) && mv.mtype matches TypeV::Response { ip: Option::None, .. } by {
            lemma_msg_facts(buf@, mv);
            match mv.mtype {
                TypeV::Response { ip, .. } => {
                    match ip {
                        Option::Some(v) => {
                            lemma_at_byte(buf@, 1, k_ip(), 0);
                            lemma_at_byte(buf@, 1, k_r(), 0);
                        },
                        Option::None => {},
                    }
                },
                TypeV::Query { .. } => {
                    lemma_at_byte(buf@, 1, k_a(), 2);
                    lemma_at_byte(buf@, 1, k_r(), 2);
                },
                TypeV::Error { .. } => {
                    lemma_at_byte(buf@, 1, k_e(), 2);
                    lemma_at_byte(buf@, 1, k_r(), 2);
                },
            }
        }
    }
    let (rt, p3) = match decode_ret(buf, 4) {
        Option::None => {
            return Option::None;
        },
        Option::Some(v) => v,
    };
    let y: Vec<u8> = vec![49u8, 58, 114];
    proof {
        assert(y@ =~= seq![49u8, 58u8, 114u8]);
    }
    let (t, p4) = match parse_tail(buf, p3, &y) {
        Option::None => {
            return Option::None;
        },
        Option::Some(v) => v,
    };
    if p4 != buf.len() {
        return Option::None;
    }
    let m = Message { t, mtype: Type::Response { ip: Option::None, r: rt } };
    proof {
        let tl = tail_enc(m.t@, y@);
        let r2 = enc_ret(m@.mtype->Response_r) + tl;
        let r1 = k_r() + r2;
        lemma_at_join(buf@, 4, enc_ret(m@.mtype->Response_r), tl);
        lemma_at_join(buf@, 1, k_r(), r2);
        lemma_at_join(buf@, 0, seq![100u8], r1);
        assert(seq![100u8] + r1 =~= enc_msg(m@));
        assert(buf@ =~= buf@.subrange(0, buf@.len() as int));
    }
    Option::Some(m)
}

/// Reads a whole datagram: succeeds if and only if the bytes are the
/// canonical encoding of a well-formed message, and returns that message.
/// Together with `encode_msg` this is the round trip: decoding an encoded
/// message yields the original.
#[verifier::rlimit(100)]
#[verifier::spinoff_prover]
pub fn decode_msg(buf: &Vec<u8>) -> (r: Option<Message>)
    ensures
        (match r {
            Option::Some(m) => m@.wf() && buf@ == enc_msg(m@),
            Option::None => true,
        }),
        forall|mv: MsgV| mv.wf() && buf@ == #[trigger] enc_msg(mv) ==> (r matches Some(m) && m@
            == mv),
{
    proof {
        assert forall|mv: MsgV| mv.wf() && buf@ == #[trigger] enc_msg(mv) implies msg_facts(
            buf@,
            mv,
        ) by {
            lemma_msg_facts(buf@, mv);
        }
    }
    let dv: Vec<u8> = vec![100u8];
    proof {
        assert(dv@ =~= seq![100u8]);
    }
    if let Option::None = expect(buf, 0, &dv) {
        proof {
            assert forall|mv: MsgV| mv.wf() && buf@ == #[trigger] enc_msg(mv) implies false by {
                match mv.mtype {
                    TypeV::Query { .. } => {},
                    TypeV::Error { .. } => {},
                    TypeV::Response { ip, .. } => {
                        match ip {
                            Option::Some(v) => {},
                            Option::None => {},
                        }
                    },
                }
            }
        }
        return Option::None;
    }
    if let Option::Some(_p) = expect(buf, 1, &x_k_a()) {
        return decode_query(buf);
    }
    if let Option::Some(_p) = expect(buf, 1, &x_k_e()) {
        return decode_error(buf);
    }
    if let Option::Some(_p) = expect(buf, 1, &x_k_ip()) {
        return decode_response_ip(buf);
    }
    if let Option::Some(_p) = expect(buf, 1, &x_k_r()) {
        return decode_response(buf);
    }
    proof {
        assert forall|mv: MsgV| mv.wf() && buf@ == #[trigger] enc_msg(mv) implies false by {
            match mv.mtype {
                TypeV::Query { .. } => {},
                TypeV::Error { .. } => {},
                TypeV::Response { ip, .. } => {
                    match ip {
                        Option::Some(v) => {},
                        Option::None => {},
                    }
                },
            }
        }
    }
    Option::None
}


/// Advances past one bencoded value of any shape, without validating its
/// contents; used only to drop unknown key-value pairs.
fn skip_value(buf: &Vec<u8>, pos: usize) -> (r: Option<usize>)
    ensures
        r matches Some(p) ==> pos < p <= buf@.len(),
    decreases buf@.len() - pos,
{
    let bl: usize = buf.len();
    if pos >= bl {
        return Option::None;
    }
    let c = buf[pos];
    if c == 105 {
        // integer: everything up to its closing byte
        let mut p: usize = pos + 1;
        while p < bl && buf[p] != 101
            invariant
                pos < p <= bl,
                bl == buf@.len(),
            decreases bl - p,
        {
            p = p + 1;
        }
        if p >= bl {
            Option::None
        } else {
            Option::Some(p + 1)
        }
    } else if c == 108 || c == 100 {
        // list or dictionary: skip children up to the closing byte
        let mut p: usize = pos + 1;
        while p < bl && buf[p] != 101
            invariant
                pos < p <= bl,
                bl == buf@.len(),
            decreases bl - p,
        {
            p = match skip_value(buf, p) {
                Option::None => {
                    return Option::None;
                },
                Option::Some(q) => q,
            };
        }
        if p >= bl {
            Option::None
        } else {
            Option::Some(p + 1)
        }
    } else {
        // byte string
        match parse_number(buf, pos) {
            Option::None => Option::None,
            Option::Some((n, p)) => {
                if p < bl && buf[p] == 58 && n <= ((bl - p - 1) as u64) {
                    Option::Some(p + 1 + (n as usize))
                } else {
                    Option::None
                }
            },
        }
    }
}

/// Whether a top-level dictionary key is one the protocol reads.
fn is_known_key(k: &Vec<u8>) -> bool {
    if k.len() == 1 {
        let c = k[0];
        c == 97 || c == 101 || c == 113 || c == 114 || c == 116 || c == 121
    } else if k.len() == 2 {
        k[0] == 105 && k[1] == 112
    } else {
        false
    }
}

/// Rebuilds the top-level dictionary with only the keys the protocol reads,
/// dropping unknown key-value pairs (a version key, say) byte for byte.
fn strip_extras(buf: &Vec<u8>) -> (r: Option<Vec<u8>>)
{
    let bl: usize = buf.len();
    if bl == 0 || buf[0] != 100 {
        return Option::None;
    }
    let mut out: Vec<u8> = Vec::new();
    out.push(100);
    let mut p: usize = 1;
    while p < bl && buf[p] != 101
        invariant
            1 <= p <= bl,
            bl == buf@.len(),
        decreases bl - p,
    {
        let (key, p2) = match parse_bstr(buf, p) {
            Option::None => {
                return Option::None;
            },
            Option::Some(v) => v,
        };
        let p3 = match skip_value(buf, p2) {
            Option::None => {
                return Option::None;
            },
            Option::Some(q) => q,
        };
        if is_known_key(&key) {
            let mut q: usize = p;
            while q < p3
                invariant
                    p <= q <= p3 <= bl,
                    bl == buf@.len(),
                decreases p3 - q,
            {
                out.push(buf[q]);
                q = q + 1;
            }
        }
        p = p3;
    }
    if p >= bl || p + 1 != bl {
        return Option::None;
    }
    out.push(101);
    Option::Some(out)
}

/// Reads a whole datagram, tolerating unknown top-level keys: a canonical
/// encoding decodes to its message exactly as `decode_msg` proves; a datagram
/// that is canonical but for extra top-level key-value pairs is read with
/// those pairs dropped; anything else is rejected.
pub fn decode_msg_lenient(buf: &Vec<u8>) -> (r: Option<Message>)
    ensures
        (match r {
            Option::Some(m) => m@.wf(),
            Option::None => true,
        }),
        forall|mv: MsgV| mv.wf() && buf@ == #[trigger] enc_msg(mv) ==> (r matches Some(m) && m@
            == mv),
{
    match decode_msg(buf) {
        Option::Some(m) => Option::Some(m),
        Option::None => {
            match strip_extras(buf) {
                Option::None => Option::None,
                Option::Some(stripped) => decode_msg(&stripped),
            }
        },
    }
}

} // verus!
