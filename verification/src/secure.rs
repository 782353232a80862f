//! The node-identifier security extension: a spoof-resistant self identifier
//! derived from the externally observed IPv4 address with a CRC32C transform,
//! binding the node's claimed identity to its visible address.

use vstd::prelude::*;

use crate::dht::NodeId;

verus! {

/// The CRC-32C (Castagnoli) checksum of a byte string. The outside crate
/// computes it; here it is only a name, a function of the bytes alone.
pub uninterp spec fn crc32c_of(bytes: Seq<u8>) -> u32;

/// Relies on crc32c::crc32c: the CRC-32C checksum of the bytes, computed from
/// the bytes alone.
#[verifier::external_body]
fn crc32c_bytes(data: &Vec<u8>) -> (r: u32)
    ensures
        r == crc32c_of(data@),
{
    crc32c::crc32c(data.as_slice())
}

/// The observed address masked to its stable bits, with a 3-bit random value
/// in the top bits of the first byte: the 32-bit address masked with
/// `0x030f3fff`, or-ed with the random value shifted to the top, big-endian.
pub open spec fn masked_ip(ip: Seq<u8>, seed: u8) -> Seq<u8> {
    seq![
        (ip[0] & 0x03) | ((seed & 0x07) << 5),
        ip[1] & 0x0f,
        ip[2] & 0x3f,
        ip[3],
    ]
}

/// The derived identifier: the checksum's top two bytes, then the top five
/// bits of its third byte over three random bits, sixteen random bytes, and
/// the random seed byte last.
pub open spec fn derived_id(ip: Seq<u8>, seed: u8, r3: u8, tail: Seq<u8>) -> Seq<u8> {
    let crc = crc32c_of(masked_ip(ip, seed));
    seq![
        ((crc >> 24) & 0xff) as u8,
        ((crc >> 16) & 0xff) as u8,
        (((crc >> 8) & 0xf8) as u8) | (r3 & 0x07),
    ] + tail + seq![seed]
}

/// Derives the self identifier from the observed address bytes and the random
/// inputs. The result is a function of the arguments alone: the same address
/// and the same random inputs reproduce the identical identifier.
pub fn derive_node_id(ip: &Vec<u8>, seed: u8, r3: u8, tail: &Vec<u8>) -> (r: NodeId)
    requires
        ip@.len() == 4,
        tail@.len() == 16,
    ensures
        r.wf(),
        r@ == derived_id(ip@, seed, r3, tail@),
{
    let m: Vec<u8> = vec![
        (ip[0] & 0x03) | ((seed & 0x07) << 5),
        ip[1] & 0x0f,
        ip[2] & 0x3f,
        ip[3],
    ];
    proof {
        assert(m@ =~= masked_ip(ip@, seed));
    }
    let crc = crc32c_bytes(&m);
    proof {
        assert((crc >> 24) & 0xff < 256) by (bit_vector);
        assert((crc >> 16) & 0xff < 256) by (bit_vector);
        assert((crc >> 8) & 0xf8 < 256) by (bit_vector);
    }
    let mut out: Vec<u8> = Vec::new();
    out.push(((crc >> 24) & 0xff) as u8);
    out.push(((crc >> 16) & 0xff) as u8);
    out.push((((crc >> 8) & 0xf8) as u8) | (r3 & 0x07));
    let ghost head = out@;
    let mut i: usize = 0;
    while i < 16
        invariant
            0 <= i <= 16,
            tail@.len() == 16,
            out@ == head + tail@.subrange(0, i as int),
        decreases 16 - i,
    {
        out.push(tail[i]);
        proof {
            assert(out@ =~= head + tail@.subrange(0, i + 1));
        }
        i = i + 1;
    }
    out.push(seed);
    proof {
        assert(tail@.subrange(0, 16) =~= tail@);
        assert(out@ =~= derived_id(ip@, seed, r3, tail@));
    }
    NodeId(out)
}

} // verus!
