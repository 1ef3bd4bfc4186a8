//! GUIDs and their mixed-endian on-disk encoding.
use vstd::prelude::*;

verus! {

/// A 128-bit GUID, held as its 16 bytes in textual order (the order of
/// `xxxxxxxx-xxxx-xxxx-xxxx-xxxxxxxxxxxx`, most significant first).
#[derive(Clone, Copy, Debug)]
pub struct Guid {
    /// The bytes in textual order.
    pub bytes: [u8; 16],
}

/// The on-disk form of a GUID: the first three fields (32, 16 and 16 bits)
/// little-endian, the last eight bytes as they are.
pub open spec fn guid_mixed(b: Seq<u8>) -> Seq<u8> {
    seq![b[3], b[2], b[1], b[0], b[5], b[4], b[7], b[6]] + b.subrange(8, 16)
}

/// Relies on uuid::Uuid::new_v4 and uuid::Uuid::as_bytes: sixteen random bytes in
/// textual order, with the version nibble set to 4 and the variant bits to `10`.
#[verifier::external_body]
fn random_v4_bytes() -> (r: [u8; 16])
    ensures
        r[6] / 16 == 4,
        r[8] / 64 == 2,
{
    *uuid::Uuid::new_v4().as_bytes()
}

impl Guid {
    /// The GUID with these bytes, in textual order.
    pub fn from_bytes(bytes: [u8; 16]) -> (r: Guid)
        ensures
            r.bytes == bytes,
    {
        Guid { bytes }
    }

    /// A random version 4 GUID.
    pub fn new_v4() -> (r: Guid)
        ensures
            r.bytes[6] / 16 == 4,
            r.bytes[8] / 64 == 2,
    {
        Guid { bytes: random_v4_bytes() }
    }
}

/// Appends the on-disk form of `g`.
pub fn push_guid(out: &mut Vec<u8>, g: &Guid)
    ensures
        final(out)@ == old(out)@ + guid_mixed(g.bytes@),
        final(out)@.len() == old(out)@.len() + 16,
{
    proof {
        assert(g.bytes@.len() == 16);
    }
    out.push(g.bytes[3]);
    out.push(g.bytes[2]);
    out.push(g.bytes[1]);
    out.push(g.bytes[0]);
    out.push(g.bytes[5]);
    out.push(g.bytes[4]);
    out.push(g.bytes[7]);
    out.push(g.bytes[6]);
    proof {
        assert(out@ =~= old(out)@ + seq![
            g.bytes[3],
            g.bytes[2],
            g.bytes[1],
            g.bytes[0],
            g.bytes[5],
            g.bytes[4],
            g.bytes[7],
            g.bytes[6],
        ] + g.bytes@.subrange(8, 8));
    }
    let mut i: usize = 8;
    while i < 16
        invariant
            8 <= i <= 16,
            out@ == old(out)@ + seq![
                g.bytes[3],
                g.bytes[2],
                g.bytes[1],
                g.bytes[0],
                g.bytes[5],
                g.bytes[4],
                g.bytes[7],
                g.bytes[6],
            ] + g.bytes@.subrange(8, i as int),
        decreases 16 - i,
    {
        out.push(g.bytes[i]);
        i = i + 1;
        proof {
            assert(out@ =~= old(out)@ + seq![
                g.bytes[3],
                g.bytes[2],
                g.bytes[1],
                g.bytes[0],
                g.bytes[5],
                g.bytes[4],
                g.bytes[7],
                g.bytes[6],
            ] + g.bytes@.subrange(8, i as int));
        }
    }
}

/// The on-disk form of `g`.
pub fn guid_bytes(g: &Guid) -> (r: Vec<u8>)
    ensures
        r@ == guid_mixed(g.bytes@),
{
    let mut out: Vec<u8> = Vec::new();
    push_guid(&mut out, g);
    proof {
        assert(out@ =~= guid_mixed(g.bytes@));
    }
    out
}

} // verus!
