use vstd::prelude::*;

verus! {

/// XOR of two byte sequences, element-wise up to the length of `a`;
/// where `b` is shorter, the tail of `a` is kept untouched, and where
/// `b` is longer, its tail is ignored.
pub open spec fn xor_bytes(a: Seq<u8>, b: Seq<u8>) -> Seq<u8> {
    Seq::new(a.len(), |i: int| if i < b.len() { a[i] ^ b[i] } else { a[i] })
}

/// Payload bytes of a packet, combinable by XOR so that several native
/// payloads can travel in one encoded transmission.
#[derive(Debug)]
pub struct PacketData(pub Vec<u8>);

impl Clone for PacketData {
    fn clone(&self) -> (r: Self)
        ensures
            r@ == self@,
    {
        PacketData(vstd::slice::slice_to_vec(self.0.as_slice()))
    }
}

impl View for PacketData {
    type V = Seq<u8>;

    open spec fn view(&self) -> Seq<u8> {
        self.0@
    }
}

impl PacketData {
    pub fn new(raw: Vec<u8>) -> (r: Self)
        ensures
            r@ == raw@,
    {
        PacketData(raw)
    }

    /// Extends the payload with `symbol` until it is at least `len` bytes
    /// long; a payload already that long is returned unchanged.
    pub fn right_pad(self, len: usize, symbol: u8) -> (r: Self)
        ensures
            self@.len() >= len ==> r@ == self@,
            self@.len() < len ==> r@ == self@ + Seq::new((len - self@.len()) as nat, |i: int| symbol),
    {
        let mut raw = self.0;
        let ghost orig: Seq<u8> = raw@;
        while raw.len() < len
            invariant
                orig.len() <= raw.len() <= vstd::math::max(orig.len() as int, len as int),
                raw@ == orig + Seq::new((raw@.len() - orig.len()) as nat, |i: int| symbol),
            decreases len - raw.len(),
        {
            raw.push(symbol);
        }
        proof {
            if orig.len() >= len {
                assert(raw@ =~= orig);
            } else {
                assert(raw@ =~= orig + Seq::new((len - orig.len()) as nat, |i: int| symbol));
            }
        }
        PacketData(raw)
    }

    /// XORs `rhs` into this payload, element-wise up to the shorter
    /// length, leaving a longer tail of this payload untouched.
    pub fn xor(self, rhs: &PacketData) -> (r: Self)
        ensures
            r@ == xor_bytes(self@, rhs@),
    {
        let mut raw = self.0;
        let ghost orig: Seq<u8> = raw@;
        let bound: usize = if rhs.0.len() < raw.len() { rhs.0.len() } else { raw.len() };
        let mut i: usize = 0;
        while i < bound
            invariant
                bound <= raw.len(),
                bound <= rhs.0@.len(),
                i <= bound,
                raw@.len() == orig.len(),
                forall|j: int| 0 <= j < i ==> raw@[j] == (orig[j] ^ rhs.0@[j]),
                forall|j: int| i <= j < orig.len() ==> raw@[j] == orig[j],
            decreases bound - i,
        {
            raw[i] = raw[i] ^ rhs.0[i];
            i = i + 1;
        }
        proof {
            assert(raw@ =~= xor_bytes(orig, rhs@));
        }
        PacketData(raw)
    }

    pub fn len(&self) -> (r: usize)
        ensures
            r == self@.len(),
    {
        self.0.len()
    }
}

/// XOR is its own inverse: combining a payload with the same bytes twice
/// gives the original payload back, whenever both operands have equal
/// length.
pub proof fn lemma_xor_self_inverse(a: Seq<u8>, b: Seq<u8>)
    requires
        a.len() == b.len(),
    ensures
        xor_bytes(xor_bytes(a, b), b) == a,
{
    assert forall|i: int| 0 <= i < a.len() implies xor_bytes(xor_bytes(a, b), b)[i] == a[i] by {
        let x = a[i];
        let y = b[i];
        assert((x ^ y) ^ y == x) by (bit_vector);
    }
    assert(xor_bytes(xor_bytes(a, b), b) =~= a);
}

} // verus!
