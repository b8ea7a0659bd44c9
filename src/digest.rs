use vstd::prelude::*;

verus! {

broadcast use vstd::array::group_array_axioms;

/// Number of bytes in a digest.
pub const DIGEST_BYTES: usize = 32;

/// Number of bits in a digest, which is also the depth of the tree.
pub const DEPTH: usize = 256;

/// A 256-bit hash output. Its bits, most significant first, select the
/// root-to-leaf path of a key.
#[derive(Clone, Copy, Debug)]
pub struct Digest {
    pub bytes: [u8; 32],
}

impl View for Digest {
    type V = Seq<u8>;

    open spec fn view(&self) -> Seq<u8> {
        self.bytes@
    }
}

/// The digest of an empty subtree: all bytes zero.
pub open spec fn zero_seq() -> Seq<u8> {
    Seq::new(32, |i: int| 0u8)
}

/// Bit `s` of a byte, counting from the most significant one (`s` in `0..8`).
pub open spec fn byte_bit(x: u8, s: int) -> bool {
    (x >> ((7 - s) as u8)) & 1u8 == 1u8
}

/// Bit `i` of a digest, counting from the most significant bit of byte 0.
pub open spec fn bit_of(d: Seq<u8>, i: int) -> bool {
    byte_bit(d[i / 8], i % 8)
}

/// The zero digest as a value.
pub open spec fn spec_zero_digest() -> Digest {
    Digest { bytes: vstd::array::spec_array_fill_for_copy_type::<u8, 32>(0u8) }
}

pub proof fn lemma_zero_digest_view()
    ensures
        spec_zero_digest()@ == zero_seq(),
{
    assert(spec_zero_digest()@ =~= zero_seq());
}

pub fn zero_digest() -> (r: Digest)
    ensures
        r@ == zero_seq(),
        r == spec_zero_digest(),
{
    let r = Digest { bytes: [0u8; 32] };
    assert(r@ =~= zero_seq());
    r
}

impl Digest {
    /// Builds a digest from its 32 bytes.
    pub fn from_bytes(bytes: [u8; 32]) -> (r: Digest)
        ensures
            r@ == bytes@,
    {
        Digest { bytes }
    }

    /// The bit of the path at depth `i` (`false` goes left, `true` goes right).
    pub fn bit(&self, i: usize) -> (r: bool)
        requires
            i < DEPTH,
        ensures
            r == bit_of(self@, i as int),
    {
        let byte: u8 = self.bytes[i / 8];
        let shift: u8 = (7 - i % 8) as u8;
        (byte >> shift) & 1u8 == 1u8
    }

    pub fn is_zero(&self) -> (r: bool)
        ensures
            r == (self@ == zero_seq()),
    {
        let mut i: usize = 0;
        while i < DIGEST_BYTES
            invariant
                i <= DIGEST_BYTES,
                forall|j: int| 0 <= j < i ==> self@[j] == 0u8,
            decreases DIGEST_BYTES - i,
        {
            if self.bytes[i] != 0u8 {
                assert(self@[i as int] != zero_seq()[i as int]);
                return false;
            }
            i = i + 1;
        }
        assert(self@ =~= zero_seq());
        true
    }
}

impl PartialEq for Digest {
    fn eq(&self, other: &Digest) -> (r: bool) {
        let mut i: usize = 0;
        while i < DIGEST_BYTES
            invariant
                i <= DIGEST_BYTES,
                forall|j: int| 0 <= j < i ==> self@[j] == other@[j],
            decreases DIGEST_BYTES - i,
        {
            if self.bytes[i] != other.bytes[i] {
                return false;
            }
            i = i + 1;
        }
        assert(self@ =~= other@);
        true
    }
}

impl Eq for Digest {
}

impl vstd::std_specs::cmp::PartialEqSpecImpl for Digest {
    open spec fn obeys_eq_spec() -> bool {
        true
    }

    open spec fn eq_spec(&self, other: &Digest) -> bool {
        self@ == other@
    }
}

proof fn lemma_distinct_bytes_differ_in_a_bit(x: u8, y: u8)
    requires
        x != y,
    ensures
        exists|s: int| 0 <= s < 8 && #[trigger] byte_bit(x, s) != byte_bit(y, s),
{
    assert(x != y ==> (((x >> 7u8) & 1u8 == 1u8) != ((y >> 7u8) & 1u8 == 1u8)
        || ((x >> 6u8) & 1u8 == 1u8) != ((y >> 6u8) & 1u8 == 1u8)
        || ((x >> 5u8) & 1u8 == 1u8) != ((y >> 5u8) & 1u8 == 1u8)
        || ((x >> 4u8) & 1u8 == 1u8) != ((y >> 4u8) & 1u8 == 1u8)
        || ((x >> 3u8) & 1u8 == 1u8) != ((y >> 3u8) & 1u8 == 1u8)
        || ((x >> 2u8) & 1u8 == 1u8) != ((y >> 2u8) & 1u8 == 1u8)
        || ((x >> 1u8) & 1u8 == 1u8) != ((y >> 1u8) & 1u8 == 1u8)
        || ((x >> 0u8) & 1u8 == 1u8) != ((y >> 0u8) & 1u8 == 1u8))) by (bit_vector);
    if byte_bit(x, 0) != byte_bit(y, 0) {
    } else if byte_bit(x, 1) != byte_bit(y, 1) {
    } else if byte_bit(x, 2) != byte_bit(y, 2) {
    } else if byte_bit(x, 3) != byte_bit(y, 3) {
    } else if byte_bit(x, 4) != byte_bit(y, 4) {
    } else if byte_bit(x, 5) != byte_bit(y, 5) {
    } else if byte_bit(x, 6) != byte_bit(y, 6) {
    } else {
        assert(byte_bit(x, 7) != byte_bit(y, 7));
    }
}

/// Two different digests differ in some bit.
pub proof fn lemma_distinct_digests_differ_in_a_bit(a: Seq<u8>, b: Seq<u8>)
    requires
        a.len() == 32,
        b.len() == 32,
        a != b,
    ensures
        exists|i: int| 0 <= i < 256 && bit_of(a, i) != bit_of(b, i),
{
    assert(!(a =~= b));
    let j = choose|j: int| 0 <= j < 32 && a[j] != b[j];
    lemma_distinct_bytes_differ_in_a_bit(a[j], b[j]);
    let s = choose|s: int| 0 <= s < 8 && #[trigger] byte_bit(a[j], s) != byte_bit(b[j], s);
    let i = 8 * j + s;
    assert(i / 8 == j && i % 8 == s) by (nonlinear_arith)
        requires
            i == 8 * j + s,
            0 <= s < 8,
    ;
    assert(bit_of(a, i) != bit_of(b, i));
}

} // verus!
