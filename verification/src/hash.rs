//! 256-bit hashes, which name blocks and headers.
use vstd::prelude::*;

verus! {

/// A 256-bit hash, as its bytes in order.
#[derive(Clone, Copy, Debug, Eq)]
pub struct H256 {
    pub bytes: [u8; 32],
}

/// Sixteen bytes from `base` on, read as one big-endian word.
pub open spec fn word_at(b: Seq<u8>, base: int) -> u128 {
    ((b[base + 0] as u128) << 120u128)
        | ((b[base + 1] as u128) << 112u128)
        | ((b[base + 2] as u128) << 104u128)
        | ((b[base + 3] as u128) << 96u128)
        | ((b[base + 4] as u128) << 88u128)
        | ((b[base + 5] as u128) << 80u128)
        | ((b[base + 6] as u128) << 72u128)
        | ((b[base + 7] as u128) << 64u128)
        | ((b[base + 8] as u128) << 56u128)
        | ((b[base + 9] as u128) << 48u128)
        | ((b[base + 10] as u128) << 40u128)
        | ((b[base + 11] as u128) << 32u128)
        | ((b[base + 12] as u128) << 24u128)
        | ((b[base + 13] as u128) << 16u128)
        | ((b[base + 14] as u128) << 8u128)
        | ((b[base + 15] as u128) << 0u128)
}

/// `a` comes before `b` when they are compared byte by byte from the front.
pub open spec fn bytes_before(a: Seq<u8>, b: Seq<u8>) -> bool {
    exists|i: int|
        0 <= i < a.len() && i < b.len() && #[trigger] a[i] < b[i] && forall|j: int|
            0 <= j < i ==> a[j] == b[j]
}

impl H256 {
    /// The two words under which the hash is filed in a table.
    pub open spec fn spec_key(self) -> (u128, u128) {
        (word_at(self.bytes@, 0), word_at(self.bytes@, 16))
    }

    /// `self` is smaller than `other`.
    pub open spec fn before(self, other: H256) -> bool {
        bytes_before(self.bytes@, other.bytes@)
    }

    /// The hash whose bytes are all zero.
    pub fn zero() -> (r: H256)
        ensures
            forall|i: int| 0 <= i < 32 ==> r.bytes@[i] == 0,
    {
        H256 { bytes: [0u8; 32] }
    }

    pub(crate) fn key(&self) -> (r: (u128, u128))
        ensures
            r == self.spec_key(),
    {
        let hi: u128 = ((self.bytes[0] as u128) << 120u128)
            | ((self.bytes[1] as u128) << 112u128)
            | ((self.bytes[2] as u128) << 104u128)
            | ((self.bytes[3] as u128) << 96u128)
            | ((self.bytes[4] as u128) << 88u128)
            | ((self.bytes[5] as u128) << 80u128)
            | ((self.bytes[6] as u128) << 72u128)
            | ((self.bytes[7] as u128) << 64u128)
            | ((self.bytes[8] as u128) << 56u128)
            | ((self.bytes[9] as u128) << 48u128)
            | ((self.bytes[10] as u128) << 40u128)
            | ((self.bytes[11] as u128) << 32u128)
            | ((self.bytes[12] as u128) << 24u128)
            | ((self.bytes[13] as u128) << 16u128)
            | ((self.bytes[14] as u128) << 8u128)
            | ((self.bytes[15] as u128) << 0u128);
        let lo: u128 = ((self.bytes[16] as u128) << 120u128)
            | ((self.bytes[17] as u128) << 112u128)
            | ((self.bytes[18] as u128) << 104u128)
            | ((self.bytes[19] as u128) << 96u128)
            | ((self.bytes[20] as u128) << 88u128)
            | ((self.bytes[21] as u128) << 80u128)
            | ((self.bytes[22] as u128) << 72u128)
            | ((self.bytes[23] as u128) << 64u128)
            | ((self.bytes[24] as u128) << 56u128)
            | ((self.bytes[25] as u128) << 48u128)
            | ((self.bytes[26] as u128) << 40u128)
            | ((self.bytes[27] as u128) << 32u128)
            | ((self.bytes[28] as u128) << 24u128)
            | ((self.bytes[29] as u128) << 16u128)
            | ((self.bytes[30] as u128) << 8u128)
            | ((self.bytes[31] as u128) << 0u128);
        (hi, lo)
    }

    /// Whether `self` is smaller than `other`, compared byte by byte.
    pub fn less_than(&self, other: &H256) -> (r: bool)
        ensures
            r == self.before(*other),
    {
        let mut i: usize = 0;
        while i < 32
            invariant
                i <= 32,
                forall|j: int| 0 <= j < i ==> self.bytes@[j] == other.bytes@[j],
            decreases 32 - i,
        {
            if self.bytes[i] < other.bytes[i] {
                assert(self.bytes@[i as int] < other.bytes@[i as int]);
                return true;
            }
            if self.bytes[i] > other.bytes[i] {
                return false;
            }
            i = i + 1;
        }
        false
    }
}

impl PartialEq for H256 {
    fn eq(&self, other: &H256) -> (r: bool) {
        let mut i: usize = 0;
        while i < 32
            invariant
                i <= 32,
                forall|j: int| 0 <= j < i ==> self.bytes@[j] == other.bytes@[j],
            decreases 32 - i,
        {
            if self.bytes[i] != other.bytes[i] {
                return false;
            }
            i = i + 1;
        }
        assert(self.bytes =~= other.bytes);
        true
    }
}

impl vstd::std_specs::cmp::PartialEqSpecImpl for H256 {
    open spec fn obeys_eq_spec() -> bool {
        true
    }

    open spec fn eq_spec(&self, other: &H256) -> bool {
        *self == *other
    }
}

proof fn lemma_word_determines_bytes(
    a0: u8, a1: u8, a2: u8, a3: u8, a4: u8, a5: u8, a6: u8, a7: u8, a8: u8, a9: u8, a10: u8, a11: u8, a12: u8, a13: u8, a14: u8, a15: u8,
    b0: u8, b1: u8, b2: u8, b3: u8, b4: u8, b5: u8, b6: u8, b7: u8, b8: u8, b9: u8, b10: u8, b11: u8, b12: u8, b13: u8, b14: u8, b15: u8,
)
    by (bit_vector)
    requires
        (((a0 as u128) << 120u128)
                | ((a1 as u128) << 112u128)
                | ((a2 as u128) << 104u128)
                | ((a3 as u128) << 96u128)
                | ((a4 as u128) << 88u128)
                | ((a5 as u128) << 80u128)
                | ((a6 as u128) << 72u128)
                | ((a7 as u128) << 64u128)
                | ((a8 as u128) << 56u128)
                | ((a9 as u128) << 48u128)
                | ((a10 as u128) << 40u128)
                | ((a11 as u128) << 32u128)
                | ((a12 as u128) << 24u128)
                | ((a13 as u128) << 16u128)
                | ((a14 as u128) << 8u128)
                | ((a15 as u128) << 0u128)) == (((b0 as u128) << 120u128)
                | ((b1 as u128) << 112u128)
                | ((b2 as u128) << 104u128)
                | ((b3 as u128) << 96u128)
                | ((b4 as u128) << 88u128)
                | ((b5 as u128) << 80u128)
                | ((b6 as u128) << 72u128)
                | ((b7 as u128) << 64u128)
                | ((b8 as u128) << 56u128)
                | ((b9 as u128) << 48u128)
                | ((b10 as u128) << 40u128)
                | ((b11 as u128) << 32u128)
                | ((b12 as u128) << 24u128)
                | ((b13 as u128) << 16u128)
                | ((b14 as u128) << 8u128)
                | ((b15 as u128) << 0u128)),
    ensures
        a0 == b0,
        a1 == b1,
        a2 == b2,
        a3 == b3,
        a4 == b4,
        a5 == b5,
        a6 == b6,
        a7 == b7,
        a8 == b8,
        a9 == b9,
        a10 == b10,
        a11 == b11,
        a12 == b12,
        a13 == b13,
        a14 == b14,
        a15 == b15,
{
}

/// Two hashes that are filed under the same words are the same hash.
pub proof fn lemma_key_injective(x: H256, y: H256)
    requires
        x.spec_key() == y.spec_key(),
    ensures
        x == y,
{
    let a: Seq<u8> = x.bytes@;
    let b: Seq<u8> = y.bytes@;
    lemma_word_determines_bytes(a[0], a[1], a[2], a[3], a[4], a[5], a[6], a[7], a[8], a[9], a[10], a[11], a[12], a[13], a[14], a[15], b[0], b[1], b[2], b[3], b[4], b[5], b[6], b[7], b[8], b[9], b[10], b[11], b[12], b[13], b[14], b[15]);
    lemma_word_determines_bytes(a[16], a[17], a[18], a[19], a[20], a[21], a[22], a[23], a[24], a[25], a[26], a[27], a[28], a[29], a[30], a[31], b[16], b[17], b[18], b[19], b[20], b[21], b[22], b[23], b[24], b[25], b[26], b[27], b[28], b[29], b[30], b[31]);
    assert forall|i: int| 0 <= i < 32 implies x.bytes@[i] == y.bytes@[i] by {}
    assert(x.bytes =~= y.bytes);
}

/// The order of hashes is irreflexive, transitive and total.
pub proof fn lemma_before_is_a_strict_order(x: H256, y: H256, z: H256)
    ensures
        !x.before(x),
        x.before(y) && y.before(z) ==> x.before(z),
        x == y || x.before(y) || y.before(x),
{
    if x.before(y) && y.before(z) {
        let i: int = choose|i: int|
            0 <= i < 32 && #[trigger] x.bytes@[i] < y.bytes@[i] && forall|j: int|
                0 <= j < i ==> x.bytes@[j] == y.bytes@[j];
        let k: int = choose|k: int|
            0 <= k < 32 && #[trigger] y.bytes@[k] < z.bytes@[k] && forall|j: int|
                0 <= j < k ==> y.bytes@[j] == z.bytes@[j];
        let m: int = if i < k { i } else { k };
        assert(x.bytes@[m] < z.bytes@[m]);
    }
    if x != y {
        lemma_first_difference(x, y, 0);
    }
}

proof fn lemma_first_difference(x: H256, y: H256, from: int)
    requires
        x != y,
        0 <= from <= 32,
        forall|j: int| 0 <= j < from ==> x.bytes@[j] == y.bytes@[j],
    ensures
        x.before(y) || y.before(x),
    decreases 32 - from,
{
    if from == 32 {
        assert(x.bytes =~= y.bytes);
    } else if x.bytes@[from] < y.bytes@[from] {
    } else if y.bytes@[from] < x.bytes@[from] {
    } else {
        lemma_first_difference(x, y, from + 1);
    }
}

/// The first byte in which two hashes differ decides which is the smaller one.
pub proof fn law_first_difference_decides(x: H256, y: H256, k: int)
    requires
        0 <= k < 32,
        forall|j: int| 0 <= j < k ==> x.bytes@[j] == y.bytes@[j],
        x.bytes@[k] < y.bytes@[k],
    ensures
        x.before(y),
        !y.before(x),
{
    lemma_before_is_a_strict_order(x, y, x);
}

} // verus!
