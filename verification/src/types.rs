//! Block sizes, pairs of reference and key, blocks and capabilities.

use vstd::prelude::*;

verus! {

/// The two block sizes a content tree may be built from.
#[derive(Clone, Copy, Debug, PartialEq, Eq, Structural)]
pub enum BlockSize {
    Size1KiB,
    Size32KiB,
}

impl BlockSize {
    /// Number of bytes in a block of this size.
    pub open spec fn spec_bytes(self) -> nat {
        match self {
            BlockSize::Size1KiB => 1024,
            BlockSize::Size32KiB => 32768,
        }
    }

    /// Number of reference-key pairs an inner block of this size holds.
    pub open spec fn spec_arity(self) -> nat {
        match self {
            BlockSize::Size1KiB => 16,
            BlockSize::Size32KiB => 512,
        }
    }

    /// Number of bytes in a block of this size.
    pub fn bytes(self) -> (n: usize)
        ensures
            n == self.spec_bytes(),
    {
        match self {
            BlockSize::Size1KiB => 1024,
            BlockSize::Size32KiB => 32768,
        }
    }

    /// Number of reference-key pairs an inner block of this size holds:
    /// one pair per 64 bytes.
    pub fn arity(self) -> (n: usize)
        ensures
            n == self.spec_arity(),
            n * 64 == self.spec_bytes(),
    {
        match self {
            BlockSize::Size1KiB => 16,
            BlockSize::Size32KiB => 512,
        }
    }
}

/// Mathematical value of a reference-key pair: two byte strings.
pub ghost struct RkPair {
    pub reference: Seq<u8>,
    pub key: Seq<u8>,
}

/// A block's reference together with the key that decrypts it.
#[derive(Clone, Copy, Debug)]
pub struct ReferenceKeyPair {
    pub reference: [u8; 32],
    pub key: [u8; 32],
}

impl View for ReferenceKeyPair {
    type V = RkPair;

    open spec fn view(&self) -> RkPair {
        RkPair { reference: self.reference@, key: self.key@ }
    }
}

/// An encrypted block and the reference it is stored under.
#[derive(Clone, Debug)]
pub struct BlockWithReference {
    pub block: Vec<u8>,
    pub reference: [u8; 32],
}

/// Everything needed to fetch, check and decrypt a content tree.
#[derive(Clone, Copy, Debug)]
pub struct ReadCapability {
    pub block_size: BlockSize,
    pub level: u8,
    pub root: ReferenceKeyPair,
}

/// Mathematical value of a read capability.
pub ghost struct CapabilityView {
    pub block_size: BlockSize,
    pub level: nat,
    pub root: RkPair,
}

impl View for ReadCapability {
    type V = CapabilityView;

    open spec fn view(&self) -> CapabilityView {
        CapabilityView { block_size: self.block_size, level: self.level as nat, root: self.root@ }
    }
}

/// Whether two byte slices hold the same bytes.
pub fn bytes_equal(a: &[u8], b: &[u8]) -> (same: bool)
    ensures
        same == (a@ == b@),
{
    if a.len() != b.len() {
        return false;
    }
    let mut i: usize = 0;
    while i < a.len()
        invariant
            a@.len() == b@.len(),
            i <= a@.len(),
            forall|j: int| 0 <= j < i ==> a@[j] == b@[j],
        decreases a@.len() - i,
    {
        if a[i] != b[i] {
            return false;
        }
        i += 1;
    }
    assert(a@ =~= b@);
    true
}

} // verus!
