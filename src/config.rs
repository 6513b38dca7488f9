//! The security levels of the cipher and the two actions it offers.
use vstd::prelude::*;

verus! {

/// The key size, which fixes the block size and the number of rounds.
#[derive(Debug, Clone, Copy, PartialEq, Eq)]
pub enum KeySize {
    /// 256 bits: blocks of 32 bytes, 14 rounds.
    Bits256,
    /// 384 bits: blocks of 48 bytes, 16 rounds.
    Bits384,
    /// 512 bits: blocks of 64 bytes, 18 rounds.
    Bits512,
}

impl KeySize {
    /// Block size in bytes.
    pub open spec fn spec_block_size(self) -> nat {
        match self {
            KeySize::Bits256 => 32,
            KeySize::Bits384 => 48,
            KeySize::Bits512 => 64,
        }
    }

    /// Number of rounds applied to each block.
    pub open spec fn spec_rounds(self) -> nat {
        match self {
            KeySize::Bits256 => 14,
            KeySize::Bits384 => 16,
            KeySize::Bits512 => 18,
        }
    }

    /// Get the block size of the algorithm in bytes.
    pub fn block_size(&self) -> (r: usize)
        ensures
            r == self.spec_block_size(),
    {
        match self {
            KeySize::Bits256 => 32,
            KeySize::Bits384 => 48,
            KeySize::Bits512 => 64,
        }
    }

    /// Get the number of rounds to use.
    pub fn rounds(&self) -> (r: usize)
        ensures
            r == self.spec_rounds(),
    {
        match self {
            KeySize::Bits256 => 14,
            KeySize::Bits384 => 16,
            KeySize::Bits512 => 18,
        }
    }
}

/// The action to take on the input.
#[derive(Debug, Clone, Copy, PartialEq, Eq)]
pub enum Action {
    /// Encrypt the input.
    Encrypt,
    /// Decrypt the input.
    Decrypt,
}

} // verus!
