use vstd::prelude::*;

verus! {

/// A 256-bit hash, held as four 64-bit words, most significant first.
#[derive(Clone, Copy, Debug, PartialEq, Eq, Hash, Structural)]
pub struct H256 {
    pub w0: u64,
    pub w1: u64,
    pub w2: u64,
    pub w3: u64,
}

/// The eight bytes of a word, most significant first.
pub open spec fn word_bytes(w: u64) -> Seq<u8> {
    seq![
        (w / 0x0100_0000_0000_0000) as u8,
        (w / 0x0001_0000_0000_0000 % 256) as u8,
        (w / 0x0000_0100_0000_0000 % 256) as u8,
        (w / 0x0000_0001_0000_0000 % 256) as u8,
        (w / 0x0000_0000_0100_0000 % 256) as u8,
        (w / 0x0000_0000_0001_0000 % 256) as u8,
        (w / 0x0000_0000_0000_0100 % 256) as u8,
        (w % 256) as u8,
    ]
}

/// Appends the eight bytes of a word, most significant first.
pub(crate) fn push_word(out: &mut Vec<u8>, w: u64)
    ensures
        final(out)@ == old(out)@ + word_bytes(w),
{
    out.push((w / 0x0100_0000_0000_0000) as u8);
    out.push((w / 0x0001_0000_0000_0000 % 256) as u8);
    out.push((w / 0x0000_0100_0000_0000 % 256) as u8);
    out.push((w / 0x0000_0001_0000_0000 % 256) as u8);
    out.push((w / 0x0000_0000_0100_0000 % 256) as u8);
    out.push((w / 0x0000_0000_0001_0000 % 256) as u8);
    out.push((w / 0x0000_0000_0000_0100 % 256) as u8);
    out.push((w % 256) as u8);
    assert(out@ =~= old(out)@ + word_bytes(w));
}

impl H256 {
    /// The all-zero hash.
    pub open spec fn spec_zero() -> H256 {
        H256 { w0: 0, w1: 0, w2: 0, w3: 0 }
    }

    /// The 32 bytes of the hash, most significant first.
    pub open spec fn spec_bytes(self) -> Seq<u8> {
        word_bytes(self.w0) + word_bytes(self.w1) + word_bytes(self.w2) + word_bytes(self.w3)
    }

    /// The all-zero hash.
    #[verifier::when_used_as_spec(spec_zero)]
    pub fn zero() -> (r: H256)
        ensures
            r == Self::spec_zero(),
    {
        H256 { w0: 0, w1: 0, w2: 0, w3: 0 }
    }

    /// Appends the 32 bytes of the hash, most significant first.
    pub fn write_to(&self, out: &mut Vec<u8>)
        ensures
            final(out)@ == old(out)@ + self.spec_bytes(),
    {
        push_word(out, self.w0);
        push_word(out, self.w1);
        push_word(out, self.w2);
        push_word(out, self.w3);
        assert(out@ =~= old(out)@ + self.spec_bytes());
    }
}

} // verus!
