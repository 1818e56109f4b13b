use crate::block_provider::{BlockHeaderProvider, BlockProvider, BlockRef, StoreView};
use crate::blocks_writer::BlocksWriterSink;
use crate::chain::{BlockView, IndexedBlock};
use crate::hash::H256;
use crate::synchronization_chain::Chain;
use vstd::prelude::*;

verus! {

/// How much of a block is checked before it is stored.
#[derive(Clone, Copy, Debug, PartialEq, Eq, Structural)]
pub enum VerificationLevel {
    /// Every rule.
    Full,
    /// The rules on the header only.
    Header,
    /// Nothing: every block is accepted.
    NoVerification,
}

/// Verification parameters.
#[derive(Clone, Copy, Debug, PartialEq, Eq, Structural)]
pub struct VerificationParameters {
    /// The level that is used until the edge block has been met.
    pub verification_level: VerificationLevel,
    /// The block from which on every block is checked in full.
    pub verification_edge: H256,
}

/// The rules that decide whether a block may join the chain. They decide by
/// their own value, the level, the block and the store that it is to join,
/// and by nothing else.
pub trait ChainVerifier {
    /// The rules accept `block` at the given level where the store is `store`.
    spec fn accepts(&self, level: VerificationLevel, block: BlockView, store: StoreView) -> bool;

    /// Checks `block`, which is to join `storage`, at the given level. An
    /// error carries the reason.
    fn verify(&self, level: VerificationLevel, block: &IndexedBlock, storage: &Chain) -> (r: Result<
        (),
        String,
    >)
        requires
            storage.wf(),
        ensures
            r.is_ok() == self.accepts(level, block@, storage.store()),
    ;
}

/// What the rules accept, as a function of level, block and store.
pub open spec fn rules_of<V: ChainVerifier>(verifier: V) -> spec_fn(
    VerificationLevel,
    BlockView,
    StoreView,
) -> bool {
    |level: VerificationLevel, block: BlockView, store: StoreView|
        verifier.accepts(level, block, store)
}

/// Mathematical value of a [`SyncVerifier`].
pub struct VerifierView {
    pub verification_level: VerificationLevel,
    pub verification_edge: H256,
    /// The edge block has been met.
    pub enforce_full_verification: bool,
    /// What the rules accept.
    pub rules: spec_fn(VerificationLevel, BlockView, StoreView) -> bool,
}

impl VerifierView {
    /// The level at which the block `hash` is checked.
    pub open spec fn level_for(self, hash: H256) -> VerificationLevel {
        if self.enforce_full_verification || hash == self.verification_edge {
            VerificationLevel::Full
        } else {
            self.verification_level
        }
    }

    /// The block passes verification where the store is `store`: nothing is
    /// to be verified, or the rules accept it at its level.
    pub open spec fn passes(self, block: BlockView, store: StoreView) -> bool {
        let level = self.level_for(block.hash());
        level == VerificationLevel::NoVerification || (self.rules)(level, block, store)
    }

    /// The verifier after it has been handed the block `hash`.
    pub open spec fn after(self, hash: H256) -> VerifierView {
        VerifierView {
            enforce_full_verification: self.enforce_full_verification || hash
                == self.verification_edge,
            ..self
        }
    }

    /// The verifier after it has been handed the blocks with these hashes.
    pub open spec fn after_all(self, hashes: Seq<H256>) -> VerifierView
        decreases hashes.len(),
    {
        if hashes.len() == 0 {
            self
        } else {
            self.after_all(hashes.drop_last()).after(hashes.last())
        }
    }
}

/// Verifies blocks on the calling thread and reports to the sink before it returns.
pub struct SyncVerifier<V: ChainVerifier> {
    verifier: V,
    verification_params: VerificationParameters,
    enforce_full_verification: bool,
}

impl<V: ChainVerifier> View for SyncVerifier<V> {
    type V = VerifierView;

    closed spec fn view(&self) -> VerifierView {
        VerifierView {
            verification_level: self.verification_params.verification_level,
            verification_edge: self.verification_params.verification_edge,
            enforce_full_verification: self.enforce_full_verification,
            rules: rules_of(self.verifier),
        }
    }
}

impl<V: ChainVerifier> SyncVerifier<V> {
    /// A verifier for blocks that are to join `storage`. Blocks are checked
    /// in full from the start if the edge block is stored already.
    pub fn new(verifier: V, storage: &Chain, verification_params: VerificationParameters) -> (r:
        Self)
        requires
            storage.wf(),
        ensures
            r@ == (VerifierView {
                verification_level: verification_params.verification_level,
                verification_edge: verification_params.verification_edge,
                enforce_full_verification: storage.store().contains_block(
                    BlockRef::Hash(verification_params.verification_edge),
                ),
                rules: rules_of(verifier),
            }),
    {
        let enforce_full_verification = storage.contains_block(
            BlockRef::Hash(verification_params.verification_edge),
        );
        SyncVerifier { verifier, verification_params, enforce_full_verification }
    }

    /// Checks a block and tells the sink the outcome: success where nothing
    /// is to be verified or the rules accept the block at its level, else
    /// the reason that the rules give.
    pub fn verify_block(&mut self, block: IndexedBlock, sink: &mut BlocksWriterSink)
        requires
            old(sink).wf(),
        ensures
            final(sink).wf(),
            final(self)@ == old(self)@.after(block@.hash()),
            if old(self)@.passes(block@, old(sink)@.store) {
                final(sink)@ == old(sink)@.on_success(block@)
            } else {
                exists|reason: Seq<char>| final(sink)@ == #[trigger] old(sink)@.on_error(reason)
            },
    {
        let hash = block.hash();
        if hash == self.verification_params.verification_edge {
            self.enforce_full_verification = true;
        }
        let level = if self.enforce_full_verification {
            VerificationLevel::Full
        } else {
            self.verification_params.verification_level
        };
        let outcome = match level {
            VerificationLevel::NoVerification => Ok(()),
            _ => self.verifier.verify(level, &block, sink.data().chain()),
        };
        sink.on_block_verified(outcome, block);
    }
}

} // verus!
