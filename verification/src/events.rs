//! Building the trie of the events of one message.

use vstd::prelude::*;
use crate::blockstore::BlockSource;
use crate::content_id::{CidModel, ContentId};
use crate::error::Fault;
use crate::memory_store::{held_blocks, IpldMemoryStore};

verus! {

/// Branching of the event trie, as a number of bits.
pub const EVENTS_AMT_BITWIDTH: u32 = 5;

/// An event with the actor that emitted it. The library carries events to
/// the trie without looking into them.
#[verifier::external_type_specification]
#[verifier::external_body]
pub struct ExStampedEvent(fvm_shared::event::StampedEvent);

/// The error of the trie.
#[verifier::external_type_specification]
#[verifier::external_body]
pub struct ExAmtError(fvm_ipld_amt::Error);

/// What `fvm_ipld_amt::Amt::new_from_iter_with_bit_width` makes of a list of
/// events over a store that takes every write: the identifier of the root
/// of the trie and the blocks that it writes, or `None` where it reports an
/// error.
pub uninterp spec fn events_trie(
    events: Seq<fvm_shared::event::StampedEvent>,
    bit_width: u32,
) -> Option<(CidModel, Map<CidModel, Seq<u8>>)>;

/// Whether the trie of the events can be built.
pub open spec fn events_trie_built(
    events: Seq<fvm_shared::event::StampedEvent>,
    bit_width: u32,
) -> bool {
    events_trie(events, bit_width) is Some
}

/// The identifier of the root of the trie of the events.
pub open spec fn events_root(
    events: Seq<fvm_shared::event::StampedEvent>,
    bit_width: u32,
) -> CidModel {
    (events_trie(events, bit_width)->0).0
}

/// The blocks of the trie of the events.
pub open spec fn events_blocks(
    events: Seq<fvm_shared::event::StampedEvent>,
    bit_width: u32,
) -> Map<CidModel, Seq<u8>> {
    (events_trie(events, bit_width)->0).1
}

/// Calls `fvm_ipld_amt::Amt::new_from_iter_with_bit_width` over the store:
/// it sets the events at the positions 0, 1, 2, ... of a new trie, writes
/// the nodes of the trie to the store and returns the identifier of the
/// root. The store in memory takes every write, so whether the trie is
/// built, its root and its blocks depend on the events and the width alone.
#[verifier::external_body]
fn build_trie(
    store: &mut fvm_ipld_blockstore::MemoryBlockstore,
    events: &[fvm_shared::event::StampedEvent],
    bit_width: u32,
) -> (r: Result<ContentId, fvm_ipld_amt::Error>)
    requires
        1 <= bit_width <= 8,
    ensures
        held_blocks(*final(store)).dom().finite(),
        r is Ok <==> events_trie(events@, bit_width) is Some,
        r matches Ok(root) ==> (events_trie(events@, bit_width)->0).0 == root@ && held_blocks(
            *final(store),
        ) == held_blocks(*old(store)).union_prefer_right((events_trie(events@, bit_width)->0).1),
{
    let built = fvm_ipld_amt::Amt::<
        &fvm_shared::event::StampedEvent,
        &fvm_ipld_blockstore::MemoryBlockstore,
    >::new_from_iter_with_bit_width(&*store, bit_width, events.iter());
    match built {
        Ok(c) => Ok(
            ContentId {
                codec: c.codec(),
                hash: c.hash().code(),
                digest: c.hash().digest().to_vec(),
            },
        ),
        Err(e) => Err(e),
    }
}

impl IpldMemoryStore {
    /// Builds the trie of the events in this store, each event at its
    /// position in the list, and returns the identifier of its root.
    pub fn build_events_trie(&mut self, events: &[fvm_shared::event::StampedEvent]) -> (r: Result<
        ContentId,
        Fault,
    >)
        ensures
            match r {
                Ok(root) => events_trie_built(events@, EVENTS_AMT_BITWIDTH) && root@ == events_root(
                    events@,
                    EVENTS_AMT_BITWIDTH,
                ) && final(self).blocks() == old(self).blocks().union_prefer_right(
                    events_blocks(events@, EVENTS_AMT_BITWIDTH),
                ),
                Err(fault) => fault == Fault::Events && !events_trie_built(
                    events@,
                    EVENTS_AMT_BITWIDTH,
                ),
            },
    {
        match build_trie(&mut self.inner, events, EVENTS_AMT_BITWIDTH) {
            Ok(root) => {
                proof {
                    old(self).lemma_blocks();
                    self.lemma_blocks();
                    let before = held_blocks(old(self).inner);
                    let after = held_blocks(self.inner);
                    assert(before.dom().subset_of(after.dom()));
                    vstd::set_lib::lemma_set_subset_finite(after.dom(), before.dom());
                }
                Ok(root)
            },
            Err(_) => Err(Fault::Events),
        }
    }
}

} // verus!
