//! The state that the store keeps between syncs to disk.

use vstd::prelude::*;

verus! {

/// Where a sync deliberately panics, to exercise crash recovery.
#[derive(Clone, Copy, Debug, PartialEq, Eq, Structural)]
pub enum PanicOnSyncMode {
    /// Panic after the write-ahead log has been written.
    PostWal,
    /// Panic after the metadata has been written.
    PostMeta,
}

/// The state of the store's sync: the sequence number of the last sync, and the parameters
/// of the hash-table file that each sync records in the metadata.
pub struct Sync {
    pub(crate) sync_seqn: u32,
    pub(crate) bitbox_num_pages: u32,
    pub(crate) bitbox_seed: [u8; 16],
    pub(crate) panic_on_sync: Option<PanicOnSyncMode>,
}

impl Sync {
    /// The sequence number of the last sync.
    pub closed spec fn seqn(&self) -> u32 {
        self.sync_seqn
    }

    /// The number of pages of the hash-table file.
    pub closed spec fn num_pages(&self) -> u32 {
        self.bitbox_num_pages
    }

    /// The seed of the hash-table file.
    pub closed spec fn seed(&self) -> [u8; 16] {
        self.bitbox_seed
    }

    /// Where a sync panics, if anywhere.
    pub closed spec fn panic_mode(&self) -> Option<PanicOnSyncMode> {
        self.panic_on_sync
    }

    /// A sync state with the given sequence number and hash-table parameters.
    pub fn new(
        sync_seqn: u32,
        bitbox_num_pages: u32,
        bitbox_seed: [u8; 16],
        panic_on_sync: Option<PanicOnSyncMode>,
    ) -> (r: Self)
        ensures
            r.seqn() == sync_seqn,
            r.num_pages() == bitbox_num_pages,
            r.seed() == bitbox_seed,
            r.panic_mode() == panic_on_sync,
    {
        Self { sync_seqn, bitbox_num_pages, bitbox_seed, panic_on_sync }
    }

    /// The sequence number of the last sync.
    pub fn sync_seqn(&self) -> (r: u32)
        ensures
            r == self.seqn(),
    {
        self.sync_seqn
    }
}

} // verus!
