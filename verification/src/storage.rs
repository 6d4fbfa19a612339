//! The backend as the coordinator sees it: four disjoint key spaces, and a
//! transaction over them.
use vstd::prelude::*;
use crate::keyspace::KeySpace;
use crate::subtree::SubtreeCache;

verus! {

/// The four key spaces as maps.
pub struct StorageView {
    pub main: Map<Seq<u8>, Seq<u8>>,
    pub aux: Map<Seq<u8>, Seq<u8>>,
    pub roots: Map<Seq<u8>, Seq<u8>>,
    pub meta: Map<Seq<u8>, Seq<u8>>,
}

/// The four key spaces of the backend.
pub struct Storage {
    /// The elements of every subtree, each under its subtree's prefix.
    pub main: KeySpace,
    /// Auxiliary data, outside every root hash.
    pub aux: KeySpace,
    /// The root state of every subtree that is not empty.
    pub roots: KeySpace,
    /// Bookkeeping that belongs to no subtree; its keys carry no prefix.
    pub meta: KeySpace,
}

impl View for Storage {
    type V = StorageView;

    open spec fn view(&self) -> StorageView {
        StorageView { main: self.main@, aux: self.aux@, roots: self.roots@, meta: self.meta@ }
    }
}

impl Storage {
    /// Each key space keeps its entries in order.
    pub open spec fn wf(&self) -> bool {
        self.main.wf() && self.aux.wf() && self.roots.wf() && self.meta.wf()
    }

    /// Four empty key spaces.
    pub fn new() -> (storage: Storage)
        ensures
            storage.wf(),
            storage@.main == Map::<Seq<u8>, Seq<u8>>::empty(),
            storage@.aux == Map::<Seq<u8>, Seq<u8>>::empty(),
            storage@.roots == Map::<Seq<u8>, Seq<u8>>::empty(),
            storage@.meta == Map::<Seq<u8>, Seq<u8>>::empty(),
    {
        Storage {
            main: KeySpace::new(),
            aux: KeySpace::new(),
            roots: KeySpace::new(),
            meta: KeySpace::new(),
        }
    }

    /// An independent copy of the four key spaces.
    pub fn snapshot(&self) -> (copy: Storage)
        ensures
            copy@ == self@,
            copy.wf() == self.wf(),
    {
        Storage {
            main: self.main.snapshot(),
            aux: self.aux.snapshot(),
            roots: self.roots.snapshot(),
            meta: self.meta.snapshot(),
        }
    }
}

/// A transaction: a private copy of the four key spaces that holds the
/// writes made through it, and the subtree handles loaded while it is open.
/// It sees the committed state as it was when the transaction began, and
/// its own writes; nothing of it reaches the committed state before the
/// transaction is committed, and nothing if it is dropped.
pub struct Transaction {
    /// The key spaces as the transaction sees them.
    pub storage: Storage,
    /// The handles of the subtrees opened in this transaction.
    pub subtrees: SubtreeCache,
    /// The epoch of the database when the transaction began.
    pub base_epoch: u64,
}

impl View for Transaction {
    type V = StorageView;

    /// The key spaces as the transaction sees them.
    open spec fn view(&self) -> StorageView {
        self.storage@
    }
}

} // verus!
