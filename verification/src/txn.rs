//! The transaction layer: one storage environment, snapshot read scopes, and
//! an exclusive write scope with commit and abort.
//!
//! A `ReadScope` owns a snapshot taken when it begins, so later commits never
//! reach it: that is the snapshot-isolation guarantee. A `WriteScope` works
//! on a scratch copy; nothing is visible to readers until `commit` installs
//! the scratch atomically. Appends consume the scope and return it only on
//! success, so no step after a failure can be committed: dropping the scope —
//! or calling `abort` — discards the scratch and leaves the store untouched.
//! Committing requires the store still to be in the state the scope started
//! from: write scopes are serialized, at most one is ever in flight.

use vstd::prelude::*;

use crate::model::StoreModel;
use crate::state::StoreState;
use crate::types::{BlockBody, BlockHeader, StateDiff, StorageError};

verus! {

/// A storage environment: the committed state.
pub struct Storage {
    state: StoreState,
}

/// A read scope: an owned snapshot of the committed state at its begin.
pub struct ReadScope {
    snapshot: StoreState,
}

/// A write scope: a scratch copy of the committed state, plus the image of
/// the state it started from, against which it must be committed.
pub struct WriteScope {
    scratch: StoreState,
    base: Ghost<StoreModel>,
}

impl Storage {
    /// The committed state's image.
    pub closed spec fn view(&self) -> StoreModel {
        self.state@
    }

    /// Opens an empty store; every marker is zero.
    pub fn open() -> (s: Storage)
        ensures
            s@ == StoreModel::init(),
            s@.wf(),
    {
        Storage { state: StoreState::empty() }
    }

    /// Begins a read scope: its snapshot is exactly the state committed so
    /// far, and later commits do not touch it.
    pub fn begin_read(&self) -> (r: ReadScope)
        ensures
            r@ == self@,
    {
        ReadScope { snapshot: self.state.snapshot() }
    }

    /// Begins a write scope on a scratch copy of the committed state.
    pub fn begin_write(&self) -> (w: WriteScope)
        ensures
            w@ == self@,
            w.base() == self@,
    {
        WriteScope { scratch: self.state.snapshot(), base: Ghost(self.state@) }
    }
}

impl ReadScope {
    /// The snapshot's image.
    pub closed spec fn view(&self) -> StoreModel {
        self.snapshot@
    }

    /// The tables of the snapshot, for every read query.
    pub fn tables(&self) -> (r: &StoreState)
        ensures
            r@ == self@,
    {
        &self.snapshot
    }
}

impl WriteScope {
    /// The scratch state's image: the reads of this scope observe the
    /// scope's own pending writes.
    pub closed spec fn view(&self) -> StoreModel {
        self.scratch@
    }

    /// The image of the committed state this scope began from.
    pub closed spec fn base(&self) -> StoreModel {
        self.base@
    }

    /// The tables of the scratch state, for every read query.
    pub fn tables(&self) -> (r: &StoreState)
        ensures
            r@ == self@,
    {
        &self.scratch
    }

    /// Appends the header for block `n`, per the marker protocol. On an
    /// error the scope is gone, and with it every pending write.
    pub fn append_header(self, n: u64, header: &BlockHeader) -> (r: Result<
        WriteScope,
        StorageError,
    >)
        requires
            self@.wf(),
        ensures
            r is Ok <==> self@.can_append_header(n, *header),
            r matches Ok(w) ==> w@ == self@.with_header(*header) && w@.wf() && w.base()
                == self.base(),
            r matches Err(e) ==> e == self@.header_append_err(n, *header),
    {
        let mut scope = self;
        match scope.scratch.append_header(n, header) {
            Ok(()) => Ok(scope),
            Err(e) => Err(e),
        }
    }

    /// Appends the body for block `n`, per the marker protocol. On an error
    /// the scope is gone, and with it every pending write.
    pub fn append_body(self, n: u64, body: &BlockBody) -> (r: Result<WriteScope, StorageError>)
        requires
            self@.wf(),
        ensures
            r is Ok <==> self@.can_append_body(n, body@),
            r matches Ok(w) ==> w@ == self@.with_body(n, body@) && w@.wf() && w.base()
                == self.base(),
            r matches Err(e) ==> e == self@.body_append_err(n, body@),
    {
        let mut scope = self;
        match scope.scratch.append_body(n, body) {
            Ok(()) => Ok(scope),
            Err(e) => Err(e),
        }
    }

    /// Appends the state diff for block `n`, per the marker protocol. On an
    /// error the scope is gone, and with it every pending write.
    pub fn append_state_diff(self, n: u64, diff: &StateDiff) -> (r: Result<
        WriteScope,
        StorageError,
    >)
        requires
            self@.wf(),
        ensures
            r is Ok <==> self@.can_append_state_diff(n, diff@),
            r matches Ok(w) ==> w@ == self@.with_state_diff(n, diff@) && w@.wf() && w.base()
                == self.base(),
            r matches Err(e) ==> e == self@.state_diff_err(n, diff@),
    {
        let mut scope = self;
        match scope.scratch.append_state_diff(n, diff) {
            Ok(()) => Ok(scope),
            Err(e) => Err(e),
        }
    }

    /// Installs the scratch state as the committed state, atomically. The
    /// store must still be where this scope began: writers are serialized.
    pub fn commit(self, store: &mut Storage)
        requires
            old(store)@ == self.base(),
        ensures
            final(store)@ == self@,
    {
        store.state = self.scratch;
    }

    /// Discards every pending write; the committed state is untouched.
    pub fn abort(self) {
    }
}

} // verus!
