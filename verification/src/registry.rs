//! The registry: namespace to shared log, open-or-create, and the seal-and-
//! install sequence it performs on a log's behalf.

use crate::error::Error;
use crate::sealed::SealedSegment;
use crate::segment::CurrentSegment;
use crate::shared::{SharedWal, swapped};
use crate::tx::WriteTransaction;
use vstd::prelude::*;

verus! {

/// Relies on `String`'s equality: two strings are equal exactly when their
/// character sequences are.
#[verifier::external_body]
fn namespace_eq(a: &String, b: &String) -> (r: bool)
    ensures
        r == (a@ == b@),
{
    a == b
}

/// Seals a committed current segment, pushes it onto the tail, and installs
/// a fresh current segment starting right after it. A segment with no
/// commits is left in place.
pub fn swap_current(shared: &mut SharedWal, tx: &WriteTransaction)
    requires
        old(shared).wf(),
        tx.is_commited,
        tx.wf_for(&old(shared).current),
    ensures
        final(shared).wf(),
        swapped(*old(shared), *final(shared)),
{
    if shared.current.is_empty() {
        return ;
    }
    shared.current.seal();
    let last_committed: u64 = shared.current.last_committed();
    let db_size: u32 = shared.current.db_size();
    let mut fresh: CurrentSegment = CurrentSegment::new(last_committed + 1, db_size);
    core::mem::swap(&mut shared.current, &mut fresh);
    let old_seg: CurrentSegment = fresh;
    let sealed = SealedSegment {
        start_frame_no: old_seg.start_frame_no,
        end_frame_no: last_committed,
        size_after: old_seg.db_size,
        frames: old_seg.frames,
    };
    shared.tail.push(sealed);
    proof {
        assert(shared.tail@.last() == sealed);
        assert(shared.tail@.drop_last() =~= old(shared).tail@);
        assert(shared.tail@ =~= old(shared).tail@.push(sealed));
    }
}

/// Namespace to shared log. Logs are created on first open and then shared.
pub struct WalRegistry {
    /// The open logs; a namespace appears at most once.
    pub wals: Vec<SharedWal>,
}

impl WalRegistry {
    /// Every registered log is well formed.
    pub open spec fn wf(&self) -> bool {
        forall|i: int| 0 <= i < self.wals@.len() ==> (#[trigger] self.wals@[i]).wf()
    }

    /// An empty registry.
    pub fn new() -> (r: WalRegistry)
        ensures
            r.wf(),
            r.wals@.len() == 0,
    {
        WalRegistry { wals: Vec::new() }
    }

    /// The position of the log registered under `namespace`, if any.
    pub open spec fn resolve_spec(&self, namespace: Seq<char>) -> Option<int> {
        if exists|i: int| 0 <= i < self.wals@.len() && (#[trigger] self.wals@[i]).namespace@
            == namespace {
            Some(
                choose|i: int|
                    0 <= i < self.wals@.len() && (#[trigger] self.wals@[i]).namespace@ == namespace,
            )
        } else {
            None
        }
    }

    /// Finds the log registered under `namespace`; a namespace nobody opened
    /// is missing.
    pub fn resolve(&self, namespace: &String) -> (r: Result<usize, Error>)
        ensures
            match r {
                Ok(i) => i < self.wals@.len() && self.wals@[i as int].namespace@ == namespace@,
                Err(e) => e == Error::NamespaceMissing && self.resolve_spec(namespace@) is None,
            },
    {
        let n: usize = self.wals.len();
        let mut i: usize = 0;
        while i < n
            invariant
                i <= n,
                n == self.wals@.len(),
                forall|q: int| 0 <= q < i ==> (#[trigger] self.wals@[q]).namespace@ != namespace@,
            decreases n - i,
        {
            if namespace_eq(self.wals[i].namespace(), namespace) {
                return Ok(i);
            }
            i = i + 1;
        }
        Err(Error::NamespaceMissing)
    }

    /// Opens the log registered under `namespace`, creating it over `db_file`
    /// when it is the first open; returns its position either way.
    pub fn open(&mut self, namespace: String, db_file: Vec<u8>, db_size: u32) -> (r: usize)
        requires
            old(self).wf(),
        ensures
            final(self).wf(),
            r < final(self).wals@.len(),
            final(self).wals@[r as int].namespace@ == namespace@,
            old(self).resolve_spec(namespace@) is Some ==> *final(self) == *old(self),
            old(self).resolve_spec(namespace@) is None ==> {
                &&& final(self).wals@.len() == old(self).wals@.len() + 1
                &&& r == old(self).wals@.len()
                &&& forall|q: int|
                    0 <= q < old(self).wals@.len() ==> #[trigger] final(self).wals@[q] == old(
                        self,
                    ).wals@[q]
                &&& final(self).wals@[r as int].db_file@ == db_file@
                &&& final(self).wals@[r as int].checkpointed_frame_no == 0
                &&& final(self).wals@[r as int].current.start_frame_no == 1
                &&& final(self).wals@[r as int].current.db_size == db_size
            },
    {
        match self.resolve(&namespace) {
            Ok(i) => {
                proof {
                    let j = choose|j: int|
                        0 <= j < self.wals@.len() && (#[trigger] self.wals@[j]).namespace@
                            == namespace@;
                    assert(self.wals@[i as int].namespace@ == namespace@);
                }
                i
            },
            Err(_) => {
                let r: usize = self.wals.len();
                self.wals.push(SharedWal::new(namespace, db_file, db_size));
                r
            },
        }
    }
}

} // verus!
