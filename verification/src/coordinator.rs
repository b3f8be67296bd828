//! Detecting that the shards are done.
//!
//! Every shard reports when it finds its frontier empty, and whoever gives a
//! shard work reports that the shard is busy again. The coordinator counts
//! the busy shards; when none is left, the construction stops.

use vstd::prelude::*;

verus! {

/// The number of shards that are not idle.
pub open spec fn busy_among(idle: Seq<bool>) -> nat
    decreases idle.len(),
{
    if idle.len() == 0 {
        0
    } else {
        busy_among(idle.drop_last()) + if idle.last() {
            0nat
        } else {
            1nat
        }
    }
}

/// Every shard is idle.
pub open spec fn all_idle(idle: Seq<bool>) -> bool {
    forall|h: int| 0 <= h < idle.len() ==> idle[h]
}

/// There are no more busy shards than shards.
pub proof fn lemma_busy_bound(idle: Seq<bool>)
    ensures
        busy_among(idle) <= idle.len(),
    decreases idle.len(),
{
    if idle.len() > 0 {
        lemma_busy_bound(idle.drop_last());
    }
}

/// No shard is busy exactly when every shard is idle.
pub proof fn lemma_busy_zero(idle: Seq<bool>)
    ensures
        busy_among(idle) == 0 <==> all_idle(idle),
    decreases idle.len(),
{
    if idle.len() > 0 {
        let init = idle.drop_last();
        lemma_busy_zero(init);
        if all_idle(idle) {
            assert forall|h: int| 0 <= h < init.len() implies init[h] by {
                assert(idle[h]);
            }
        }
        if busy_among(idle) == 0 {
            assert forall|h: int| 0 <= h < idle.len() implies idle[h] by {
                if h < init.len() {
                    assert(init[h]);
                }
            }
        }
    }
}

/// A report changes the number of busy shards by what it changes for one shard.
pub proof fn lemma_busy_update(idle: Seq<bool>, id: int, empty: bool)
    requires
        0 <= id < idle.len(),
    ensures
        busy_among(idle.update(id, empty)) + (if idle[id] {
            0int
        } else {
            1int
        }) == busy_among(idle) + (if empty {
            0int
        } else {
            1int
        }),
    decreases idle.len(),
{
    let after = idle.update(id, empty);
    if id == idle.len() - 1 {
        assert(after.drop_last() =~= idle.drop_last());
    } else {
        assert(after.drop_last() =~= idle.drop_last().update(id, empty));
        lemma_busy_update(idle.drop_last(), id, empty);
    }
}

/// Which shards are idle, and how many are not.
pub struct Coordinator {
    pub idle: Vec<bool>,
    pub busy: usize,
}

impl Coordinator {
    /// The count is the number of shards that are not idle.
    pub open spec fn wf(&self) -> bool {
        self.busy == busy_among(self.idle@)
    }

    /// A coordinator of `n` shards, all busy.
    pub fn new(n: usize) -> (r: Coordinator)
        ensures
            r.wf(),
            r.idle@.len() == n,
            forall|h: int| 0 <= h < n ==> !r.idle@[h],
    {
        let mut idle: Vec<bool> = Vec::new();
        let mut h: usize = 0;
        while h < n
            invariant
                h <= n,
                idle@.len() == h,
                busy_among(idle@) == h,
                forall|i: int| 0 <= i < h ==> !idle@[i],
            decreases n - h,
        {
            let ghost before = idle@;
            idle.push(false);
            assert(idle@.drop_last() =~= before);
            h += 1;
        }
        Coordinator { idle, busy: n }
    }

    /// Takes the report that shard `id` found its frontier empty (`empty`) or
    /// has work again, and says whether the construction stops: whether no
    /// shard is busy any more.
    pub fn report(&mut self, empty: bool, id: usize) -> (stop: bool)
        requires
            old(self).wf(),
            id < old(self).idle@.len(),
        ensures
            final(self).wf(),
            final(self).idle@ == old(self).idle@.update(id as int, empty),
            stop == all_idle(final(self).idle@),
    {
        proof {
            lemma_busy_update(self.idle@, id as int, empty);
            lemma_busy_bound(self.idle@.update(id as int, empty));
            lemma_busy_zero(self.idle@.update(id as int, empty));
        }
        let total = self.idle.len();
        if self.idle[id] != empty {
            if empty {
                self.busy = self.busy - 1;
            } else {
                self.busy = self.busy + 1;
            }
            self.idle.set(id, empty);
        } else {
            assert(self.idle@.update(id as int, empty) =~= self.idle@);
        }
        self.busy == 0
    }
}

} // verus!
