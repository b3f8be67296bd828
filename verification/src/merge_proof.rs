//! The merge of the shards' results into one automaton: the table of final
//! numbers.

use crate::shard_proof::{set_at, valid_local, Family, LocalId, ShardView};
use vstd::prelude::*;

verus! {

/// The final number of the subset that `l` names, where it has one.
pub open spec fn id_at(ids: Seq<Seq<Option<usize>>>, l: LocalId) -> Option<usize> {
    ids[l.0 as int][l.1 as int]
}

/// The compressed form of the subset that `l` names.
pub open spec fn key_at(views: Seq<ShardView>, l: LocalId) -> Seq<u8> {
    views[l.0 as int].keys[l.1 as int]
}

/// `ids` and `order` number subsets of the family: `order` lists the
/// numbered names by number, and `ids` gives each numbered name its number.
pub open spec fn ids_ok(g: Family, ids: Seq<Seq<Option<usize>>>, order: Seq<LocalId>) -> bool {
    &&& ids.len() == g.sets.len()
    &&& forall|h: int| 0 <= h < ids.len() ==> (#[trigger] ids[h]).len() == g.sets[h].len()
    &&& forall|x: int|
        0 <= x < order.len() ==> valid_local(g, #[trigger] order[x]) && id_at(ids, order[x]) == Some(
            x as usize,
        )
    &&& forall|l: LocalId| #[trigger]
        valid_local(g, l) && id_at(ids, l) is Some ==> id_at(ids, l)->Some_0 < order.len()
            && order[id_at(ids, l)->Some_0 as int] == l
}

/// The marks have one place for every subset of every shard.
pub open spec fn marks_shape(g: Family, marks: Seq<Seq<bool>>) -> bool {
    &&& marks.len() == g.sets.len()
    &&& forall|h: int| 0 <= h < marks.len() ==> (#[trigger] marks[h]).len() == g.sets[h].len()
}

/// `keys` and `subsets` hold, by final number, the compressed forms and the
/// sets of the numbered subsets.
pub open spec fn merged_ok(
    g: Family,
    views: Seq<ShardView>,
    order: Seq<LocalId>,
    keys: Seq<Seq<u8>>,
    subsets: Seq<Set<int>>,
) -> bool {
    &&& keys.len() == order.len()
    &&& subsets.len() == order.len()
    &&& forall|i: int|
        0 <= i < order.len() ==> #[trigger] keys[i] == key_at(views, order[i]) && subsets[i] == set_at(
            g,
            order[i],
        )
}

/// One more numbered subset keeps the lists by number in step.
pub proof fn lemma_merged_push(
    g: Family,
    views: Seq<ShardView>,
    order: Seq<LocalId>,
    keys: Seq<Seq<u8>>,
    subsets: Seq<Set<int>>,
    l: LocalId,
)
    requires
        merged_ok(g, views, order, keys, subsets),
    ensures
        merged_ok(
            g,
            views,
            order.push(l),
            keys.push(key_at(views, l)),
            subsets.push(set_at(g, l)),
        ),
{
    let order2 = order.push(l);
    let keys2 = keys.push(key_at(views, l));
    let subsets2 = subsets.push(set_at(g, l));
    assert forall|i: int| 0 <= i < order2.len() implies #[trigger] keys2[i] == key_at(
        views,
        order2[i],
    ) && subsets2[i] == set_at(g, order2[i]) by {
        if i < order.len() {
            assert(keys2[i] == keys[i]);
            assert(subsets2[i] == subsets[i]);
            assert(order2[i] == order[i]);
        }
    }
}

/// Giving the name `l`, which has no number yet, the next number keeps the
/// table of numbers in order.
pub proof fn lemma_assign(g: Family, ids: Seq<Seq<Option<usize>>>, order: Seq<LocalId>, l: LocalId)
    requires
        ids_ok(g, ids, order),
        valid_local(g, l),
        id_at(ids, l) is None,
        order.len() <= usize::MAX,
    ensures
        ids_ok(
            g,
            ids.update(l.0 as int, ids[l.0 as int].update(l.1 as int, Some(order.len() as usize))),
            order.push(l),
        ),
{
    let ids2 = ids.update(l.0 as int, ids[l.0 as int].update(l.1 as int, Some(order.len() as usize)));
    let order2 = order.push(l);
    assert forall|h: int| 0 <= h < ids2.len() implies (#[trigger] ids2[h]).len() == g.sets[h].len() by {
        assert(ids[h].len() == g.sets[h].len());
    }
    assert forall|x: int| 0 <= x < order2.len() implies valid_local(g, #[trigger] order2[x]) && id_at(
        ids2,
        order2[x],
    ) == Some(x as usize) by {
        if x < order.len() {
            assert(order2[x] == order[x]);
            assert(id_at(ids, order[x]) == Some(x as usize));
            assert(order[x] != l);
        }
    }
    assert forall|l2: LocalId| #[trigger]
        valid_local(g, l2) && id_at(ids2, l2) is Some implies id_at(ids2, l2)->Some_0 < order2.len()
        && order2[id_at(ids2, l2)->Some_0 as int] == l2 by {
        if l2 != l {
            assert(id_at(ids2, l2) == id_at(ids, l2));
            assert(order2[id_at(ids, l2)->Some_0 as int] == order[id_at(ids, l2)->Some_0 as int]);
        }
    }
}

} // verus!
