//! The invariant of the sharded subset construction, and the lemmas that
//! carry it through the steps of a worker.

use crate::automaton::AutomatonModel;
use crate::counting::{all_below, pairwise_distinct};
use crate::ubig::{block_stands_for, lemma_compressed_injective, xx_hash64};
use vstd::arithmetic::div_mod::lemma_fundamental_div_mod_converse;
use vstd::prelude::*;

verus! {

/// A subset's name while the shards work: its shard and its number there.
pub type LocalId = (usize, usize);

/// A transition between subsets under their local names.
pub type LocalTransition = ((usize, usize), usize, (usize, usize));

/// The shard, of `k` shards, that owns the compressed subset `key`.
pub open spec fn home(key: Seq<u8>, k: int) -> int {
    (xx_hash64(key) as int) % k
}

/// What a shard holds, as plain values.
pub struct ShardView {
    pub keys: Seq<Seq<u8>>,
    pub frontier: Seq<Set<int>>,
    pub done: int,
    pub tr: Seq<LocalTransition>,
    pub acc: Seq<LocalId>,
}

/// The subsets that the shards have numbered, and for each a word that
/// reaches it.
pub struct Family {
    pub sets: Seq<Seq<Set<int>>>,
    pub words: Seq<Seq<Seq<int>>>,
}

/// `l` names a subset of the family.
pub open spec fn valid_local(g: Family, l: LocalId) -> bool {
    l.0 < g.sets.len() && l.1 < g.sets[l.0 as int].len()
}

/// The subset that `l` names.
pub open spec fn set_at(g: Family, l: LocalId) -> Set<int> {
    g.sets[l.0 as int][l.1 as int]
}

/// Some shard has recorded `l` as accepting.
pub open spec fn recorded(views: Seq<ShardView>, l: LocalId) -> bool {
    exists|h: int, i: int|
        0 <= h < views.len() && 0 <= i < views[h].acc.len() && #[trigger] views[h].acc[i] == l
}

/// The state of shard `h`: its table names the subsets of the family that it
/// owns, its frontier holds those not yet expanded, in order, and its
/// transitions list the expanded ones subset by subset and symbol by symbol.
/// While the shard is `busy` it has taken one subset off the frontier and
/// written `extra` of its transitions.
pub open spec fn shard_inv(
    m: AutomatonModel,
    g: Family,
    v: ShardView,
    h: int,
    busy: bool,
    extra: int,
) -> bool {
    let sets = g.sets[h];
    let words = g.words[h];
    let width = m.alphabet as int;
    let b: int = if busy {
        1
    } else {
        0
    };
    &&& v.keys.len() == sets.len()
    &&& words.len() == sets.len()
    &&& forall|i: int, j: int| 0 <= i < j < v.keys.len() ==> v.keys[i] != v.keys[j]
    &&& forall|j: int|
        0 <= j < sets.len() ==> block_stands_for(#[trigger] v.keys[j], sets[j]) && home(
            v.keys[j],
            g.sets.len() as int,
        ) == h
    &&& forall|j: int|
        0 <= j < sets.len() ==> m.in_range(#[trigger] sets[j]) && m.valid_word(words[j]) && sets[j]
            == m.run(words[j])
    &&& 0 <= v.done
    &&& v.done + b <= sets.len()
    &&& v.frontier.len() == sets.len() - v.done - b
    &&& forall|i: int| 0 <= i < v.frontier.len() ==> #[trigger] v.frontier[i] == sets[v.done + b + i]
    &&& v.tr.len() == v.done * width + extra
    &&& forall|k: int|
        0 <= k < v.tr.len() ==> {
            let t = #[trigger] v.tr[k];
            &&& t.0.0 == h
            &&& t.0.1 == k / width
            &&& t.1 == k % width + 1
            &&& 1 <= t.1 <= width
            &&& t.0.1 < v.done + b
            &&& valid_local(g, t.2)
            &&& set_at(g, t.2) == m.step(sets[k / width], t.1 as int)
        }
    &&& forall|i: int|
        0 <= i < v.acc.len() ==> valid_local(g, #[trigger] v.acc[i]) && m.hits_accept(
            set_at(g, v.acc[i]),
        )
}

/// The state of all shards. Shard `busy` (none if `busy` is `-1`) is
/// expanding a subset and has come to the symbol `a`.
pub open spec fn mt_inv(
    m: AutomatonModel,
    g: Family,
    views: Seq<ShardView>,
    busy: int,
    a: int,
    start: LocalId,
) -> bool {
    &&& views.len() == g.sets.len()
    &&& g.words.len() == g.sets.len()
    &&& views.len() >= 1
    &&& -1 <= busy < views.len()
    &&& busy >= 0 ==> 1 <= a <= m.alphabet + 1
    &&& forall|h: int|
        0 <= h < views.len() ==> shard_inv(
            m,
            g,
            #[trigger] views[h],
            h,
            h == busy,
            if h == busy {
                a - 1
            } else {
                0
            },
        )
    &&& forall|l: LocalId| #[trigger]
        valid_local(g, l) && m.hits_accept(set_at(g, l)) ==> recorded(views, l)
    &&& valid_local(g, start)
    &&& start.1 == 0
    &&& set_at(g, start) == m.eps_closure(m.start_set())
}

/// Different names stand for different subsets.
pub proof fn lemma_locals_distinct(
    m: AutomatonModel,
    g: Family,
    views: Seq<ShardView>,
    busy: int,
    a: int,
    start: LocalId,
    l1: LocalId,
    l2: LocalId,
)
    requires
        mt_inv(m, g, views, busy, a, start),
        valid_local(g, l1),
        valid_local(g, l2),
        l1 != l2,
    ensures
        set_at(g, l1) != set_at(g, l2),
{
    let v1 = views[l1.0 as int];
    let v2 = views[l2.0 as int];
    let k1 = v1.keys[l1.1 as int];
    let k2 = v2.keys[l2.1 as int];
    assert(shard_inv(m, g, v1, l1.0 as int, l1.0 == busy, if l1.0 == busy { a - 1 } else { 0 }));
    assert(shard_inv(m, g, v2, l2.0 as int, l2.0 == busy, if l2.0 == busy { a - 1 } else { 0 }));
    assert(block_stands_for(k1, set_at(g, l1)));
    assert(block_stands_for(k2, set_at(g, l2)));
    lemma_compressed_injective(k1, k2, set_at(g, l1), set_at(g, l2));
    if l1.0 == l2.0 {
        if l1.1 < l2.1 {
            assert(v1.keys[l1.1 as int] != v1.keys[l2.1 as int]);
        } else {
            assert(v1.keys[l2.1 as int] != v1.keys[l1.1 as int]);
        }
    } else {
        assert(home(k1, g.sets.len() as int) == l1.0);
        assert(home(k2, g.sets.len() as int) == l2.0);
    }
}

/// The family with the subset `v`, reached by `w`, added to shard `h2`.
pub open spec fn family_push(g: Family, h2: int, v: Set<int>, w: Seq<int>) -> Family {
    Family { sets: g.sets.update(h2, g.sets[h2].push(v)), words: g.words.update(h2, g.words[h2].push(w)) }
}

/// A shard that does not change keeps its state when the family grows.
pub proof fn lemma_shard_grows(
    m: AutomatonModel,
    g: Family,
    v: ShardView,
    h: int,
    busy: bool,
    extra: int,
    h2: int,
    s: Set<int>,
    w: Seq<int>,
)
    requires
        shard_inv(m, g, v, h, busy, extra),
        0 <= h < g.sets.len(),
        0 <= h2 < g.sets.len(),
        g.words.len() == g.sets.len(),
        h != h2,
    ensures
        shard_inv(m, family_push(g, h2, s, w), v, h, busy, extra),
{
    let g2 = family_push(g, h2, s, w);
    assert(g2.sets[h] == g.sets[h]);
    assert(g2.words[h] == g.words[h]);
    assert forall|l: LocalId| valid_local(g, l) implies valid_local(g2, l) && set_at(g2, l) == set_at(
        g,
        l,
    ) by {
        if l.0 == h2 {
            assert(g2.sets[h2] == g.sets[h2].push(s));
        } else {
            assert(g2.sets[l.0 as int] == g.sets[l.0 as int]);
        }
    }
    assert forall|k: int| 0 <= k < v.tr.len() implies valid_local(g2, (#[trigger] v.tr[k]).2) && set_at(
        g2,
        v.tr[k].2,
    ) == set_at(g, v.tr[k].2) by {
        assert(valid_local(g, v.tr[k].2));
    }
    assert forall|i: int| 0 <= i < v.acc.len() implies valid_local(g2, #[trigger] v.acc[i]) && set_at(
        g2,
        v.acc[i],
    ) == set_at(g, v.acc[i]) by {
        assert(valid_local(g, v.acc[i]));
    }
}

/// The place of the next transition in a shard's list.
pub proof fn lemma_place(done: int, a: int, width: int)
    requires
        0 <= done,
        1 <= a <= width,
    ensures
        (done * width + a - 1) / width == done,
        (done * width + a - 1) % width == a - 1,
{
    lemma_fundamental_div_mod_converse(done * width + a - 1, width, done, a - 1);
}

/// The shard `h` with one more transition.
pub open spec fn with_tr(v: ShardView, t: LocalTransition) -> ShardView {
    ShardView { tr: v.tr.push(t), ..v }
}

/// A transition to a subset that already has a name keeps the invariant.
pub proof fn lemma_mt_found(
    m: AutomatonModel,
    g: Family,
    views: Seq<ShardView>,
    h: int,
    a: int,
    start: LocalId,
    t: LocalTransition,
)
    requires
        mt_inv(m, g, views, h, a, start),
        0 <= h,
        a <= m.alphabet,
        t.0.0 == h,
        t.0.1 == views[h].done,
        t.1 == a,
        valid_local(g, t.2),
        set_at(g, t.2) == m.step(g.sets[h][views[h].done], a),
    ensures
        mt_inv(m, g, views.update(h, with_tr(views[h], t)), h, a + 1, start),
{
    let views2 = views.update(h, with_tr(views[h], t));
    let width = m.alphabet as int;
    let v = views[h];
    let v2 = views2[h];
    assert(shard_inv(m, g, v, h, true, a - 1));
    lemma_place(v.done, a, width);
    assert forall|k: int| 0 <= k < v2.tr.len() implies {
        let u = #[trigger] v2.tr[k];
        &&& u.0.0 == h
        &&& u.0.1 == k / width
        &&& u.1 == k % width + 1
        &&& 1 <= u.1 <= width
        &&& u.0.1 < v2.done + 1
        &&& valid_local(g, u.2)
        &&& set_at(g, u.2) == m.step(g.sets[h][k / width], u.1 as int)
    } by {
        if k < v.tr.len() {
            assert(v2.tr[k] == v.tr[k]);
        }
    }
    assert(shard_inv(m, g, v2, h, true, a));
    assert forall|h1: int| 0 <= h1 < views2.len() implies shard_inv(
        m,
        g,
        #[trigger] views2[h1],
        h1,
        h1 == h,
        if h1 == h {
            a
        } else {
            0
        },
    ) by {
        if h1 != h {
            assert(views2[h1] == views[h1]);
            assert(shard_inv(m, g, views[h1], h1, false, 0));
        }
    }
    assert forall|l: LocalId| #[trigger]
        valid_local(g, l) && m.hits_accept(set_at(g, l)) implies recorded(views2, l) by {
        assert(recorded(views, l));
        let (h1, i) = choose|h1: int, i: int|
            0 <= h1 < views.len() && 0 <= i < views[h1].acc.len() && #[trigger] views[h1].acc[i] == l;
        assert(views2[h1].acc[i] == l);
    }
}

/// The views after a new subset `s` was named `(h2, views[h2].keys.len())`:
/// its owner `h2` has the key and the subset on its frontier, the shard `h`
/// that found it has the accepting mark, if any, and the transition.
pub open spec fn views_new(
    views: Seq<ShardView>,
    h: int,
    h2: int,
    key: Seq<u8>,
    s: Set<int>,
    hit: bool,
    t: LocalTransition,
) -> Seq<ShardView> {
    let own = views[h2];
    let views1 = views.update(
        h2,
        ShardView { keys: own.keys.push(key), frontier: own.frontier.push(s), ..own },
    );
    let finder = views1[h];
    views1.update(
        h,
        ShardView {
            tr: finder.tr.push(t),
            acc: if hit {
                finder.acc.push(t.2)
            } else {
                finder.acc
            },
            ..finder
        },
    )
}

/// A transition to a subset that had no name yet keeps the invariant.
pub proof fn lemma_mt_new(
    m: AutomatonModel,
    g: Family,
    views: Seq<ShardView>,
    h: int,
    a: int,
    start: LocalId,
    t: LocalTransition,
    key: Seq<u8>,
    s: Set<int>,
)
    requires
        m.wf(),
        mt_inv(m, g, views, h, a, start),
        0 <= h,
        a <= m.alphabet,
        t.0.0 == h,
        t.0.1 == views[h].done,
        t.1 == a,
        t.2.0 < views.len(),
        t.2.1 == views[t.2.0 as int].keys.len(),
        s == m.step(g.sets[h][views[h].done], a),
        block_stands_for(key, s),
        home(key, views.len() as int) == t.2.0,
        forall|j: int| 0 <= j < views[t.2.0 as int].keys.len() ==> views[t.2.0 as int].keys[j] != key,
    ensures
        mt_inv(
            m,
            family_push(g, t.2.0 as int, s, g.words[h][views[h].done].push(a)),
            views_new(views, h, t.2.0 as int, key, s, m.hits_accept(s), t),
            h,
            a + 1,
            start,
        ),
{
    let h2 = t.2.0 as int;
    let hit = m.hits_accept(s);
    let w0 = g.words[h][views[h].done];
    let w = w0.push(a);
    let g2 = family_push(g, h2, s, w);
    let views2 = views_new(views, h, h2, key, s, hit, t);
    let width = m.alphabet as int;
    assert(shard_inv(m, g, views[h], h, true, a - 1));
    assert(shard_inv(m, g, views[h2], h2, h2 == h, if h2 == h { a - 1 } else { 0 }));
    lemma_place(views[h].done, a, width);
    m.lemma_step_in_range(g.sets[h][views[h].done], a);
    assert(m.valid_word(w) && s == m.run(w)) by {
        assert(m.valid_word(w0) && g.sets[h][views[h].done] == m.run(w0));
        assert(w.drop_last() =~= w0);
        assert forall|i: int| 0 <= i < w.len() implies 1 <= #[trigger] w[i] <= m.alphabet by {
            if i < w0.len() {
                assert(w[i] == w0[i]);
            }
        }
    }
    assert forall|l: LocalId| valid_local(g, l) implies valid_local(g2, l) && set_at(g2, l) == set_at(
        g,
        l,
    ) by {
        if l.0 == h2 {
            assert(g2.sets[h2] == g.sets[h2].push(s));
        } else {
            assert(g2.sets[l.0 as int] == g.sets[l.0 as int]);
        }
    }
    assert(valid_local(g2, t.2) && set_at(g2, t.2) == s) by {
        assert(g2.sets[h2] == g.sets[h2].push(s));
    }
    assert forall|h1: int| 0 <= h1 < views2.len() implies shard_inv(
        m,
        g2,
        #[trigger] views2[h1],
        h1,
        h1 == h,
        if h1 == h {
            a
        } else {
            0
        },
    ) by {
        let v = views[h1];
        let v2 = views2[h1];
        assert(shard_inv(m, g, v, h1, h1 == h, if h1 == h { a - 1 } else { 0 }));
        if h1 != h && h1 != h2 {
            assert(v2 == v);
            lemma_shard_grows(m, g, v, h1, false, 0, h2, s, w);
        } else {
            let sets2 = g2.sets[h1];
            let sets = g.sets[h1];
            if h1 == h2 {
                assert(sets2 == sets.push(s));
                assert(g2.words[h1] == g.words[h1].push(w));
                assert(v2.keys == v.keys.push(key));
                assert(v2.frontier == v.frontier.push(s));
            } else {
                assert(sets2 == sets);
                assert(g2.words[h1] == g.words[h1]);
                assert(v2.keys == v.keys);
                assert(v2.frontier == v.frontier);
            }
            assert forall|i: int, j: int| 0 <= i < j < v2.keys.len() implies v2.keys[i]
                != v2.keys[j] by {
                if j < v.keys.len() {
                    assert(v2.keys[i] == v.keys[i] && v2.keys[j] == v.keys[j]);
                } else {
                    assert(v2.keys[i] == v.keys[i]);
                }
            }
            assert forall|j: int| 0 <= j < sets2.len() implies block_stands_for(
                #[trigger] v2.keys[j],
                sets2[j],
            ) && home(v2.keys[j], g2.sets.len() as int) == h1 by {
                if j < sets.len() {
                    assert(v2.keys[j] == v.keys[j]);
                    assert(sets2[j] == sets[j]);
                }
            }
            assert forall|j: int| 0 <= j < sets2.len() implies m.in_range(#[trigger] sets2[j])
                && m.valid_word(g2.words[h1][j]) && sets2[j] == m.run(g2.words[h1][j]) by {
                if j < sets.len() {
                    assert(sets2[j] == sets[j]);
                    assert(g2.words[h1][j] == g.words[h1][j]);
                }
            }
            let b: int = if h1 == h {
                1
            } else {
                0
            };
            assert forall|i: int| 0 <= i < v2.frontier.len() implies #[trigger] v2.frontier[i]
                == sets2[v2.done + b + i] by {
                if i < v.frontier.len() {
                    assert(v2.frontier[i] == v.frontier[i]);
                    assert(sets2[v.done + b + i] == sets[v.done + b + i]);
                }
            }
            assert forall|k: int| 0 <= k < v2.tr.len() implies {
                let u = #[trigger] v2.tr[k];
                &&& u.0.0 == h1
                &&& u.0.1 == k / width
                &&& u.1 == k % width + 1
                &&& 1 <= u.1 <= width
                &&& u.0.1 < v2.done + b
                &&& valid_local(g2, u.2)
                &&& set_at(g2, u.2) == m.step(sets2[k / width], u.1 as int)
            } by {
                if k < v.tr.len() {
                    assert(v2.tr[k] == v.tr[k]);
                    assert(valid_local(g, v.tr[k].2));
                    assert(sets2[k / width] == sets[k / width]);
                } else {
                    assert(h1 == h);
                    assert(v2.tr[k] == t);
                    assert(sets2[v.done] == sets[v.done]);
                }
            }
            assert forall|i: int| 0 <= i < v2.acc.len() implies valid_local(
                g2,
                #[trigger] v2.acc[i],
            ) && m.hits_accept(set_at(g2, v2.acc[i])) by {
                if i < v.acc.len() {
                    assert(v2.acc[i] == v.acc[i]);
                    assert(valid_local(g, v.acc[i]));
                }
            }
        }
    }
    assert forall|l: LocalId| #[trigger]
        valid_local(g2, l) && m.hits_accept(set_at(g2, l)) implies recorded(views2, l) by {
        if l == t.2 {
            assert(hit);
            assert(views2[h].acc[views[h].acc.len() as int] == l);
        } else {
            assert(valid_local(g, l)) by {
                if l.0 == h2 {
                    assert(g2.sets[h2] == g.sets[h2].push(s));
                } else {
                    assert(g2.sets[l.0 as int] == g.sets[l.0 as int]);
                }
            }
            assert(recorded(views, l));
            let (h1, i) = choose|h1: int, i: int|
                0 <= h1 < views.len() && 0 <= i < views[h1].acc.len() && #[trigger] views[h1].acc[i]
                    == l;
            assert(views2[h1].acc[i] == l);
        }
    }
    assert(valid_local(g, start));
}

/// The shard `h` after it took the first subset off its frontier.
pub open spec fn popped(v: ShardView) -> ShardView {
    ShardView { frontier: v.frontier.subrange(1, v.frontier.len() as int), ..v }
}

/// Taking a subset off the frontier of shard `h` makes the shard busy.
pub proof fn lemma_mt_pop(
    m: AutomatonModel,
    g: Family,
    views: Seq<ShardView>,
    h: int,
    start: LocalId,
)
    requires
        mt_inv(m, g, views, -1, 0, start),
        0 <= h < views.len(),
        views[h].frontier.len() > 0,
    ensures
        mt_inv(m, g, views.update(h, popped(views[h])), h, 1, start),
        views[h].frontier[0] == g.sets[h][views[h].done],
        views[h].done < g.sets[h].len(),
{
    let views2 = views.update(h, popped(views[h]));
    let v = views[h];
    let v2 = views2[h];
    assert(shard_inv(m, g, v, h, false, 0));
    assert forall|i: int| 0 <= i < v2.frontier.len() implies #[trigger] v2.frontier[i]
        == g.sets[h][v2.done + 1 + i] by {
        assert(v2.frontier[i] == v.frontier[i + 1]);
    }
    assert(shard_inv(m, g, v2, h, true, 0));
    assert forall|h1: int| 0 <= h1 < views2.len() implies shard_inv(
        m,
        g,
        #[trigger] views2[h1],
        h1,
        h1 == h,
        0,
    ) by {
        if h1 != h {
            assert(views2[h1] == views[h1]);
            assert(shard_inv(m, g, views[h1], h1, false, 0));
        }
    }
    assert forall|l: LocalId| #[trigger]
        valid_local(g, l) && m.hits_accept(set_at(g, l)) implies recorded(views2, l) by {
        assert(recorded(views, l));
        let (h1, i) = choose|h1: int, i: int|
            0 <= h1 < views.len() && 0 <= i < views[h1].acc.len() && #[trigger] views[h1].acc[i] == l;
        assert(views2[h1].acc[i] == l);
    }
}

/// The shard `h` after it finished a subset.
pub open spec fn advanced(v: ShardView) -> ShardView {
    ShardView { done: v.done + 1, ..v }
}

/// When a subset is expanded on every symbol, its shard is idle again.
pub proof fn lemma_mt_row_done(
    m: AutomatonModel,
    g: Family,
    views: Seq<ShardView>,
    h: int,
    start: LocalId,
)
    requires
        mt_inv(m, g, views, h, m.alphabet as int + 1, start),
        0 <= h,
    ensures
        mt_inv(m, g, views.update(h, advanced(views[h])), -1, 0, start),
{
    let views2 = views.update(h, advanced(views[h]));
    let v = views[h];
    let v2 = views2[h];
    let width = m.alphabet as int;
    assert(shard_inv(m, g, v, h, true, width));
    assert((v.done + 1) * width == v.done * width + width) by (nonlinear_arith);
    assert(shard_inv(m, g, v2, h, false, 0));
    assert forall|h1: int| 0 <= h1 < views2.len() implies shard_inv(
        m,
        g,
        #[trigger] views2[h1],
        h1,
        false,
        0,
    ) by {
        if h1 != h {
            assert(views2[h1] == views[h1]);
            assert(shard_inv(m, g, views[h1], h1, false, 0));
        }
    }
    assert forall|l: LocalId| #[trigger]
        valid_local(g, l) && m.hits_accept(set_at(g, l)) implies recorded(views2, l) by {
        assert(recorded(views, l));
        let (h1, i) = choose|h1: int, i: int|
            0 <= h1 < views.len() && 0 <= i < views[h1].acc.len() && #[trigger] views[h1].acc[i] == l;
        assert(views2[h1].acc[i] == l);
    }
}

/// The subsets expanded so far are different sets of states: `places` names
/// them, each name below its shard's count of expanded subsets.
pub open spec fn expanded_ok(
    g: Family,
    views: Seq<ShardView>,
    expanded: Seq<Set<int>>,
    places: Seq<LocalId>,
    n: nat,
) -> bool {
    &&& places.len() == expanded.len()
    &&& all_below(expanded, n)
    &&& pairwise_distinct(expanded)
    &&& forall|i: int|
        0 <= i < places.len() ==> valid_local(g, #[trigger] places[i]) && places[i].1
            < views[places[i].0 as int].done && expanded[i] == set_at(g, places[i])
}

/// Finishing the subset `(h, done)` adds a set that was not expanded before.
pub proof fn lemma_expanded_grows(
    m: AutomatonModel,
    g: Family,
    views: Seq<ShardView>,
    h: int,
    start: LocalId,
    expanded: Seq<Set<int>>,
    places: Seq<LocalId>,
    l: LocalId,
)
    requires
        mt_inv(m, g, views, h, m.alphabet as int + 1, start),
        0 <= h,
        expanded_ok(g, views, expanded, places, m.size),
        l.0 == h,
        l.1 == views[h].done,
    ensures
        expanded_ok(
            g,
            views.update(h, advanced(views[h])),
            expanded.push(set_at(g, l)),
            places.push(l),
            m.size,
        ),
{
    let views2 = views.update(h, advanced(views[h]));
    let e2 = expanded.push(set_at(g, l));
    let p2 = places.push(l);
    assert(shard_inv(m, g, views[h], h, true, m.alphabet as int));
    assert(valid_local(g, l));
    assert(m.in_range(g.sets[h][l.1 as int]));
    assert forall|i: int, q: int| 0 <= i < e2.len() && #[trigger] e2[i].contains(q) implies 0 <= q
        < m.size by {
        if i < expanded.len() {
            assert(e2[i] == expanded[i]);
            assert(expanded[i].contains(q));
        }
    }
    assert forall|i: int, j: int| 0 <= i < j < e2.len() implies e2[i] != e2[j] by {
        if j < expanded.len() {
            assert(e2[i] == expanded[i] && e2[j] == expanded[j]);
        } else {
            assert(e2[i] == expanded[i]);
            assert(places[i] != l);
            lemma_locals_distinct(m, g, views, h, m.alphabet as int + 1, start, places[i], l);
        }
    }
    assert forall|i: int| 0 <= i < p2.len() implies valid_local(g, #[trigger] p2[i]) && p2[i].1
        < views2[p2[i].0 as int].done && e2[i] == set_at(g, p2[i]) by {
        if i < places.len() {
            assert(p2[i] == places[i]);
            assert(e2[i] == expanded[i]);
        }
    }
}

/// The record of expanded subsets is untouched by anything but finishing a subset.
pub proof fn lemma_expanded_keeps(
    g: Family,
    g2: Family,
    views: Seq<ShardView>,
    views2: Seq<ShardView>,
    expanded: Seq<Set<int>>,
    places: Seq<LocalId>,
    n: nat,
)
    requires
        expanded_ok(g, views, expanded, places, n),
        views2.len() == views.len(),
        views.len() == g.sets.len(),
        forall|h: int| 0 <= h < views.len() ==> (#[trigger] views2[h]).done == views[h].done,
        forall|l: LocalId| valid_local(g, l) ==> valid_local(g2, l) && set_at(g2, l) == set_at(g, l),
    ensures
        expanded_ok(g2, views2, expanded, places, n),
{
    assert forall|i: int| 0 <= i < places.len() implies valid_local(g2, #[trigger] places[i])
        && places[i].1 < views2[places[i].0 as int].done && expanded[i] == set_at(g2, places[i]) by {
        assert(valid_local(g, places[i]));
    }
}

} // verus!
