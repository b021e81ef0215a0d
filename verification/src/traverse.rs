use vstd::prelude::*;
use crate::count::{Count, EntryKind};
use crate::ids::{id_views, ids_contain, ObjectId};
use crate::store::ObjectStore;

verus! {

broadcast use vstd::seq_lib::seq_to_set_is_finite;

/// The error returned by graph traversal.
#[derive(Clone, Copy, Debug)]
pub enum GraphTraversalError {
    /// A referenced object could not be retrieved; holds its identifier.
    ObjectMissing(ObjectId),
    /// A reference named something that is not an object identifier.
    MalformedReference,
}

/// One reference step: the store holds `a`, and `a` references `b`.
pub open spec fn step(store: ObjectStore, a: Seq<u8>, b: Seq<u8>) -> bool {
    store.has(a) && store.refs_of(a).contains(b)
}

/// A non-empty sequence of identifiers in which each element references the
/// next through an object the store holds.
pub open spec fn is_path(store: ObjectStore, p: Seq<Seq<u8>>) -> bool {
    &&& p.len() >= 1
    &&& forall|i: int| 0 <= i < p.len() - 1 ==> #[trigger] step(store, p[i], p[i + 1])
}

/// Whether `x` is reachable from the root set: some path starts at a root and
/// ends at `x`.  A root itself is reachable by its one-element path.
pub open spec fn reachable(store: ObjectStore, roots: Seq<Seq<u8>>, x: Seq<u8>) -> bool {
    exists|p: Seq<Seq<u8>>| is_path(store, p) && roots.contains(p[0]) && p.last() == x
}

/// The identifiers of a sequence of counts, in order.
pub open spec fn count_ids(counts: Seq<Count>) -> Seq<Seq<u8>> {
    counts.map_values(|c: Count| c.id@)
}

/// Every root is reachable.
pub proof fn lemma_root_reachable(store: ObjectStore, roots: Seq<Seq<u8>>, r: Seq<u8>)
    requires
        roots.contains(r),
    ensures
        reachable(store, roots, r),
{
    let p = seq![r];
    assert(is_path(store, p));
    assert(roots.contains(p[0]) && p.last() == r);
}

/// Reachability extends along one step.
pub proof fn lemma_step_reachable(store: ObjectStore, roots: Seq<Seq<u8>>, a: Seq<u8>, b: Seq<u8>)
    requires
        reachable(store, roots, a),
        step(store, a, b),
    ensures
        reachable(store, roots, b),
{
    let p = choose|p: Seq<Seq<u8>>| is_path(store, p) && roots.contains(p[0]) && p.last() == a;
    let q = p.push(b);
    assert forall|i: int| 0 <= i < q.len() - 1 implies #[trigger] step(store, q[i], q[i + 1]) by {
        if i < p.len() - 1 {
            assert(step(store, p[i], p[i + 1]));
            assert(q[i] == p[i] && q[i + 1] == p[i + 1]);
        } else {
            assert(q[i] == p.last() && q[i + 1] == b);
        }
    }
    assert(is_path(store, q));
    assert(q[0] == p[0] && q.last() == b);
}

/// A set of identifiers that contains every root and is closed under steps
/// contains the end of every path that starts at a root.
proof fn lemma_path_closed(
    store: ObjectStore,
    roots: Seq<Seq<u8>>,
    visited: Seq<Seq<u8>>,
    p: Seq<Seq<u8>>,
)
    requires
        is_path(store, p),
        roots.contains(p[0]),
        forall|x: Seq<u8>| roots.contains(x) ==> #[trigger] visited.contains(x),
        forall|a: Seq<u8>, b: Seq<u8>|
            visited.contains(a) && #[trigger] step(store, a, b) ==> visited.contains(b),
    ensures
        visited.contains(p.last()),
    decreases p.len(),
{
    if p.len() == 1 {
        assert(p.last() == p[0]);
    } else {
        let q = p.drop_last();
        assert(q.len() == p.len() - 1);
        assert forall|i: int| 0 <= i < q.len() - 1 implies #[trigger] step(store, q[i], q[i + 1]) by {
            assert(step(store, p[i], p[i + 1]));
            assert(q[i] == p[i] && q[i + 1] == p[i + 1]);
        }
        assert(is_path(store, q));
        assert(q[0] == p[0]);
        lemma_path_closed(store, roots, visited, q);
        assert(q.last() == p[p.len() - 2]);
        assert(step(store, p[p.len() - 2], p[p.len() - 2 + 1]));
        assert(visited.contains(p[p.len() - 1]));
    }
}

/// The walk's state: what holds of the visited list, the pending stack and
/// the counts emitted so far.
spec fn walk_inv(
    store: ObjectStore,
    rts: Seq<Seq<u8>>,
    tol: bool,
    visited: Seq<ObjectId>,
    stack: Seq<ObjectId>,
    counts: Seq<Count>,
) -> bool {
    &&& forall|i: int, j: int|
        0 <= i < j < visited.len() ==> id_views(visited)[i] != id_views(visited)[j]
    &&& forall|v: Seq<u8>| #[trigger] id_views(visited).contains(v) ==> reachable(store, rts, v)
    &&& forall|v: Seq<u8>| #[trigger] id_views(stack).contains(v) ==> reachable(store, rts, v)
    &&& forall|x: Seq<u8>| #[trigger]
        rts.contains(x) ==> id_views(visited).contains(x) || id_views(stack).contains(x)
    &&& forall|a: Seq<u8>, b: Seq<u8>|
        id_views(visited).contains(a) && #[trigger] step(store, a, b) ==> id_views(
            visited,
        ).contains(b) || id_views(stack).contains(b)
    &&& forall|i: int| 0 <= i < counts.len() ==> store.count_matches(#[trigger] counts[i])
    &&& forall|i: int|
        0 <= i < counts.len() ==> id_views(visited).contains((#[trigger] counts[i]).id@)
    &&& forall|v: Seq<u8>| #[trigger]
        id_views(visited).contains(v) && store.has(v) ==> count_ids(counts).contains(v)
    &&& forall|i: int, j: int|
        0 <= i < j < counts.len() ==> count_ids(counts)[i] != count_ids(counts)[j]
    &&& tol || (forall|v: Seq<u8>| #[trigger] id_views(visited).contains(v) ==> store.has(v))
}

/// Popping an identifier that was already visited keeps the walk's state.
proof fn lemma_inv_pop_visited(
    store: ObjectStore,
    rts: Seq<Seq<u8>>,
    tol: bool,
    visited: Seq<ObjectId>,
    stack0: Seq<ObjectId>,
    counts: Seq<Count>,
)
    requires
        walk_inv(store, rts, tol, visited, stack0, counts),
        stack0.len() >= 1,
        id_views(visited).contains(stack0.last()@),
    ensures
        walk_inv(store, rts, tol, visited, stack0.take(stack0.len() - 1), counts),
{
    let stack1 = stack0.take(stack0.len() - 1);
    assert forall|v: Seq<u8>| #[trigger]
        id_views(stack1).contains(v) implies id_views(stack0).contains(v) by {
        let i = choose|i: int| 0 <= i < id_views(stack1).len() && id_views(stack1)[i] == v;
        assert(id_views(stack0)[i] == v);
    }
    assert forall|x: Seq<u8>|
        id_views(stack0).contains(x) && !id_views(visited).contains(x) implies id_views(
        stack1,
    ).contains(x) by {
        let i = choose|i: int| 0 <= i < id_views(stack0).len() && id_views(stack0)[i] == x;
        if i < stack0.len() - 1 {
            assert(id_views(stack1)[i] == x);
        } else {
            assert(x == stack0.last()@);
        }
    }
}

/// Marking a popped identifier visited: how the visited views grow.
proof fn lemma_views_after_push(visited0: Seq<ObjectId>, id: ObjectId)
    ensures
        forall|v: Seq<u8>| #[trigger]
            id_views(visited0.push(id)).contains(v) ==> id_views(visited0).contains(v) || v
                == id@,
        forall|v: Seq<u8>| #[trigger]
            id_views(visited0).contains(v) ==> id_views(visited0.push(id)).contains(v),
        id_views(visited0.push(id)).contains(id@),
        id_views(visited0.push(id)) == id_views(visited0).push(id@),
{
    let vis1 = visited0.push(id);
    assert(id_views(vis1) =~= id_views(visited0).push(id@));
    assert(id_views(vis1)[vis1.len() - 1] == id@);
    assert forall|v: Seq<u8>| #[trigger]
        id_views(vis1).contains(v) implies id_views(visited0).contains(v) || v == id@ by {
        let i = choose|i: int| 0 <= i < id_views(vis1).len() && id_views(vis1)[i] == v;
        if i < visited0.len() {
            assert(id_views(visited0)[i] == v);
        }
    }
    assert forall|v: Seq<u8>| #[trigger]
        id_views(visited0).contains(v) implies id_views(vis1).contains(v) by {
        let i = choose|i: int| 0 <= i < id_views(visited0).len() && id_views(visited0)[i] == v;
        assert(id_views(vis1)[i] == v);
    }
}

/// Visiting a missing identifier under tolerance keeps the walk's state, and
/// leaves the set of held-but-unvisited identifiers unchanged.
proof fn lemma_inv_pop_missing(
    store: ObjectStore,
    rts: Seq<Seq<u8>>,
    visited0: Seq<ObjectId>,
    stack0: Seq<ObjectId>,
    counts: Seq<Count>,
)
    requires
        walk_inv(store, rts, true, visited0, stack0, counts),
        stack0.len() >= 1,
        !id_views(visited0).contains(stack0.last()@),
        !store.has(stack0.last()@),
    ensures
        walk_inv(
            store,
            rts,
            true,
            visited0.push(stack0.last()),
            stack0.take(stack0.len() - 1),
            counts,
        ),
        store.ids().to_set().difference(id_views(visited0.push(stack0.last())).to_set())
            =~= store.ids().to_set().difference(id_views(visited0).to_set()),
{
    let id = stack0.last();
    let vis1 = visited0.push(id);
    let stack1 = stack0.take(stack0.len() - 1);
    lemma_views_after_push(visited0, id);
    assert(id_views(stack0)[stack0.len() - 1] == id@);
    assert(id_views(stack0).contains(id@));
    assert forall|v: Seq<u8>| #[trigger]
        id_views(stack1).contains(v) implies id_views(stack0).contains(v) by {
        let i = choose|i: int| 0 <= i < id_views(stack1).len() && id_views(stack1)[i] == v;
        assert(id_views(stack0)[i] == v);
    }
    assert forall|x: Seq<u8>|
        id_views(stack0).contains(x) && !id_views(vis1).contains(x) implies id_views(
        stack1,
    ).contains(x) by {
        let i = choose|i: int| 0 <= i < id_views(stack0).len() && id_views(stack0)[i] == x;
        if i < stack0.len() - 1 {
            assert(id_views(stack1)[i] == x);
        } else {
            assert(x == id@);
        }
    }
    assert forall|i: int, j: int|
        0 <= i < j < vis1.len() implies id_views(vis1)[i] != id_views(vis1)[j] by {
        if j == vis1.len() - 1 {
            assert(id_views(vis1)[j] == id@);
            if id_views(vis1)[i] == id@ {
                assert(id_views(visited0)[i] == id@);
                assert(id_views(visited0).contains(id@));
            }
        } else {
            assert(id_views(visited0)[i] == id_views(vis1)[i]);
            assert(id_views(visited0)[j] == id_views(vis1)[j]);
        }
    }
    assert forall|a: Seq<u8>, b: Seq<u8>|
        id_views(vis1).contains(a) && #[trigger] step(store, a, b) implies id_views(vis1).contains(
        b,
    ) || id_views(stack1).contains(b) by {
        if a == id@ {
            assert(store.has(id@));
        } else {
            assert(id_views(visited0).contains(a));
        }
    }
}

/// Expanding a held identifier: mark it visited, emit its count, push its
/// references; the walk's state holds again and the set of held-but-unvisited
/// identifiers shrinks.
proof fn lemma_inv_expand(
    store: ObjectStore,
    rts: Seq<Seq<u8>>,
    tol: bool,
    visited0: Seq<ObjectId>,
    stack0: Seq<ObjectId>,
    counts0: Seq<Count>,
    c: Count,
    refs: Seq<ObjectId>,
)
    requires
        walk_inv(store, rts, tol, visited0, stack0, counts0),
        stack0.len() >= 1,
        !id_views(visited0).contains(stack0.last()@),
        store.has(stack0.last()@),
        id_views(refs) == store.refs_of(stack0.last()@),
        c.id == stack0.last(),
        store.count_matches(c),
    ensures
        walk_inv(
            store,
            rts,
            tol,
            visited0.push(stack0.last()),
            stack0.take(stack0.len() - 1) + refs,
            counts0.push(c),
        ),
        store.ids().to_set().difference(id_views(visited0.push(stack0.last())).to_set()).len()
            < store.ids().to_set().difference(id_views(visited0).to_set()).len(),
{
    let id = stack0.last();
    let vis1 = visited0.push(id);
    let base = stack0.take(stack0.len() - 1);
    let stack1 = base + refs;
    let counts1 = counts0.push(c);
    lemma_views_after_push(visited0, id);
    assert(id_views(stack0)[stack0.len() - 1] == id@);
    assert(id_views(stack0).contains(id@));
    assert(reachable(store, rts, id@));
    assert(id_views(stack1) =~= id_views(base) + id_views(refs)) by {
        assert forall|i: int|
            0 <= i < stack1.len() implies id_views(stack1)[i] == (id_views(base) + id_views(
            refs,
        ))[i] by {
            if i < base.len() {
                assert(stack1[i] == base[i]);
            } else {
                assert(stack1[i] == refs[i - base.len()]);
            }
        }
    }
    assert forall|v: Seq<u8>| #[trigger]
        id_views(base).contains(v) implies id_views(stack0).contains(v) by {
        let i = choose|i: int| 0 <= i < id_views(base).len() && id_views(base)[i] == v;
        assert(id_views(stack0)[i] == v);
    }
    // every pending identifier is still reachable
    assert forall|v: Seq<u8>| #[trigger]
        id_views(stack1).contains(v) implies reachable(store, rts, v) by {
        let i = choose|i: int| 0 <= i < id_views(stack1).len() && id_views(stack1)[i] == v;
        if i < base.len() {
            assert(id_views(base)[i] == v);
            assert(id_views(base).contains(v));
            assert(id_views(stack0).contains(v));
        } else {
            assert(id_views(refs)[i - base.len()] == v);
            assert(id_views(refs).contains(v));
            assert(store.refs_of(id@).contains(v));
            assert(step(store, id@, v));
            lemma_step_reachable(store, rts, id@, v);
        }
    }
    // roots stay covered
    assert forall|x: Seq<u8>| #[trigger]
        rts.contains(x) implies id_views(vis1).contains(x) || id_views(stack1).contains(x) by {
        if id_views(stack0).contains(x) && !id_views(vis1).contains(x) {
            let i = choose|i: int| 0 <= i < id_views(stack0).len() && id_views(stack0)[i] == x;
            if i < stack0.len() - 1 {
                assert(id_views(base)[i] == x);
                assert(id_views(stack1)[i] == x);
            } else {
                assert(x == id@);
            }
        }
    }
    // the visited side stays closed under steps
    assert forall|a: Seq<u8>, b: Seq<u8>|
        id_views(vis1).contains(a) && #[trigger] step(store, a, b) implies id_views(vis1).contains(
        b,
    ) || id_views(stack1).contains(b) by {
        if a == id@ {
            assert(store.refs_of(id@).contains(b));
            let i = choose|i: int|
                0 <= i < store.refs_of(id@).len() && store.refs_of(id@)[i] == b;
            assert(id_views(refs)[i] == b);
            assert(id_views(stack1)[base.len() + i] == b);
        } else {
            assert(id_views(visited0).contains(a));
            if id_views(stack0).contains(b) && !id_views(vis1).contains(b) {
                let i = choose|i: int| 0 <= i < id_views(stack0).len() && id_views(stack0)[i] == b;
                if i < stack0.len() - 1 {
                    assert(id_views(base)[i] == b);
                    assert(id_views(stack1)[i] == b);
                } else {
                    assert(b == id@);
                }
            }
        }
    }
    // visited identifiers stay distinct
    assert forall|i: int, j: int|
        0 <= i < j < vis1.len() implies id_views(vis1)[i] != id_views(vis1)[j] by {
        if j == vis1.len() - 1 {
            assert(id_views(vis1)[j] == id@);
            if id_views(vis1)[i] == id@ {
                assert(id_views(visited0)[i] == id@);
                assert(id_views(visited0).contains(id@));
            }
        } else {
            assert(id_views(visited0)[i] == id_views(vis1)[i]);
            assert(id_views(visited0)[j] == id_views(vis1)[j]);
        }
    }
    // counts stay well formed, distinct, and cover the held visited side
    assert(count_ids(counts1) =~= count_ids(counts0).push(c.id@));
    assert forall|i: int|
        0 <= i < counts1.len() implies store.count_matches(#[trigger] counts1[i]) by {
        if i < counts0.len() {
            assert(counts1[i] == counts0[i]);
        }
    }
    assert forall|i: int|
        0 <= i < counts1.len() implies id_views(vis1).contains((#[trigger] counts1[i]).id@) by {
        if i < counts0.len() {
            assert(counts1[i] == counts0[i]);
            assert(id_views(visited0).contains(counts0[i].id@));
        } else {
            assert(counts1[i].id@ == id@);
        }
    }
    assert forall|i: int, j: int|
        0 <= i < j < counts1.len() implies count_ids(counts1)[i] != count_ids(counts1)[j] by {
        if j == counts1.len() - 1 {
            assert(count_ids(counts1)[j] == id@);
            if count_ids(counts1)[i] == id@ {
                assert(count_ids(counts0)[i] == id@);
                assert(id_views(visited0).contains(counts0[i].id@));
            }
        } else {
            assert(count_ids(counts0)[i] == count_ids(counts1)[i]);
            assert(count_ids(counts0)[j] == count_ids(counts1)[j]);
        }
    }
    assert forall|v: Seq<u8>| #[trigger]
        id_views(vis1).contains(v) && store.has(v) implies count_ids(counts1).contains(v) by {
        if v == id@ {
            assert(count_ids(counts1)[counts1.len() - 1] == id@);
        } else {
            assert(id_views(visited0).contains(v));
            let i = choose|i: int|
                0 <= i < count_ids(counts0).len() && count_ids(counts0)[i] == v;
            assert(count_ids(counts1)[i] == v);
        }
    }
    // the measure drops: one held identifier left the difference
    let diff0 = store.ids().to_set().difference(id_views(visited0).to_set());
    let diff1 = store.ids().to_set().difference(id_views(vis1).to_set());
    assert(store.ids().to_set().contains(id@)) by {
        let i = choose|i: int| 0 <= i < store.ids().len() && store.ids()[i] == id@;
    }
    assert(!id_views(visited0).to_set().contains(id@));
    assert(diff1 =~= diff0.remove(id@));
    assert(diff0.contains(id@));
    assert(diff0.finite());
}

/// When the stack has drained, the visited side holds every reachable
/// identifier.
proof fn lemma_inv_complete(
    store: ObjectStore,
    rts: Seq<Seq<u8>>,
    tol: bool,
    visited: Seq<ObjectId>,
    counts: Seq<Count>,
)
    requires
        walk_inv(store, rts, tol, visited, Seq::<ObjectId>::empty(), counts),
    ensures
        forall|x: Seq<u8>| #[trigger]
            reachable(store, rts, x) ==> id_views(visited).contains(x),
{
    assert forall|x: Seq<u8>| #[trigger]
        reachable(store, rts, x) implies id_views(visited).contains(x) by {
        let p = choose|p: Seq<Seq<u8>>| is_path(store, p) && rts.contains(p[0]) && p.last() == x;
        assert(id_views(Seq::<ObjectId>::empty()).len() == 0);
        assert forall|y: Seq<u8>| rts.contains(y) implies #[trigger] id_views(visited).contains(
            y,
        ) by {
            assert(id_views(visited).contains(y) || id_views(Seq::<ObjectId>::empty()).contains(
                y,
            ));
        }
        lemma_path_closed(store, rts, id_views(visited), p);
    }
}

/// Walks the object graph from `roots` and emits one count per reachable
/// object, each identifier at most once.
///
/// On success the counts carry, for each reachable object the store holds,
/// its kind, true decompressed size, and recorded pack location; no
/// identifier repeats, and every reachable held object appears.  When
/// `tolerate_missing` is false, success further means every reachable
/// identifier was held; a missing one is reported as `ObjectMissing` instead.
/// When `tolerate_missing` is true the walk always succeeds and skips missing
/// objects.
pub fn count_objects(store: &ObjectStore, roots: &Vec<ObjectId>, tolerate_missing: bool) -> (r:
    Result<Vec<Count>, GraphTraversalError>)
    requires
        store.wf(),
    ensures
        r matches Ok(counts) ==> {
            &&& forall|k: int, l: int|
                0 <= k < l < counts@.len() ==> count_ids(counts@)[k] != count_ids(counts@)[l]
            &&& forall|k: int|
                0 <= k < counts@.len() ==> store.count_matches(#[trigger] counts@[k]) && reachable(
                    *store,
                    id_views(roots@),
                    counts@[k].id@,
                )
            &&& forall|x: Seq<u8>|
                #[trigger] reachable(*store, id_views(roots@), x) && store.has(x) ==> count_ids(
                    counts@,
                ).contains(x)
            &&& !tolerate_missing ==> forall|x: Seq<u8>|
                #[trigger] reachable(*store, id_views(roots@), x) ==> store.has(x)
        },
        r matches Err(e) ==> !tolerate_missing && (e matches GraphTraversalError::ObjectMissing(m)
            && reachable(*store, id_views(roots@), m@) && !store.has(m@)),
        tolerate_missing ==> r is Ok,
{
    let ghost rts = id_views(roots@);
    let mut stack: Vec<ObjectId> = Vec::new();
    let mut k: usize = 0;
    while k < roots.len()
        invariant
            0 <= k <= roots@.len(),
            stack@ == roots@.take(k as int),
        decreases roots@.len() - k,
    {
        stack.push(roots[k]);
        proof {
            assert(roots@.take(k as int).push(roots@[k as int]) =~= roots@.take(k + 1));
        }
        k = k + 1;
    }
    proof {
        assert(roots@.take(roots@.len() as int) =~= roots@);
    }

    let mut visited: Vec<ObjectId> = Vec::new();
    let mut counts: Vec<Count> = Vec::new();
    proof {
        assert forall|v: Seq<u8>| #[trigger]
            id_views(stack@).contains(v) implies reachable(*store, rts, v) by {
            lemma_root_reachable(*store, rts, v);
        }
        assert(id_views(visited@).len() == 0);
        assert(count_ids(counts@).len() == 0);
        assert(walk_inv(*store, rts, tolerate_missing, visited@, stack@, counts@));
    }

    while stack.len() > 0
        invariant
            store.wf(),
            rts == id_views(roots@),
            walk_inv(*store, rts, tolerate_missing, visited@, stack@, counts@),
        decreases
                store.ids().to_set().difference(id_views(visited@).to_set()).len(),
                stack@.len(),
    {
        let ghost stack0 = stack@;
        let ghost vis0 = visited@;
        let ghost counts0 = counts@;
        let id = stack.pop().unwrap();
        proof {
            assert(stack@ == stack0.take(stack0.len() - 1));
            assert(id == stack0.last());
            assert(id_views(stack0)[stack0.len() - 1] == id@);
            assert(id_views(stack0).contains(id@));
        }
        if ids_contain(&visited, &id) {
            proof {
                lemma_inv_pop_visited(*store, rts, tolerate_missing, vis0, stack0, counts0);
            }
        } else {
            match store.lookup(&id) {
                None => {
                    if tolerate_missing {
                        visited.push(id);
                        proof {
                            lemma_inv_pop_missing(*store, rts, vis0, stack0, counts0);
                        }
                    } else {
                        return Err(GraphTraversalError::ObjectMissing(id));
                    }
                },
                Some(o) => {
                    visited.push(id);
                    let loc = store.locate(&id);
                    let c = Count {
                        id,
                        object_kind: o.kind,
                        decompressed_size: o.data.len(),
                        entry_kind: EntryKind::Base,
                        entry_pack_location: loc,
                    };
                    counts.push(c);
                    let ghost base = stack@;
                    let mut j: usize = 0;
                    while j < o.refs.len()
                        invariant
                            0 <= j <= o.refs@.len(),
                            stack@ == base + o.refs@.take(j as int),
                        decreases o.refs@.len() - j,
                    {
                        stack.push(o.refs[j]);
                        proof {
                            assert((base + o.refs@.take(j as int)).push(o.refs@[j as int]) =~= base
                                + o.refs@.take(j + 1));
                        }
                        j = j + 1;
                    }
                    proof {
                        assert(o.refs@.take(o.refs@.len() as int) =~= o.refs@);
                        assert(stack@ == base + o.refs@);
                        assert(id_views(o.refs@) == store.refs_of(id@));
                        assert(store.count_matches(c));
                        lemma_inv_expand(
                            *store,
                            rts,
                            tolerate_missing,
                            vis0,
                            stack0,
                            counts0,
                            c,
                            o.refs@,
                        );
                    }
                },
            }
        }
    }
    proof {
        assert(stack@ =~= Seq::<ObjectId>::empty());
        lemma_inv_complete(*store, rts, tolerate_missing, visited@, counts@);
    }
    Ok(counts)
}

} // verus!
