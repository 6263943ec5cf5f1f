//! Composition engine — automatically compose crate functionality via category theory.

use vstd::prelude::*;
use crate::category::{Category, Morphism, ObjectId, deref_all, arrows_leaving, arrows_entering};
use crate::limit_colimit::{product, coproduct, product_outcome, coproduct_outcome, LimitResult, ColimitResult};
use crate::functor::Functor;
use crate::keyed_map::{KeyedMap, TextKey};

verus! {

/// The identifiers' texts.
pub open spec fn ids(v: Seq<ObjectId>) -> Seq<Seq<char>> {
    v.map_values(|o: ObjectId| o@)
}

/// `v` follows `u` when walking forward along morphisms (`forward`), or
/// backward against them.
pub open spec fn linked(cat: Category, forward: bool, u: Seq<char>, v: Seq<char>) -> bool {
    if forward {
        cat.has_arrow(u, v)
    } else {
        cat.has_arrow(v, u)
    }
}

/// Step `i` of `p` follows a morphism (in the given direction).
pub open spec fn walk_step(cat: Category, forward: bool, p: Seq<Seq<char>>, i: int) -> bool {
    linked(cat, forward, p[i], p[i + 1])
}

/// `p` is a non-empty walk from `s` to `t`.
pub open spec fn walk_from_to(
    cat: Category,
    forward: bool,
    p: Seq<Seq<char>>,
    s: Seq<char>,
    t: Seq<char>,
) -> bool {
    &&& p.len() >= 1
    &&& p[0] == s
    &&& p.last() == t
    &&& forall|i: int| 0 <= i < p.len() - 1 ==> #[trigger] walk_step(cat, forward, p, i)
}

/// Following morphisms from `s` leads to `t` (in zero or more steps).
pub open spec fn reachable(cat: Category, s: Seq<char>, t: Seq<char>) -> bool {
    exists|p: Seq<Seq<char>>| #[trigger] walk_from_to(cat, true, p, s, t)
}

/// Following morphisms from `s` (forward, or backward) leads to `t` in one
/// or more steps.
pub open spec fn reachable_plus(cat: Category, forward: bool, s: Seq<char>, t: Seq<char>) -> bool {
    exists|p: Seq<Seq<char>>| #[trigger] walk_from_to(cat, forward, p, s, t) && p.len() >= 2
}

/// A walk that starts in `w` ends in `w`, and after at least one step ends
/// in `v`, when every step out of `w` lands in `v` and `v` lies in `w`.
proof fn lemma_walk_stays(
    cat: Category,
    forward: bool,
    p: Seq<Seq<char>>,
    w: Set<Seq<char>>,
    v: Set<Seq<char>>,
)
    requires
        p.len() >= 1,
        forall|i: int| 0 <= i < p.len() - 1 ==> #[trigger] walk_step(cat, forward, p, i),
        w.contains(p[0]),
        v.subset_of(w),
        forall|a: Seq<char>, b: Seq<char>| w.contains(a) && #[trigger] linked(cat, forward, a, b) ==> v.contains(b),
    ensures
        w.contains(p.last()),
        p.len() >= 2 ==> v.contains(p.last()),
    decreases p.len(),
{
    if p.len() >= 2 {
        let q = p.drop_last();
        assert forall|i: int| 0 <= i < q.len() - 1 implies #[trigger] walk_step(cat, forward, q, i) by {
            assert(walk_step(cat, forward, p, i));
        }
        lemma_walk_stays(cat, forward, q, w, v);
        assert(walk_step(cat, forward, p, p.len() - 2));
        assert(w.contains(q.last()));
    }
}

/// Extending a walk by one more linked step.
proof fn lemma_walk_push(
    cat: Category,
    forward: bool,
    p: Seq<Seq<char>>,
    s: Seq<char>,
    t: Seq<char>,
    x: Seq<char>,
)
    requires
        walk_from_to(cat, forward, p, s, t),
        linked(cat, forward, t, x),
    ensures
        walk_from_to(cat, forward, p.push(x), s, x),
{
    let q = p.push(x);
    assert forall|i: int| 0 <= i < q.len() - 1 implies #[trigger] walk_step(cat, forward, q, i) by {
        if i < p.len() - 1 {
            assert(walk_step(cat, forward, p, i));
        }
    }
}

/// The far end of `m`, walking forward or backward.
pub open spec fn far_end(m: Morphism, forward: bool) -> ObjectId {
    if forward {
        m.target
    } else {
        m.source
    }
}

/// The morphisms to follow out of `current`: those leaving it (forward) or
/// entering it (backward).
fn step_arrows<'a>(cat: &'a Category, current: &ObjectId, forward: bool) -> (r: Vec<&'a Morphism>)
    requires
        cat.wf(),
    ensures
        forall|k: int| 0 <= k < r@.len() ==> linked(*cat, forward, current@, #[trigger] far_end(*r@[k], forward)@),
        forall|v: Seq<char>| #[trigger] linked(*cat, forward, current@, v) ==> exists|k: int| 0 <= k < r@.len() && #[trigger] far_end(*r@[k], forward)@ == v,
{
    let ms = if forward {
        cat.morphisms_from(current)
    } else {
        cat.morphisms_to(current)
    };
    proof {
        let g = cat.hom_groups();
        let d = deref_all(ms@);
        if forward {
            cat.lemma_arrows_leaving(current@);
            assert(d == arrows_leaving(g, current@));
        } else {
            cat.lemma_arrows_entering(current@);
            assert(d == arrows_entering(g, current@));
        }
        assert forall|k: int| 0 <= k < ms@.len() implies linked(*cat, forward, current@, #[trigger] far_end(*ms@[k], forward)@) by {
            assert(d[k] == *ms@[k]);
        }
        assert forall|v: Seq<char>| #[trigger] linked(*cat, forward, current@, v) implies exists|k: int| 0 <= k < ms@.len() && #[trigger] far_end(*ms@[k], forward)@ == v by {
            if forward {
                assert(cat.has_arrow(current@, v));
                let k = choose|k: int| 0 <= k < arrows_leaving(g, current@).len() && (#[trigger] arrows_leaving(g, current@)[k]).target@ == v;
                assert(d[k] == *ms@[k]);
                assert(far_end(*ms@[k], forward)@ == v);
            } else {
                assert(cat.has_arrow(v, current@));
                let k = choose|k: int| 0 <= k < arrows_entering(g, current@).len() && (#[trigger] arrows_entering(g, current@)[k]).source@ == v;
                assert(d[k] == *ms@[k]);
                assert(far_end(*ms@[k], forward)@ == v);
            }
        }
    }
    ms
}

/// An element-by-element copy of a list of identifiers.
fn copy_ids(v: &Vec<ObjectId>) -> (r: Vec<ObjectId>)
    ensures
        r@ == v@,
{
    let mut r: Vec<ObjectId> = Vec::new();
    let mut i: usize = 0;
    while i < v.len()
        invariant
            i <= v@.len(),
            r@ == v@.take(i as int),
        decreases v@.len() - i,
    {
        r.push(v[i].clone());
        i = i + 1;
        assert(r@ =~= v@.take(i as int));
    }
    assert(v@.take(v@.len() as int) =~= v@);
    r
}

/// A walk of one step.
proof fn lemma_one_step(cat: Category, forward: bool, s: Seq<char>, x: Seq<char>)
    requires
        linked(cat, forward, s, x),
    ensures
        reachable_plus(cat, forward, s, x),
{
    let p = seq![s, x];
    assert(walk_step(cat, forward, p, 0));
    assert(walk_from_to(cat, forward, p, s, x));
}

/// A walk of one or more steps, extended by one step.
proof fn lemma_plus_push(cat: Category, forward: bool, s: Seq<char>, t: Seq<char>, x: Seq<char>)
    requires
        reachable_plus(cat, forward, s, t),
        linked(cat, forward, t, x),
    ensures
        reachable_plus(cat, forward, s, x),
{
    let p = choose|p: Seq<Seq<char>>| #[trigger] walk_from_to(cat, forward, p, s, t) && p.len() >= 2;
    lemma_walk_push(cat, forward, p, s, t, x);
    assert(walk_from_to(cat, forward, p.push(x), s, x));
}

/// Every object reached from `start` in one or more steps, forward along
/// morphisms or backward against them, each listed once.
fn reach_all(cat: &Category, start: &ObjectId, forward: bool) -> (r: Vec<ObjectId>)
    requires
        cat.wf(),
    ensures
        ids(r@).no_duplicates(),
        forall|v: Seq<char>| ids(r@).contains(v) <==> #[trigger] reachable_plus(*cat, forward, start@, v),
{
    let ghost s = start@;
    let ghost objs = cat.object_table().dom();
    let ghost n = cat.object_table().len();
    proof { cat.lemma_object_list(); }
    let mut result: Vec<ObjectId> = Vec::new();
    let mut visited: KeyedMap<ObjectId, bool> = KeyedMap::new();
    let mut queue: Vec<ObjectId> = Vec::new();
    queue.push(start.clone());
    let ghost mut done: Set<Seq<char>> = Set::empty();
    let ghost mut pops: int = 0;
    proof {
        assert(ids(result@) =~= Seq::<Seq<char>>::empty());
        assert(visited@.dom() =~= ids(result@).to_set());
        assert(queue@[0]@ == s);
    }
    while queue.len() > 0
        invariant
            cat.wf(),
            s == start@,
            objs == cat.object_table().dom(),
            objs.finite(),
            n == objs.len(),
            visited@.dom() == ids(result@).to_set(),
            ids(result@).no_duplicates(),
            visited@.dom().subset_of(objs),
            forall|x: Seq<char>| #[trigger] visited@.contains_key(x) ==> reachable_plus(*cat, forward, s, x),
            forall|y: Seq<char>, z: Seq<char>|
                done.contains(y) && #[trigger] linked(*cat, forward, y, z) ==> visited@.contains_key(z),
            forall|y: Seq<char>| #[trigger] done.contains(y) ==> y == s || visited@.contains_key(y),
            forall|i: int| 0 <= i < queue@.len() ==> #[trigger] queue@[i]@ == s || visited@.contains_key(queue@[i]@),
            forall|x: Seq<char>|
                #[trigger] visited@.contains_key(x) ==> done.contains(x) || exists|i: int|
                    0 <= i < queue@.len() && #[trigger] queue@[i]@ == x,
            done.contains(s) || exists|i: int| 0 <= i < queue@.len() && #[trigger] queue@[i]@ == s,
            queue@.len() + pops == 1 + visited@.len(),
            0 <= pops,
        decreases n + 1 - pops,
    {
        proof {
            use_type_invariant(&visited);
            visited.lemma_keys();
            vstd::set_lib::lemma_len_subset(visited@.dom(), objs);
        }
        let ghost qbefore = queue@;
        let current = queue.pop().unwrap();
        proof {
            pops = pops + 1;
            assert(qbefore == queue@.push(current));
            assert forall|x: Seq<char>|
                #[trigger] visited@.contains_key(x) implies x == current@ || done.contains(x) || exists|i: int|
                    0 <= i < queue@.len() && #[trigger] queue@[i]@ == x by {
                if !done.contains(x) {
                    let i = choose|i: int| 0 <= i < qbefore.len() && #[trigger] qbefore[i]@ == x;
                    if i < queue@.len() {
                        assert(queue@[i] == qbefore[i]);
                    }
                }
            }
            if !done.contains(s) {
                let i = choose|i: int| 0 <= i < qbefore.len() && #[trigger] qbefore[i]@ == s;
                if i < queue@.len() {
                    assert(queue@[i] == qbefore[i]);
                }
            }
            assert(qbefore[qbefore.len() - 1] == current);
            assert(current@ == s || visited@.contains_key(current@));
        }
        let ghost v0 = visited@;
        let ms = step_arrows(cat, &current, forward);
        let mut j: usize = 0;
        while j < ms.len()
            invariant
                cat.wf(),
                s == start@,
                objs == cat.object_table().dom(),
                objs.finite(),
                n == objs.len(),
                j <= ms@.len(),
                current@ == s || v0.contains_key(current@),
                forall|k: int| 0 <= k < ms@.len() ==> linked(*cat, forward, current@, #[trigger] far_end(*ms@[k], forward)@),
                forall|k: int| 0 <= k < j ==> visited@.contains_key(#[trigger] far_end(*ms@[k], forward)@),
                forall|x: Seq<char>| #[trigger] v0.contains_key(x) ==> visited@.contains_key(x),
                visited@.dom() == ids(result@).to_set(),
                ids(result@).no_duplicates(),
                visited@.dom().subset_of(objs),
                forall|x: Seq<char>| #[trigger] visited@.contains_key(x) ==> reachable_plus(*cat, forward, s, x),
                forall|y: Seq<char>, z: Seq<char>|
                    done.contains(y) && #[trigger] linked(*cat, forward, y, z) ==> visited@.contains_key(z),
                forall|y: Seq<char>| #[trigger] done.contains(y) ==> y == s || visited@.contains_key(y),
                forall|i: int| 0 <= i < queue@.len() ==> #[trigger] queue@[i]@ == s || visited@.contains_key(queue@[i]@),
                forall|x: Seq<char>|
                    #[trigger] visited@.contains_key(x) ==> x == current@ || done.contains(x) || exists|i: int|
                        0 <= i < queue@.len() && #[trigger] queue@[i]@ == x,
                s == current@ || done.contains(s) || exists|i: int| 0 <= i < queue@.len() && #[trigger] queue@[i]@ == s,
                queue@.len() + pops == 1 + visited@.len(),
                0 <= pops,
            decreases ms@.len() - j,
        {
            let next = far_end_ref(ms[j], forward);
            if !visited.contains(next) {
                proof {
                    use_type_invariant(&visited);
                    visited.lemma_keys();
                    cat.lemma_arrow_endpoints(if forward { current@ } else { next@ }, if forward { next@ } else { current@ });
                    if current@ == s {
                        lemma_one_step(*cat, forward, s, next@);
                    } else {
                        lemma_plus_push(*cat, forward, s, current@, next@);
                    }
                }
                let ghost r0 = result@;
                let ghost qq = queue@;
                let ghost vv = visited@;
                visited.insert(next.clone(), true);
                result.push(next.clone());
                queue.push(next.clone());
                proof {
                    assert(ids(result@) =~= ids(r0).push(next@));
                    ids(r0).lemma_push_to_set_commute(next@);
                    assert(!ids(r0).to_set().contains(next@));
                    assert(visited@.dom() =~= ids(result@).to_set());
                    assert forall|a: int, b: int| 0 <= a < b < ids(result@).len() implies ids(result@)[a] != ids(result@)[b] by {
                        if b == ids(r0).len() {
                            assert(ids(r0).to_set().contains(ids(r0)[a]));
                        }
                    }
                    assert(queue@[queue@.len() - 1]@ == next@);
                    assert forall|i: int| 0 <= i < queue@.len() implies #[trigger] queue@[i]@ == s || visited@.contains_key(queue@[i]@) by {
                        if i < qq.len() {
                            assert(queue@[i] == qq[i]);
                        }
                    }
                    assert forall|x: Seq<char>|
                        #[trigger] visited@.contains_key(x) implies x == current@ || done.contains(x) || exists|i: int|
                            0 <= i < queue@.len() && #[trigger] queue@[i]@ == x by {
                        if x != next@ && !done.contains(x) && x != current@ {
                            assert(vv.contains_key(x));
                            let i = choose|i: int| 0 <= i < qq.len() && #[trigger] qq[i]@ == x;
                            assert(queue@[i] == qq[i]);
                        }
                    }
                    if s != current@ && !done.contains(s) {
                        let i = choose|i: int| 0 <= i < qq.len() && #[trigger] qq[i]@ == s;
                        assert(queue@[i] == qq[i]);
                    }
                }
            }
            j = j + 1;
        }
        proof {
            done = done.insert(current@);
            assert forall|x: Seq<char>|
                #[trigger] visited@.contains_key(x) implies done.contains(x) || exists|i: int|
                    0 <= i < queue@.len() && #[trigger] queue@[i]@ == x by {
                if x == current@ {
                    assert(done.contains(x));
                }
            }
            assert forall|y: Seq<char>, z: Seq<char>|
                done.contains(y) && #[trigger] linked(*cat, forward, y, z) implies visited@.contains_key(z) by {
                if y == current@ {
                    let k = choose|k: int| 0 <= k < ms@.len() && #[trigger] far_end(*ms@[k], forward)@ == z;
                }
            }
        }
    }
    proof {
        let w = visited@.dom().insert(s);
        let v = visited@.dom();
        assert forall|a: Seq<char>, b: Seq<char>| w.contains(a) && #[trigger] linked(*cat, forward, a, b) implies v.contains(b) by {
            if a != s {
                assert(visited@.contains_key(a));
            }
            assert(done.contains(a));
        }
        assert forall|x: Seq<char>| ids(result@).contains(x) <==> #[trigger] reachable_plus(*cat, forward, s, x) by {
            if reachable_plus(*cat, forward, s, x) {
                let p = choose|p: Seq<Seq<char>>| #[trigger] walk_from_to(*cat, forward, p, s, x) && p.len() >= 2;
                lemma_walk_stays(*cat, forward, p, w, v);
                assert(ids(result@).to_set().contains(x));
            }
            if ids(result@).contains(x) {
                assert(ids(result@).to_set().contains(x));
            }
        }
    }
    result
}

/// `m`'s far end, walking forward or backward.
fn far_end_ref<'a>(m: &'a Morphism, forward: bool) -> (r: &'a ObjectId)
    ensures
        *r == far_end(*m, forward),
{
    if forward {
        &m.target
    } else {
        &m.source
    }
}

/// A path of objects from `source` to `target`, each step following a
/// morphism forward and no object visited twice; `None` when following
/// morphisms from `source` never reaches `target`.
fn search_path(cat: &Category, source: &ObjectId, target: &ObjectId) -> (r: Option<Vec<ObjectId>>)
    requires
        cat.wf(),
    ensures
        r.is_some() == reachable(*cat, source@, target@),
        r matches Some(p) ==> walk_from_to(*cat, true, ids(p@), source@, target@) && ids(p@).no_duplicates(),
{
    let ghost s = source@;
    let ghost t = target@;
    let ghost objs = cat.object_table().dom().insert(s);
    let ghost n = objs.len();
    proof { cat.lemma_object_list(); }
    let mut visited: KeyedMap<ObjectId, bool> = KeyedMap::new();
    let mut stack: Vec<(ObjectId, Vec<ObjectId>)> = Vec::new();
    let mut first: Vec<ObjectId> = Vec::new();
    first.push(source.clone());
    stack.push((source.clone(), first));
    visited.insert(source.clone(), true);
    let ghost mut done: Set<Seq<char>> = Set::empty();
    let ghost mut pops: int = 0;
    proof {
        assert(ids(stack@[0].1@) =~= seq![s]);
        assert(walk_from_to(*cat, true, ids(stack@[0].1@), s, s));
        assert(visited@.dom() =~= set![s]);
        assert(stack@[0].0@ == s);
        assert forall|x: Seq<char>| #[trigger] visited@.contains_key(x) implies done.contains(x) || exists|i: int|
            0 <= i < stack@.len() && #[trigger] stack@[i].0@ == x by {
            assert(x == s);
        }
        assert(set![s].len() == 1) by {
            assert(set![s] =~= Set::<Seq<char>>::empty().insert(s));
        }
    }
    while stack.len() > 0
        invariant
            cat.wf(),
            s == source@,
            t == target@,
            objs == cat.object_table().dom().insert(s),
            objs.finite(),
            n == objs.len(),
            visited@.contains_key(s),
            visited@.dom().subset_of(objs),
            forall|i: int| #![trigger stack@[i]] 0 <= i < stack@.len() ==> {
                &&& walk_from_to(*cat, true, ids(stack@[i].1@), s, stack@[i].0@)
                &&& ids(stack@[i].1@).no_duplicates()
                &&& forall|k: int| 0 <= k < stack@[i].1@.len() ==> visited@.contains_key(#[trigger] stack@[i].1@[k]@)
            },
            forall|y: Seq<char>, z: Seq<char>|
                done.contains(y) && #[trigger] linked(*cat, true, y, z) ==> visited@.contains_key(z),
            forall|y: Seq<char>| #[trigger] done.contains(y) ==> y != t,
            forall|x: Seq<char>|
                #[trigger] visited@.contains_key(x) ==> done.contains(x) || exists|i: int|
                    0 <= i < stack@.len() && #[trigger] stack@[i].0@ == x,
            stack@.len() + pops == visited@.len(),
            0 <= pops,
        decreases n - pops,
    {
        proof {
            use_type_invariant(&visited);
            visited.lemma_keys();
            vstd::set_lib::lemma_len_subset(visited@.dom(), objs);
        }
        let ghost sbefore = stack@;
        let (current, path) = stack.pop().unwrap();
        proof {
            pops = pops + 1;
            assert(sbefore == stack@.push((current, path)));
            assert(sbefore[sbefore.len() - 1] == (current, path));
            assert forall|x: Seq<char>|
                #[trigger] visited@.contains_key(x) implies x == current@ || done.contains(x) || exists|i: int|
                    0 <= i < stack@.len() && #[trigger] stack@[i].0@ == x by {
                if !done.contains(x) {
                    let i = choose|i: int| 0 <= i < sbefore.len() && #[trigger] sbefore[i].0@ == x;
                    if i < stack@.len() {
                        assert(stack@[i] == sbefore[i]);
                    }
                }
            }
            assert forall|i: int| #![trigger stack@[i]] 0 <= i < stack@.len() implies {
                &&& walk_from_to(*cat, true, ids(stack@[i].1@), s, stack@[i].0@)
                &&& ids(stack@[i].1@).no_duplicates()
                &&& forall|k: int| 0 <= k < stack@[i].1@.len() ==> visited@.contains_key(#[trigger] stack@[i].1@[k]@)
            } by {
                assert(stack@[i] == sbefore[i]);
            }
            let e = sbefore[sbefore.len() - 1];
            assert(walk_from_to(*cat, true, ids(path@), s, current@));
            assert(ids(path@).no_duplicates());
        }
        if current.same_key(target) {
            return Some(path);
        }
        let ms = step_arrows(cat, &current, true);
        let ghost v0 = visited@;
        let mut j: usize = 0;
        while j < ms.len()
            invariant
                cat.wf(),
                s == source@,
                t == target@,
                current@ != t,
                objs == cat.object_table().dom().insert(s),
                objs.finite(),
                n == objs.len(),
                j <= ms@.len(),
                walk_from_to(*cat, true, ids(path@), s, current@),
                ids(path@).no_duplicates(),
                forall|k: int| 0 <= k < path@.len() ==> visited@.contains_key(#[trigger] path@[k]@),
                forall|k: int| 0 <= k < ms@.len() ==> linked(*cat, true, current@, #[trigger] far_end(*ms@[k], true)@),
                forall|k: int| 0 <= k < j ==> visited@.contains_key(#[trigger] far_end(*ms@[k], true)@),
                visited@.contains_key(s),
                visited@.dom().subset_of(objs),
                forall|i: int| #![trigger stack@[i]] 0 <= i < stack@.len() ==> {
                    &&& walk_from_to(*cat, true, ids(stack@[i].1@), s, stack@[i].0@)
                    &&& ids(stack@[i].1@).no_duplicates()
                    &&& forall|k: int| 0 <= k < stack@[i].1@.len() ==> visited@.contains_key(#[trigger] stack@[i].1@[k]@)
                },
                forall|y: Seq<char>, z: Seq<char>|
                    done.contains(y) && #[trigger] linked(*cat, true, y, z) ==> visited@.contains_key(z),
                forall|y: Seq<char>| #[trigger] done.contains(y) ==> y != t,
                forall|x: Seq<char>|
                    #[trigger] visited@.contains_key(x) ==> x == current@ || done.contains(x) || exists|i: int|
                        0 <= i < stack@.len() && #[trigger] stack@[i].0@ == x,
                stack@.len() + pops == visited@.len(),
                0 <= pops,
            decreases ms@.len() - j,
        {
            let next = far_end_ref(ms[j], true);
            if !visited.contains(next) {
                proof {
                    use_type_invariant(&visited);
                    visited.lemma_keys();
                    cat.lemma_arrow_endpoints(current@, next@);
                    lemma_walk_push(*cat, true, ids(path@), s, current@, next@);
                }
                let mut new_path = copy_ids(&path);
                new_path.push(next.clone());
                let ghost st0 = stack@;
                let ghost vv = visited@;
                visited.insert(next.clone(), true);
                stack.push((next.clone(), new_path));
                proof {
                    assert(ids(new_path@) =~= ids(path@).push(next@));
                    assert(!ids(path@).contains(next@)) by {
                        if ids(path@).contains(next@) {
                            let k = choose|k: int| 0 <= k < ids(path@).len() && ids(path@)[k] == next@;
                            assert(visited@.contains_key(path@[k]@));
                        }
                    }
                    assert forall|a: int, b: int| 0 <= a < b < ids(new_path@).len() implies ids(new_path@)[a] != ids(new_path@)[b] by {
                        if b == ids(path@).len() {
                            assert(ids(path@).contains(ids(path@)[a]));
                        }
                    }
                    assert(stack@[stack@.len() - 1] == (*next, new_path));
                    assert forall|i: int| #![trigger stack@[i]] 0 <= i < stack@.len() implies {
                        &&& walk_from_to(*cat, true, ids(stack@[i].1@), s, stack@[i].0@)
                        &&& ids(stack@[i].1@).no_duplicates()
                        &&& forall|k: int| 0 <= k < stack@[i].1@.len() ==> visited@.contains_key(#[trigger] stack@[i].1@[k]@)
                    } by {
                        if i < st0.len() {
                            assert(stack@[i] == st0[i]);
                            assert forall|k: int| 0 <= k < stack@[i].1@.len() implies visited@.contains_key(#[trigger] stack@[i].1@[k]@) by {
                                assert(vv.contains_key(st0[i].1@[k]@));
                            }
                        } else {
                            assert forall|k: int| 0 <= k < new_path@.len() implies visited@.contains_key(#[trigger] new_path@[k]@) by {
                                if k < path@.len() {
                                    assert(new_path@[k] == path@[k]);
                                }
                            }
                        }
                    }
                    assert forall|x: Seq<char>|
                        #[trigger] visited@.contains_key(x) implies x == current@ || done.contains(x) || exists|i: int|
                            0 <= i < stack@.len() && #[trigger] stack@[i].0@ == x by {
                        if x != next@ && !done.contains(x) && x != current@ {
                            assert(vv.contains_key(x));
                            let i = choose|i: int| 0 <= i < st0.len() && #[trigger] st0[i].0@ == x;
                            assert(stack@[i] == st0[i]);
                        }
                    }
                }
            }
            j = j + 1;
        }
        proof {
            done = done.insert(current@);
            assert forall|x: Seq<char>|
                #[trigger] visited@.contains_key(x) implies done.contains(x) || exists|i: int|
                    0 <= i < stack@.len() && #[trigger] stack@[i].0@ == x by {
                if x == current@ {
                    assert(done.contains(x));
                }
            }
            assert forall|y: Seq<char>, z: Seq<char>|
                done.contains(y) && #[trigger] linked(*cat, true, y, z) implies visited@.contains_key(z) by {
                if y == current@ {
                    let k = choose|k: int| 0 <= k < ms@.len() && #[trigger] far_end(*ms@[k], true)@ == z;
                }
            }
        }
    }
    proof {
        let w = visited@.dom();
        assert forall|a: Seq<char>, b: Seq<char>| w.contains(a) && #[trigger] linked(*cat, true, a, b) implies w.contains(b) by {
            assert(visited@.contains_key(a));
            assert(done.contains(a));
        }
        if reachable(*cat, s, t) {
            let p = choose|p: Seq<Seq<char>>| #[trigger] walk_from_to(*cat, true, p, s, t);
            lemma_walk_stays(*cat, true, p, w, w);
            assert(visited@.contains_key(t));
            assert(done.contains(t));
        }
    }
    None
}

/// Whether some identifier in `v` has the text of `x`.
fn contains_id(v: &Vec<ObjectId>, x: &ObjectId) -> (r: bool)
    ensures
        r == ids(v@).contains(x@),
{
    let mut i: usize = 0;
    while i < v.len()
        invariant
            i <= v@.len(),
            forall|k: int| 0 <= k < i ==> ids(v@)[k] != x@,
        decreases v@.len() - i,
    {
        if v[i].same_key(x) {
            assert(ids(v@)[i as int] == x@);
            return true;
        }
        i = i + 1;
    }
    false
}

/// A composition plan describing how to combine crate functionality.
#[derive(Debug)]
pub struct CompositionPlan {
    pub name: String,
    pub steps: Vec<CompositionStep>,
    pub input_types: Vec<String>,
    pub output_types: Vec<String>,
}

/// A single step in a composition plan.
#[derive(Debug)]
pub struct CompositionStep {
    pub crate_name: String,
    pub operation: String,
    pub inputs: Vec<String>,
    pub output: String,
}

/// The plan's inputs are those of its first step (none without steps).
pub open spec fn plan_inputs(steps: Seq<CompositionStep>) -> Seq<String> {
    if steps.len() > 0 {
        steps[0].inputs@
    } else {
        Seq::empty()
    }
}

/// The plan's output is that of its last step (none without steps).
pub open spec fn plan_outputs(steps: Seq<CompositionStep>) -> Seq<String> {
    if steps.len() > 0 {
        seq![steps.last().output]
    } else {
        Seq::empty()
    }
}

/// Step `k` is the first step whose crate is not an object of `cat`.
pub open spec fn first_missing(cat: Category, steps: Seq<CompositionStep>, k: int) -> bool {
    &&& 0 <= k < steps.len()
    &&& !cat.has_object(steps[k].crate_name@)
    &&& forall|j: int| 0 <= j < k ==> cat.has_object(#[trigger] steps[j].crate_name@)
}

/// The composition engine that uses category theory to plan and validate compositions.
#[derive(Debug)]
pub struct CompositionEngine {
    pub category: Category,
    pub functors: KeyedMap<String, Functor>,
    pub(crate) plans: KeyedMap<String, CompositionPlan>,
}

impl CompositionEngine {
    /// The category of crates.
    pub closed spec fn category_of(&self) -> Category {
        self.category
    }

    /// The registered functors, by name.
    pub closed spec fn functor_table(&self) -> Map<Seq<char>, Functor> {
        self.functors@
    }

    /// The stored plans, by name.
    pub closed spec fn plan_table(&self) -> Map<Seq<char>, CompositionPlan> {
        self.plans@
    }

    /// The engine's category is well formed.
    pub open spec fn wf(&self) -> bool {
        self.category_of().wf()
    }

    pub fn new(category: Category) -> (r: Self)
        ensures
            r.category_of() == category,
            r.functor_table() == Map::<Seq<char>, Functor>::empty(),
            r.plan_table() == Map::<Seq<char>, CompositionPlan>::empty(),
    {
        CompositionEngine { category, functors: KeyedMap::new(), plans: KeyedMap::new() }
    }

    /// Register a functor for translating between sub-categories; a functor
    /// of the same name is replaced.
    pub fn register_functor(&mut self, functor: Functor) -> (r: &mut Self)
        ensures
            r.category_of() == old(self).category_of(),
            r.functor_table() == old(self).functor_table().insert(functor.name@, functor),
            r.plan_table() == old(self).plan_table(),
            *final(self) == *final(r),
    {
        let key = functor.name.clone();
        self.functors.insert(key, functor);
        self
    }

    /// Find a path from source crate to target crate through morphisms:
    /// the path starts at `source`, ends at `target`, follows a morphism at
    /// each step and visits no crate twice. There is one exactly when
    /// `target` can be reached from `source`.
    pub fn find_path(&self, source: &ObjectId, target: &ObjectId) -> (r: Option<Vec<ObjectId>>)
        requires
            self.wf(),
        ensures
            r.is_some() == reachable(self.category_of(), source@, target@),
            r matches Some(p) ==> walk_from_to(self.category_of(), true, ids(p@), source@, target@)
                && ids(p@).no_duplicates(),
    {
        search_path(&self.category, source, target)
    }

    /// Find all crates that depend on a given crate (transitive closure),
    /// each listed once.
    pub fn dependents(&self, crate_id: &ObjectId) -> (r: Vec<ObjectId>)
        requires
            self.wf(),
        ensures
            ids(r@).no_duplicates(),
            forall|v: Seq<char>| ids(r@).contains(v) <==> #[trigger] reachable_plus(self.category_of(), false, crate_id@, v),
    {
        reach_all(&self.category, crate_id, false)
    }

    /// Find all dependencies of a crate (transitive), each listed once.
    pub fn dependencies(&self, crate_id: &ObjectId) -> (r: Vec<ObjectId>)
        requires
            self.wf(),
        ensures
            ids(r@).no_duplicates(),
            forall|v: Seq<char>| ids(r@).contains(v) <==> #[trigger] reachable_plus(self.category_of(), true, crate_id@, v),
    {
        reach_all(&self.category, crate_id, true)
    }

    /// Compose two crates via their product (parallel composition).
    pub fn compose_parallel(&mut self, a: &ObjectId, b: &ObjectId) -> (r: Result<ObjectId, String>)
        requires
            old(self).wf(),
        ensures
            final(self).wf(),
            final(self).functor_table() == old(self).functor_table(),
            final(self).plan_table() == old(self).plan_table(),
            match r {
                Ok(id) => id@ == a@ + "×"@ + b@ && exists|res: LimitResult|
                    #[trigger] product_outcome(old(self).category_of(), final(self).category_of(), *a, *b, Ok(res))
                        && res.limit_object.id == id,
                Err(e) => product_outcome(old(self).category_of(), final(self).category_of(), *a, *b, Err(e)),
            },
    {
        match product(&mut self.category, a, b) {
            Ok(res) => {
                let ghost g = res;
                let id = res.limit_object.id;
                assert(product_outcome(old(self).category, self.category, *a, *b, Ok(g)));
                assert(g.limit_object.id == id);
                assert(id@ == a@ + "×"@ + b@);
                Ok(id)
            },
            Err(e) => Err(e),
        }
    }

    /// Compose two crates via coproduct (alternative composition).
    pub fn compose_alternative(&mut self, a: &ObjectId, b: &ObjectId) -> (r: Result<ObjectId, String>)
        requires
            old(self).wf(),
        ensures
            final(self).wf(),
            final(self).functor_table() == old(self).functor_table(),
            final(self).plan_table() == old(self).plan_table(),
            match r {
                Ok(id) => id@ == a@ + "+"@ + b@ && exists|res: ColimitResult|
                    #[trigger] coproduct_outcome(old(self).category_of(), final(self).category_of(), *a, *b, Ok(res))
                        && res.colimit_object.id == id,
                Err(e) => coproduct_outcome(old(self).category_of(), final(self).category_of(), *a, *b, Err(e)),
            },
    {
        match coproduct(&mut self.category, a, b) {
            Ok(res) => {
                let ghost g = res;
                let id = res.colimit_object.id;
                assert(coproduct_outcome(old(self).category, self.category, *a, *b, Ok(g)));
                assert(g.colimit_object.id == id);
                assert(id@ == a@ + "+"@ + b@);
                Ok(id)
            },
            Err(e) => Err(e),
        }
    }

    /// Create a composition plan by chaining crates: its inputs are those of
    /// the first step, its output that of the last. It is stored under its
    /// name, replacing a plan of the same name.
    pub fn create_plan(&mut self, name: &str, steps: Vec<CompositionStep>) -> (r: Result<&CompositionPlan, String>)
        ensures
            final(self).category_of() == old(self).category_of(),
            final(self).functor_table() == old(self).functor_table(),
            r is Ok,
            r matches Ok(p) ==> {
                &&& p.name@ == name@
                &&& p.steps == steps
                &&& p.input_types@ == plan_inputs(steps@)
                &&& p.output_types@ == plan_outputs(steps@)
                &&& final(self).plan_table() == old(self).plan_table().insert(name@, *p)
            },
    {
        let input_types = if steps.len() > 0 {
            copy_texts(&steps[0].inputs)
        } else {
            Vec::new()
        };
        let mut output_types: Vec<String> = Vec::new();
        if steps.len() > 0 {
            output_types.push(steps[steps.len() - 1].output.clone());
        }
        proof {
            assert(input_types@ == plan_inputs(steps@));
            assert(output_types@ =~= plan_outputs(steps@));
        }
        let plan = CompositionPlan { name: String::from_str(name), input_types, output_types, steps };
        let ghost gp = plan;
        self.plans.insert(String::from_str(name), plan);
        let stored = self.plans.get(name);
        match stored {
            Some(p) => Ok(p),
            None => Err(String::from_str(name)),
        }
    }

    /// Get a composition plan by name.
    pub fn get_plan(&self, name: &str) -> (r: Option<&CompositionPlan>)
        ensures
            match r {
                Some(p) => self.plan_table().contains_key(name@) && *p == self.plan_table()[name@],
                None => !self.plan_table().contains_key(name@),
            },
    {
        self.plans.get(name)
    }

    /// Validate a composition plan: every step's crate must be an object of
    /// the category; the error names the first step's crate that is not.
    pub fn validate_plan(&self, plan: &CompositionPlan) -> (r: Result<bool, String>)
        ensures
            r is Ok <==> forall|k: int| 0 <= k < plan.steps@.len() ==> self.category_of().has_object(#[trigger] plan.steps@[k].crate_name@),
            r matches Ok(b) ==> b,
            r matches Err(e) ==> exists|k: int| #[trigger] first_missing(self.category_of(), plan.steps@, k)
                && e@ == "Crate '"@ + plan.steps@[k].crate_name@ + "' not found in category"@,
    {
        let mut i: usize = 0;
        while i < plan.steps.len()
            invariant
                i <= plan.steps@.len(),
                forall|j: int| 0 <= j < i ==> self.category_of().has_object(#[trigger] plan.steps@[j].crate_name@),
            decreases plan.steps@.len() - i,
        {
            let name = &plan.steps[i].crate_name;
            if self.category.get_object(&ObjectId(name.clone())).is_none() {
                assert(first_missing(self.category_of(), plan.steps@, i as int));
                return Err(String::from_str("Crate '").concat(name.as_str()).concat("' not found in category"));
            }
            i = i + 1;
        }
        Ok(true)
    }

    /// Find shared dependencies between two crates, each listed once.
    pub fn shared_dependencies(&self, a: &ObjectId, b: &ObjectId) -> (r: Vec<ObjectId>)
        requires
            self.wf(),
        ensures
            ids(r@).no_duplicates(),
            forall|v: Seq<char>| #[trigger] ids(r@).contains(v) <==> reachable_plus(self.category_of(), true, a@, v)
                && reachable_plus(self.category_of(), true, b@, v),
    {
        let deps_a = self.dependencies(a);
        let deps_b = self.dependencies(b);
        let mut r: Vec<ObjectId> = Vec::new();
        let mut i: usize = 0;
        while i < deps_a.len()
            invariant
                i <= deps_a@.len(),
                ids(deps_a@).no_duplicates(),
                ids(r@).no_duplicates(),
                forall|v: Seq<char>| #[trigger] ids(r@).contains(v) <==> ids(deps_a@.take(i as int)).contains(v)
                    && ids(deps_b@).contains(v),
            decreases deps_a@.len() - i,
        {
            let ghost r0 = r@;
            assert(ids(deps_a@.take(i + 1)) =~= ids(deps_a@.take(i as int)).push(deps_a@[i as int]@));
            if contains_id(&deps_b, &deps_a[i]) {
                r.push(deps_a[i].clone());
                proof {
                    assert(ids(r@) =~= ids(r0).push(deps_a@[i as int]@));
                    assert(!ids(deps_a@.take(i as int)).contains(deps_a@[i as int]@)) by {
                        if ids(deps_a@.take(i as int)).contains(deps_a@[i as int]@) {
                            let k = choose|k: int| 0 <= k < i && ids(deps_a@.take(i as int))[k] == deps_a@[i as int]@;
                            assert(ids(deps_a@)[k] == ids(deps_a@)[i as int]);
                        }
                    }
                    assert forall|x: int, y: int| 0 <= x < y < ids(r@).len() implies ids(r@)[x] != ids(r@)[y] by {
                        if y == ids(r0).len() {
                            assert(ids(r0).contains(ids(r0)[x]));
                        }
                    }
                }
            }
            proof {
                let ta = ids(deps_a@.take(i as int));
                let x = deps_a@[i as int]@;
                assert forall|v: Seq<char>| #[trigger] ids(r@).contains(v) <==> ta.push(x).contains(v)
                    && ids(deps_b@).contains(v) by {
                    if ta.push(x).contains(v) {
                        let k = choose|k: int| 0 <= k < ta.push(x).len() && ta.push(x)[k] == v;
                        if k < ta.len() {
                            assert(ta.contains(v));
                        }
                    }
                    if ta.contains(v) {
                        let k = choose|k: int| 0 <= k < ta.len() && ta[k] == v;
                        assert(ta.push(x)[k] == v);
                    }
                    if ids(r@).contains(v) && ids(r@) != ids(r0) {
                        let k = choose|k: int| 0 <= k < ids(r@).len() && ids(r@)[k] == v;
                        if k < ids(r0).len() {
                            assert(ids(r0)[k] == v);
                        }
                    }
                    if ids(r0).contains(v) {
                        let k = choose|k: int| 0 <= k < ids(r0).len() && ids(r0)[k] == v;
                        assert(ids(r@)[k] == v);
                    }
                    assert(ta.push(x)[ta.len() as int] == x);
                    if ids(r@) != ids(r0) {
                        assert(ids(r@)[ids(r0).len() as int] == x);
                    }
                }
            }
            i = i + 1;
        }
        assert(deps_a@.take(deps_a@.len() as int) =~= deps_a@);
        r
    }
}

/// An element-by-element copy of a list of texts.
fn copy_texts(v: &Vec<String>) -> (r: Vec<String>)
    ensures
        r@ == v@,
{
    let mut r: Vec<String> = Vec::new();
    let mut i: usize = 0;
    while i < v.len()
        invariant
            i <= v@.len(),
            r@ == v@.take(i as int),
        decreases v@.len() - i,
    {
        r.push(v[i].clone());
        i = i + 1;
        assert(r@ =~= v@.take(i as int));
    }
    assert(v@.take(v@.len() as int) =~= v@);
    r
}

/// A walk read backwards is a walk in the other direction.
proof fn lemma_walk_reverse(cat: Category, forward: bool, p: Seq<Seq<char>>, s: Seq<char>, t: Seq<char>)
    requires
        walk_from_to(cat, forward, p, s, t),
    ensures
        walk_from_to(cat, !forward, p.reverse(), t, s),
        p.reverse().len() == p.len(),
{
    let q = p.reverse();
    let n = p.len();
    let back = !forward;
    assert forall|i: int| 0 <= i < q.len() - 1 implies #[trigger] walk_step(cat, back, q, i) by {
        assert(walk_step(cat, forward, p, n - 2 - i));
        assert(q[i] == p[n - 1 - i]);
        assert(q[i + 1] == p[n - 2 - i]);
    }
}

/// Dependencies and dependents are mirror images: `v` is among the
/// dependencies of `a` exactly when `a` is among the dependents of `v`.
pub proof fn law_dependency_duality(engine: CompositionEngine, a: Seq<char>, v: Seq<char>)
    ensures
        reachable_plus(engine.category_of(), true, a, v) == reachable_plus(engine.category_of(), false, v, a),
{
    let cat = engine.category_of();
    if reachable_plus(cat, true, a, v) {
        let p = choose|p: Seq<Seq<char>>| #[trigger] walk_from_to(cat, true, p, a, v) && p.len() >= 2;
        lemma_walk_reverse(cat, true, p, a, v);
        assert(walk_from_to(cat, false, p.reverse(), v, a));
    }
    if reachable_plus(cat, false, v, a) {
        let p = choose|p: Seq<Seq<char>>| #[trigger] walk_from_to(cat, false, p, v, a) && p.len() >= 2;
        lemma_walk_reverse(cat, false, p, v, a);
        assert(walk_from_to(cat, true, p.reverse(), a, v));
    }
}

/// Between two different crates, a path is found exactly when the target is
/// among the source's dependencies; every crate has a path to itself.
pub proof fn law_path_iff_dependency(engine: CompositionEngine, a: Seq<char>, b: Seq<char>)
    ensures
        a != b ==> (reachable(engine.category_of(), a, b) == reachable_plus(engine.category_of(), true, a, b)),
        reachable(engine.category_of(), a, a),
{
    let cat = engine.category_of();
    assert(walk_from_to(cat, true, seq![a], a, a));
    if reachable(cat, a, b) && a != b {
        let p = choose|p: Seq<Seq<char>>| #[trigger] walk_from_to(cat, true, p, a, b);
        assert(p.len() >= 2);
    }
}

} // verus!
