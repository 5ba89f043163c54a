//! Walking the dependency graph: the edges reachable from a set of roots,
//! with cycle detection, and the dependency closure of one source.

use vstd::prelude::*;
use crate::keys::SourceKey;
use crate::dependency::{Dependency, target_of};
use crate::spec_tree::{SpecTree, Source, key_views, lemma_distinct_keys_bounded};

verus! {

/// Why the graph of a specification cannot be used.
#[derive(Debug)]
pub enum GraphError {
    /// A reachable key names no source.
    UnknownSource(SourceKey),
    /// A reachable source lies on a cycle.
    CyclicDependency(SourceKey),
    /// A source has no content hash to build from.
    MissingSourceHash(SourceKey),
}

pub open spec fn pair_views(v: Seq<(SourceKey, SourceKey)>) -> Seq<(Seq<char>, Seq<char>)> {
    v.map_values(|p: (SourceKey, SourceKey)| (p.0@, p.1@))
}

/// Every finished key names a reachable source, and each of its dependencies
/// finished before it.
pub open spec fn finished_in_order(tree: &SpecTree, roots: Seq<Seq<char>>, v: Seq<Seq<char>>) -> bool {
    &&& forall|i: int| 0 <= i < v.len() ==> tree.has(#[trigger] v[i]) && tree.reachable(roots, v[i])
    &&& forall|i: int, b: Seq<char>|
        0 <= i < v.len() && #[trigger] tree.edge(v[i], b) ==> exists|j: int| 0 <= j < i && v[j] == b
}

/// The recorded pairs are edges out of finished or open keys, and hold every
/// edge out of a finished key.
pub open spec fn pairs_cover(
    tree: &SpecTree,
    p: Seq<(Seq<char>, Seq<char>)>,
    v: Seq<Seq<char>>,
    s: Seq<Seq<char>>,
) -> bool {
    &&& forall|i: int|
        0 <= i < p.len() ==> (v.contains(#[trigger] p[i].0) || s.contains(p[i].0)) && tree.edge(
            p[i].0,
            p[i].1,
        )
    &&& forall|a: Seq<char>, b: Seq<char>| v.contains(a) && #[trigger] tree.edge(a, b) ==> p.contains((a, b))
}

/// The open keys form a walk from a reachable key.
pub open spec fn open_walk(tree: &SpecTree, roots: Seq<Seq<char>>, s: Seq<Seq<char>>) -> bool {
    &&& s.no_duplicates()
    &&& forall|i: int| 0 <= i < s.len() ==> tree.has(#[trigger] s[i]) && tree.reachable(roots, s[i])
    &&& forall|i: int| 0 <= i < s.len() - 1 ==> tree.edge(#[trigger] s[i], s[i + 1])
}

pub proof fn lemma_reach_step(tree: &SpecTree, roots: Seq<Seq<char>>, a: Seq<char>, b: Seq<char>)
    requires
        tree.reachable(roots, a),
        tree.edge(a, b),
    ensures
        tree.reachable(roots, b),
{
    let p = choose|p: Seq<Seq<char>>| #[trigger] tree.is_path(p) && roots.contains(p[0]) && p.last() == a;
    let q = p.push(b);
    assert forall|i: int| 0 <= i < q.len() - 1 implies tree.edge(#[trigger] q[i], q[i + 1]) by {
        if i < p.len() - 1 {
            assert(q[i] == p[i] && q[i + 1] == p[i + 1]);
        }
    }
    assert(tree.is_path(q) && q[0] == p[0] && q.last() == b);
}

pub proof fn lemma_root_reachable(tree: &SpecTree, roots: Seq<Seq<char>>, i: int)
    requires
        0 <= i < roots.len(),
    ensures
        tree.reachable(roots, roots[i]),
{
    let p = seq![roots[i]];
    assert(tree.is_path(p) && roots.contains(p[0]) && p.last() == roots[i]);
}

/// Closing a walk of open keys back onto one of them gives a cycle.
pub proof fn lemma_open_cycle(tree: &SpecTree, s: Seq<Seq<char>>, k: Seq<char>, i: int)
    requires
        0 <= i < s.len(),
        s[i] == k,
        forall|j: int| 0 <= j < s.len() - 1 ==> tree.edge(#[trigger] s[j], s[j + 1]),
        tree.edge(s.last(), k),
    ensures
        tree.on_cycle(k),
{
    let c = s.subrange(i, s.len() as int).push(k);
    assert forall|j: int| 0 <= j < c.len() - 1 implies tree.edge(#[trigger] c[j], c[j + 1]) by {
        if j < c.len() - 2 {
            assert(c[j] == s[i + j] && c[j + 1] == s[i + j + 1]);
        } else {
            assert(c[j] == s.last());
        }
    }
    assert(tree.is_path(c) && c.len() >= 2 && c[0] == k && c.last() == k);
}

/// A walk from a finished key ends at a key that finished earlier.
pub proof fn lemma_rank_descends(
    tree: &SpecTree,
    roots: Seq<Seq<char>>,
    v: Seq<Seq<char>>,
    p: Seq<Seq<char>>,
    i0: int,
)
    requires
        finished_in_order(tree, roots, v),
        tree.is_path(p),
        p.len() >= 2,
        0 <= i0 < v.len(),
        v[i0] == p[0],
    ensures
        exists|j: int| 0 <= j < i0 && v[j] == p.last(),
    decreases p.len(),
{
    if p.len() == 2 {
        assert(tree.edge(v[i0], p[1]));
    } else {
        let q = p.drop_last();
        assert forall|i: int| 0 <= i < q.len() - 1 implies tree.edge(#[trigger] q[i], q[i + 1]) by {
            assert(q[i] == p[i] && q[i + 1] == p[i + 1]);
        }
        lemma_rank_descends(tree, roots, v, q, i0);
        let j1 = choose|j: int| 0 <= j < i0 && v[j] == q.last();
        assert(tree.edge(p[p.len() - 2], p[p.len() - 1]));
        assert(tree.edge(v[j1], p.last()));
    }
}

/// No key that finished in order lies on a cycle.
pub proof fn lemma_finished_acyclic(
    tree: &SpecTree,
    roots: Seq<Seq<char>>,
    v: Seq<Seq<char>>,
    i0: int,
)
    requires
        finished_in_order(tree, roots, v),
        0 <= i0 < v.len(),
    ensures
        !tree.on_cycle(v[i0]),
    decreases i0,
{
    if tree.on_cycle(v[i0]) {
        let p = choose|p: Seq<Seq<char>>| #[trigger] tree.is_path(p) && p.len() >= 2 && p[0] == v[i0] && p.last() == v[i0];
        lemma_rank_descends(tree, roots, v, p, i0);
        let j = choose|j: int| 0 <= j < i0 && v[j] == p.last();
        lemma_finished_acyclic(tree, roots, v, j);
    }
}

/// A walk that starts in a set closed under edges stays in it.
pub proof fn lemma_walk_stays(tree: &SpecTree, v: Seq<Seq<char>>, p: Seq<Seq<char>>)
    requires
        tree.is_path(p),
        v.contains(p[0]),
        forall|a: Seq<char>, b: Seq<char>| v.contains(a) && #[trigger] tree.edge(a, b) ==> v.contains(b),
    ensures
        v.contains(p.last()),
    decreases p.len(),
{
    if p.len() > 1 {
        let q = p.drop_last();
        assert forall|i: int| 0 <= i < q.len() - 1 implies tree.edge(#[trigger] q[i], q[i + 1]) by {
            assert(q[i] == p[i] && q[i + 1] == p[i + 1]);
        }
        lemma_walk_stays(tree, v, q);
        assert(tree.edge(p[p.len() - 2], p[p.len() - 1]));
    }
}

pub proof fn lemma_prefix_contains<A>(a: Seq<A>, b: Seq<A>, x: A)
    requires
        a.is_prefix_of(b),
        a.contains(x),
    ensures
        b.contains(x),
{
    let t = choose|t: int| 0 <= t < a.len() && a[t] == x;
    assert(b[t] == a[t]);
}

pub(crate) fn position_of(v: &Vec<SourceKey>, k: &SourceKey) -> (r: Option<usize>)
    ensures
        match r {
            Some(i) => i < v@.len() && v@[i as int]@ == k@,
            None => !key_views(v@).contains(k@),
        },
{
    let mut i: usize = 0;
    while i < v.len()
        invariant
            i <= v@.len(),
            forall|j: int| 0 <= j < i ==> v@[j]@ != k@,
        decreases v@.len() - i,
    {
        if v[i].0 == k.0 {
            return Some(i);
        }
        i = i + 1;
    }
    proof {
        if key_views(v@).contains(k@) {
            let j = choose|j: int| 0 <= j < key_views(v@).len() && key_views(v@)[j] == k@;
            assert(v@[j]@ == k@);
        }
    }
    None
}

} // verus!

verus! {

/// How many times `x` occurs in `s`.
pub open spec fn count_of<A>(s: Seq<A>, x: A) -> nat
    decreases s.len(),
{
    if s.len() == 0 {
        0
    } else {
        count_of(s.drop_last(), x) + if s.last() == x {
            1nat
        } else {
            0nat
        }
    }
}

/// How many of the declarations name `b`.
pub open spec fn decl_count(decls: Seq<Seq<char>>, b: Seq<char>) -> nat
    decreases decls.len(),
{
    if decls.len() == 0 {
        0
    } else {
        decl_count(decls.drop_last(), b) + if target_of(decls.last()) == b {
            1nat
        } else {
            0nat
        }
    }
}

/// A finished key has one pair per declaration; a key neither finished nor
/// open has none.
pub open spec fn pair_counts(
    tree: &SpecTree,
    p: Seq<(Seq<char>, Seq<char>)>,
    v: Seq<Seq<char>>,
    s: Seq<Seq<char>>,
) -> bool {
    &&& forall|a: Seq<char>, b: Seq<char>|
        v.contains(a) ==> #[trigger] count_of(p, (a, b)) == decl_count(tree.decls(a), b)
    &&& forall|a: Seq<char>, b: Seq<char>| !v.contains(a) && !s.contains(a) ==> #[trigger] count_of(p, (a, b)) == 0
}

pub proof fn lemma_count_push<A>(s: Seq<A>, x: A, y: A)
    ensures
        count_of(s.push(x), y) == count_of(s, y) + if x == y {
            1nat
        } else {
            0nat
        },
{
    assert(s.push(x).drop_last() =~= s);
}

pub proof fn lemma_decl_count_step(d: Seq<Seq<char>>, i: int, b: Seq<char>)
    requires
        0 <= i < d.len(),
    ensures
        decl_count(d.subrange(0, i + 1), b) == decl_count(d.subrange(0, i), b) + if target_of(d[i]) == b {
            1nat
        } else {
            0nat
        },
{
    assert(d.subrange(0, i + 1).drop_last() =~= d.subrange(0, i));
}

/// Depth-first walk from `source_key`, recording each edge it passes.
/// `visited` holds the keys whose walk has finished, in finishing order;
/// `recursion_stack` the keys whose walk is open.
fn find_dependency_pairs_recursive(
    source_key: &SourceKey,
    spec_tree: &SpecTree,
    pairs: &mut Vec<(SourceKey, SourceKey)>,
    visited: &mut Vec<SourceKey>,
    recursion_stack: &mut Vec<SourceKey>,
    Ghost(roots): Ghost<Seq<Seq<char>>>,
) -> (r: Result<(), GraphError>)
    requires
        spec_tree.reachable(roots, source_key@),
        open_walk(spec_tree, roots, key_views(old(recursion_stack)@)),
        old(recursion_stack)@.len() > 0 ==> spec_tree.edge(
            key_views(old(recursion_stack)@).last(),
            source_key@,
        ),
        finished_in_order(spec_tree, roots, key_views(old(visited)@)),
        pairs_cover(
            spec_tree,
            pair_views(old(pairs)@),
            key_views(old(visited)@),
            key_views(old(recursion_stack)@),
        ),
        pair_counts(spec_tree, pair_views(old(pairs)@), key_views(old(visited)@), key_views(old(recursion_stack)@)),
    ensures
        match r {
            Ok(()) => {
                &&& final(recursion_stack)@ == old(recursion_stack)@
                &&& pair_counts(
                    spec_tree,
                    pair_views(final(pairs)@),
                    key_views(final(visited)@),
                    key_views(old(recursion_stack)@),
                )
                &&& forall|a: Seq<char>, b: Seq<char>|
                    #[trigger] count_of(pair_views(final(pairs)@), (a, b)) == if key_views(final(visited)@).contains(a)
                        && !key_views(old(visited)@).contains(a) {
                        decl_count(spec_tree.decls(a), b)
                    } else {
                        count_of(pair_views(old(pairs)@), (a, b))
                    }
                &&& key_views(old(visited)@).is_prefix_of(key_views(final(visited)@))
                &&& pair_views(old(pairs)@).is_prefix_of(pair_views(final(pairs)@))
                &&& key_views(final(visited)@).contains(source_key@)
                &&& forall|t: int|
                    old(visited)@.len() <= t < final(visited)@.len() ==> !key_views(
                        old(recursion_stack)@,
                    ).contains(#[trigger] key_views(final(visited)@)[t])
                &&& finished_in_order(spec_tree, roots, key_views(final(visited)@))
                &&& pairs_cover(
                    spec_tree,
                    pair_views(final(pairs)@),
                    key_views(final(visited)@),
                    key_views(old(recursion_stack)@),
                )
            },
            Err(GraphError::CyclicDependency(k)) => spec_tree.reachable(roots, k@) && spec_tree.on_cycle(k@),
            Err(GraphError::UnknownSource(k)) => spec_tree.reachable(roots, k@) && !spec_tree.has(k@),
            Err(GraphError::MissingSourceHash(_)) => false,
        },
    decreases spec_tree.entries@.len() - old(recursion_stack)@.len(),
{
    let ghost s0 = key_views(recursion_stack@);
    let ghost v0 = key_views(visited@);
    let ghost pairs0 = pair_views(pairs@);
    proof {
        assert(recursion_stack@.len() == s0.len());
    }
    if let Some(i) = position_of(recursion_stack, source_key) {
        proof {
            lemma_open_cycle(spec_tree, s0, source_key@, i as int);
        }
        return Err(GraphError::CyclicDependency(source_key.clone()));
    }
    if let Some(j) = position_of(visited, source_key) {
        proof {
            assert(v0[j as int] == source_key@);
            assert(v0.is_prefix_of(v0));
            assert(pairs0.is_prefix_of(pairs0));
        }
        return Ok(());
    }
    let source: &Source = match spec_tree.get(source_key) {
        Some(s) => s,
        None => {
            return Err(GraphError::UnknownSource(source_key.clone()));
        },
    };
    recursion_stack.push(source_key.clone());
    let ghost s1 = key_views(recursion_stack@);
    proof {
        assert(s1 =~= s0.push(source_key@));
        assert(s1.no_duplicates());
        lemma_distinct_keys_bounded(spec_tree, s1);
        assert(open_walk(spec_tree, roots, s1));
        assert(s1.contains(source_key@)) by {
            assert(s1[s1.len() - 1] == source_key@);
        }
        assert forall|t: int| 0 <= t < pairs0.len() implies (v0.contains(#[trigger] pairs0[t].0) || s1.contains(pairs0[t].0)) && spec_tree.edge(pairs0[t].0, pairs0[t].1) by {
            if s0.contains(pairs0[t].0) {
                let u = choose|u: int| 0 <= u < s0.len() && s0[u] == pairs0[t].0;
                assert(s1[u] == s0[u]);
            }
        }
        assert(pairs0.is_prefix_of(pairs0));
        assert(v0.is_prefix_of(v0));
    }
    let ghost decls = spec_tree.decls(source_key@);
    proof {
        assert forall|b: Seq<char>| #[trigger] count_of(pair_views(pairs@), (source_key@, b)) == decl_count(decls.subrange(0, 0), b) by {
            assert(decls.subrange(0, 0) =~= Seq::<Seq<char>>::empty());
        }
    }
    let mut i: usize = 0;
    while i < source.dependencies.len()
        invariant
            spec_tree.source(source_key@) == Some(*source),
            decls == source.decls(),
            spec_tree.has(source_key@),
            spec_tree.reachable(roots, source_key@),
            i <= source.dependencies@.len(),
            key_views(recursion_stack@) == s1,
            recursion_stack@.len() == s1.len(),
            recursion_stack@ == old(recursion_stack)@.push(*source_key),
            s0.len() == old(recursion_stack)@.len(),
            s1 == s0.push(source_key@),
            open_walk(spec_tree, roots, s1),
            s1.len() <= spec_tree.entries@.len(),
            s1.contains(source_key@),
            !s0.contains(source_key@),
            !key_views(visited@).contains(source_key@),
            v0.is_prefix_of(key_views(visited@)),
            pairs0.is_prefix_of(pair_views(pairs@)),
            forall|t: int|
                v0.len() <= t < visited@.len() ==> !s1.contains(#[trigger] key_views(visited@)[t]),
            finished_in_order(spec_tree, roots, key_views(visited@)),
            pairs_cover(spec_tree, pair_views(pairs@), key_views(visited@), s1),
            forall|j: int| 0 <= j < i ==> key_views(visited@).contains(target_of(#[trigger] decls[j])),
            forall|j: int|
                0 <= j < i ==> pair_views(pairs@).contains((source_key@, target_of(#[trigger] decls[j]))),
            pair_counts(spec_tree, pairs0, v0, s0),
            forall|b: Seq<char>| #[trigger] count_of(pair_views(pairs@), (source_key@, b)) == decl_count(decls.subrange(0, i as int), b),
            forall|a: Seq<char>, b: Seq<char>|
                a != source_key@ ==> #[trigger] count_of(pair_views(pairs@), (a, b)) == if key_views(visited@).contains(a)
                    && !v0.contains(a) {
                    decl_count(spec_tree.decls(a), b)
                } else {
                    count_of(pairs0, (a, b))
                },
        decreases source.dependencies@.len() - i,
    {
        let dependency = Dependency::parse(source.dependencies[i].as_str());
        let dep_key = SourceKey(dependency.key().to_owned());
        proof {
            assert(decls[i as int] == source.dependencies@[i as int]@);
            assert(dep_key@ == target_of(decls[i as int]));
            assert(target_of(spec_tree.decls(source_key@)[i as int]) == dep_key@);
            assert(spec_tree.edge(source_key@, dep_key@));
            lemma_reach_step(spec_tree, roots, source_key@, dep_key@);
        }
        let ghost p_before = pair_views(pairs@);
        pairs.push((source_key.clone(), dep_key.clone()));
        let ghost p_mid = pair_views(pairs@);
        proof {
            assert(p_mid =~= p_before.push((source_key@, dep_key@)));
            assert(p_before.is_prefix_of(p_mid));
            assert forall|j: int| 0 <= j < i implies p_mid.contains((source_key@, target_of(#[trigger] decls[j]))) by {
                lemma_prefix_contains(p_before, p_mid, (source_key@, target_of(decls[j])));
            }
            assert(p_mid[p_mid.len() - 1] == (source_key@, dep_key@));
            assert forall|a: Seq<char>, b: Seq<char>| key_views(visited@).contains(a) && #[trigger] spec_tree.edge(a, b) implies p_mid.contains((a, b)) by {
                lemma_prefix_contains(p_before, p_mid, (a, b));
            }
            assert forall|t: int| 0 <= t < p_mid.len() implies (key_views(visited@).contains(#[trigger] p_mid[t].0) || s1.contains(p_mid[t].0)) && spec_tree.edge(p_mid[t].0, p_mid[t].1) by {
                if t < p_before.len() {
                    assert(p_mid[t] == p_before[t]);
                }
            }
            assert(pairs0.is_prefix_of(p_mid)) by {
                assert forall|t: int| 0 <= t < pairs0.len() implies pairs0[t] == p_mid[t] by {
                    assert(pairs0[t] == p_before[t]);
                }
            }
            assert(s1.last() == source_key@);
            let vb = key_views(visited@);
            assert forall|b: Seq<char>| #[trigger] count_of(p_mid, (source_key@, b)) == decl_count(decls.subrange(0, i as int + 1), b) by {
                lemma_count_push(p_before, (source_key@, dep_key@), (source_key@, b));
                lemma_decl_count_step(decls, i as int, b);
            }
            assert forall|a: Seq<char>, b: Seq<char>| a != source_key@ implies #[trigger] count_of(p_mid, (a, b)) == if vb.contains(a) && !v0.contains(a) {
                decl_count(spec_tree.decls(a), b)
            } else {
                count_of(pairs0, (a, b))
            } by {
                lemma_count_push(p_before, (source_key@, dep_key@), (a, b));
            }
            assert forall|a: Seq<char>, b: Seq<char>| vb.contains(a) implies #[trigger] count_of(p_mid, (a, b)) == decl_count(spec_tree.decls(a), b) by {
                lemma_count_push(p_before, (source_key@, dep_key@), (a, b));
                assert(a != source_key@);
                assert(count_of(p_before, (a, b)) == count_of(pairs0, (a, b)) || !v0.contains(a));
            }
            assert forall|a: Seq<char>, b: Seq<char>| !vb.contains(a) && !s1.contains(a) implies #[trigger] count_of(p_mid, (a, b)) == 0 by {
                lemma_count_push(p_before, (source_key@, dep_key@), (a, b));
                assert(a != source_key@);
                if v0.contains(a) {
                    lemma_prefix_contains(v0, vb, a);
                }
                if s0.contains(a) {
                    let u = choose|u: int| 0 <= u < s0.len() && s0[u] == a;
                    assert(s1[u] == s0[u]);
                }
            }
            assert(pair_counts(spec_tree, p_mid, vb, s1));
        }
        let ghost v_before = key_views(visited@);
        match find_dependency_pairs_recursive(&dep_key, spec_tree, pairs, visited, recursion_stack, Ghost(roots)) {
            Ok(()) => {},
            Err(e) => {
                return Err(e);
            },
        }
        proof {
            let v1 = key_views(visited@);
            let pv = pair_views(pairs@);
            assert forall|j: int| 0 <= j <= i implies v1.contains(target_of(#[trigger] decls[j])) by {
                if j < i {
                    lemma_prefix_contains(v_before, v1, target_of(decls[j]));
                }
            }
            assert(v0.is_prefix_of(v1)) by {
                assert forall|t: int| 0 <= t < v0.len() implies v0[t] == v1[t] by {
                    assert(v0[t] == v_before[t]);
                }
            }
            assert(pairs0.is_prefix_of(pv)) by {
                assert forall|t: int| 0 <= t < pairs0.len() implies pairs0[t] == pv[t] by {
                    assert(pairs0[t] == p_mid[t]);
                }
            }
            assert forall|t: int| v0.len() <= t < visited@.len() implies !s1.contains(#[trigger] v1[t]) by {
                if t < v_before.len() {
                    assert(v1[t] == v_before[t]);
                }
            }
            if v1.contains(source_key@) {
                let t = choose|t: int| 0 <= t < v1.len() && v1[t] == source_key@;
                if t < v_before.len() {
                    assert(v_before[t] == v1[t]);
                } else {
                    assert(!s1.contains(v1[t]));
                }
            }
            assert forall|j: int| 0 <= j <= i implies pv.contains((source_key@, target_of(#[trigger] decls[j]))) by {
                lemma_prefix_contains(p_mid, pv, (source_key@, target_of(decls[j])));
            }
            assert(!v1.contains(source_key@));
            assert forall|b: Seq<char>| #[trigger] count_of(pv, (source_key@, b)) == decl_count(decls.subrange(0, i as int + 1), b) by {
                assert(count_of(pv, (source_key@, b)) == count_of(p_mid, (source_key@, b)));
            }
            assert forall|a: Seq<char>, b: Seq<char>| a != source_key@ implies #[trigger] count_of(pv, (a, b)) == if v1.contains(a) && !v0.contains(a) {
                decl_count(spec_tree.decls(a), b)
            } else {
                count_of(pairs0, (a, b))
            } by {
                assert(count_of(p_mid, (a, b)) == if v_before.contains(a) && !v0.contains(a) {
                    decl_count(spec_tree.decls(a), b)
                } else {
                    count_of(pairs0, (a, b))
                });
                if v0.contains(a) {
                    lemma_prefix_contains(v0, v_before, a);
                }
                if v_before.contains(a) {
                    lemma_prefix_contains(v_before, v1, a);
                }
            }
        }
        i = i + 1;
    }
    let ghost rs_before = recursion_stack@;
    recursion_stack.pop();
    proof {
        assert(recursion_stack@ =~= rs_before.drop_last());
        assert(recursion_stack@ =~= old(recursion_stack)@);
        assert forall|j: int| 0 <= j < s0.len() implies key_views(recursion_stack@)[j] == s0[j] by {
            assert(rs_before[j]@ == s1[j]);
        }
    }
    let ghost v_end = key_views(visited@);
    let ghost p_end = pair_views(pairs@);
    visited.push(source_key.clone());
    proof {
        let v1 = key_views(visited@);
        assert(key_views(recursion_stack@) =~= s0);
        assert(v1 =~= v_end.push(source_key@));
        assert(v1[v1.len() - 1] == source_key@);
        assert(v0.is_prefix_of(v1)) by {
            assert forall|t: int| 0 <= t < v0.len() implies v0[t] == v1[t] by {
                assert(v0[t] == v_end[t]);
            }
        }
        assert forall|t: int| 0 <= t < v1.len() implies spec_tree.has(#[trigger] v1[t]) && spec_tree.reachable(roots, v1[t]) by {
            if t < v_end.len() {
                assert(v1[t] == v_end[t]);
            }
        }
        assert forall|t: int, b: Seq<char>| 0 <= t < v1.len() && #[trigger] spec_tree.edge(v1[t], b) implies exists|j: int| 0 <= j < t && v1[j] == b by {
            if t < v_end.len() {
                assert(v1[t] == v_end[t]);
                let j = choose|j: int| 0 <= j < t && v_end[j] == b;
                assert(v1[j] == v_end[j]);
            } else {
                let d = choose|d: int| 0 <= d < decls.len() && target_of(#[trigger] decls[d]) == b;
                assert(v_end.contains(target_of(decls[d])));
                let j = choose|j: int| 0 <= j < v_end.len() && v_end[j] == b;
                assert(v1[j] == v_end[j]);
            }
        }
        assert forall|t: int| v0.len() <= t < visited@.len() implies !s0.contains(#[trigger] v1[t]) by {
            if t < v_end.len() {
                assert(v1[t] == v_end[t]);
                if s0.contains(v1[t]) {
                    let u = choose|u: int| 0 <= u < s0.len() && s0[u] == v1[t];
                    assert(s1[u] == s0[u]);
                }
            }
        }
        assert forall|t: int| 0 <= t < p_end.len() implies (v1.contains(#[trigger] p_end[t].0) || s0.contains(p_end[t].0)) && spec_tree.edge(p_end[t].0, p_end[t].1) by {
            let a = p_end[t].0;
            if v_end.contains(a) {
                lemma_prefix_contains(v_end, v1, a);
            } else {
                let u = choose|u: int| 0 <= u < s1.len() && s1[u] == a;
                if u < s0.len() {
                    assert(s0[u] == s1[u]);
                } else {
                    assert(v1[v1.len() - 1] == a);
                }
            }
        }
        assert(decls.subrange(0, decls.len() as int) =~= decls);
        assert forall|a: Seq<char>, b: Seq<char>| #[trigger] count_of(p_end, (a, b)) == if v1.contains(a) && !v0.contains(a) {
            decl_count(spec_tree.decls(a), b)
        } else {
            count_of(pairs0, (a, b))
        } by {
            if a == source_key@ {
                assert(v1.contains(a));
                assert(!v0.contains(a));
            } else {
                if v1.contains(a) {
                    let t = choose|t: int| 0 <= t < v1.len() && v1[t] == a;
                    assert(t < v_end.len());
                    assert(v_end[t] == a);
                }
                if v_end.contains(a) {
                    lemma_prefix_contains(v_end, v1, a);
                }
            }
        }
        assert forall|a: Seq<char>, b: Seq<char>| v1.contains(a) implies #[trigger] count_of(p_end, (a, b)) == decl_count(spec_tree.decls(a), b) by {
            if v0.contains(a) {
                assert(count_of(pairs0, (a, b)) == decl_count(spec_tree.decls(a), b));
            }
        }
        assert forall|a: Seq<char>, b: Seq<char>| !v1.contains(a) && !s0.contains(a) implies #[trigger] count_of(p_end, (a, b)) == 0 by {
            if v0.contains(a) {
                lemma_prefix_contains(v0, v1, a);
            }
            assert(count_of(pairs0, (a, b)) == 0);
        }
        assert forall|a: Seq<char>, b: Seq<char>| v1.contains(a) && #[trigger] spec_tree.edge(a, b) implies p_end.contains((a, b)) by {
            let t = choose|t: int| 0 <= t < v1.len() && v1[t] == a;
            if t < v_end.len() {
                assert(v_end[t] == v1[t]);
            } else {
                let d = choose|d: int| 0 <= d < decls.len() && target_of(#[trigger] decls[d]) == b;
                assert(p_end.contains((source_key@, target_of(decls[d]))));
            }
        }
    }
    Ok(())
}

/// What [`find_all_dependency_pairs`] promises of its result.
pub open spec fn pairs_result(
    tree: &SpecTree,
    roots: Seq<Seq<char>>,
    r: Result<Vec<(SourceKey, SourceKey)>, GraphError>,
) -> bool {
    match r {
        Ok(pairs) => {
            &&& !tree.cycle_reachable(roots)
            &&& tree.closed_from(roots)
            &&& forall|a: Seq<char>, b: Seq<char>|
                #[trigger] pair_views(pairs@).contains((a, b)) <==> tree.reachable(roots, a) && tree.edge(a, b)
            &&& forall|a: Seq<char>, b: Seq<char>|
                #[trigger] count_of(pair_views(pairs@), (a, b)) == if tree.reachable(roots, a) {
                    decl_count(tree.decls(a), b)
                } else {
                    0
                }
        },
        Err(GraphError::CyclicDependency(k)) => tree.reachable(roots, k@) && tree.on_cycle(k@),
        Err(GraphError::UnknownSource(k)) => tree.reachable(roots, k@) && !tree.has(k@),
        Err(GraphError::MissingSourceHash(_)) => false,
    }
}

/// The dependency edges `(parent, dependency)` reachable from `sources`, in
/// depth-first order; fails on a reachable cycle or an unknown key.
pub fn find_all_dependency_pairs(sources: &[SourceKey], spec_tree: &SpecTree) -> (r: Result<
    Vec<(SourceKey, SourceKey)>,
    GraphError,
>)
    ensures
        pairs_result(spec_tree, key_views(sources@), r),
{
    let ghost roots = key_views(sources@);
    let mut pairs: Vec<(SourceKey, SourceKey)> = Vec::new();
    let mut visited: Vec<SourceKey> = Vec::new();
    let mut recursion_stack: Vec<SourceKey> = Vec::new();
    proof {
        assert(key_views(visited@) =~= Seq::<Seq<char>>::empty());
        assert(key_views(recursion_stack@) =~= Seq::<Seq<char>>::empty());
        assert(pair_views(pairs@) =~= Seq::<(Seq<char>, Seq<char>)>::empty());
    }
    let mut i: usize = 0;
    while i < sources.len()
        invariant
            roots == key_views(sources@),
            i <= sources@.len(),
            recursion_stack@.len() == 0,
            finished_in_order(spec_tree, roots, key_views(visited@)),
            pairs_cover(spec_tree, pair_views(pairs@), key_views(visited@), key_views(recursion_stack@)),
            pair_counts(spec_tree, pair_views(pairs@), key_views(visited@), key_views(recursion_stack@)),
            forall|j: int| 0 <= j < i ==> key_views(visited@).contains(#[trigger] roots[j]),
        decreases sources@.len() - i,
    {
        proof {
            lemma_root_reachable(spec_tree, roots, i as int);
            assert(key_views(recursion_stack@) =~= Seq::<Seq<char>>::empty());
        }
        let ghost v_before = key_views(visited@);
        match find_dependency_pairs_recursive(
            &sources[i],
            spec_tree,
            &mut pairs,
            &mut visited,
            &mut recursion_stack,
            Ghost(roots),
        ) {
            Ok(()) => {},
            Err(e) => {
                return Err(e);
            },
        }
        proof {
            assert forall|j: int| 0 <= j <= i implies key_views(visited@).contains(#[trigger] roots[j]) by {
                if j < i {
                    lemma_prefix_contains(v_before, key_views(visited@), roots[j]);
                }
            }
        }
        i = i + 1;
    }
    proof {
        let v = key_views(visited@);
        let pv = pair_views(pairs@);
        assert forall|a: Seq<char>, b: Seq<char>| v.contains(a) && #[trigger] spec_tree.edge(a, b) implies v.contains(b) by {
            let t = choose|t: int| 0 <= t < v.len() && v[t] == a;
            let j = choose|j: int| 0 <= j < t && v[j] == b;
        }
        assert forall|k: Seq<char>| #[trigger] spec_tree.reachable(roots, k) implies v.contains(k) by {
            let p = choose|p: Seq<Seq<char>>| #[trigger] spec_tree.is_path(p) && roots.contains(p[0]) && p.last() == k;
            let j = choose|j: int| 0 <= j < roots.len() && roots[j] == p[0];
            lemma_walk_stays(spec_tree, v, p);
        }
        assert forall|k: Seq<char>| #[trigger] spec_tree.reachable(roots, k) implies spec_tree.has(k) by {
            let t = choose|t: int| 0 <= t < v.len() && v[t] == k;
        }
        if spec_tree.cycle_reachable(roots) {
            let k = choose|k: Seq<char>| #[trigger] spec_tree.reachable(roots, k) && spec_tree.on_cycle(k);
            let t = choose|t: int| 0 <= t < v.len() && v[t] == k;
            lemma_finished_acyclic(spec_tree, roots, v, t);
        }
        assert(key_views(recursion_stack@) =~= Seq::<Seq<char>>::empty());
        assert forall|a: Seq<char>, b: Seq<char>| #[trigger] count_of(pv, (a, b)) == if spec_tree.reachable(roots, a) {
            decl_count(spec_tree.decls(a), b)
        } else {
            0
        } by {
            if v.contains(a) {
                let t = choose|t: int| 0 <= t < v.len() && v[t] == a;
            }
        }
        assert forall|a: Seq<char>, b: Seq<char>| #[trigger] pv.contains((a, b)) <==> spec_tree.reachable(roots, a) && spec_tree.edge(a, b) by {
            if pv.contains((a, b)) {
                let t = choose|t: int| 0 <= t < pv.len() && pv[t] == (a, b);
                assert(v.contains(pv[t].0) || key_views(recursion_stack@).contains(pv[t].0));
                let u = choose|u: int| 0 <= u < v.len() && v[u] == a;
            }
        }
    }
    Ok(pairs)
}

/// Every key that a source declares names a source of the tree.
pub open spec fn references_resolve(tree: &SpecTree) -> bool {
    forall|a: Seq<char>, b: Seq<char>| #[trigger] tree.edge(a, b) ==> tree.has(b)
}

/// On a tree whose references resolve, walking from existing roots fails
/// exactly when a cycle can be reached from them.
pub proof fn law_pairs_fail_iff_cycle(
    tree: &SpecTree,
    roots: Seq<Seq<char>>,
    r: Result<Vec<(SourceKey, SourceKey)>, GraphError>,
)
    requires
        references_resolve(tree),
        forall|i: int| 0 <= i < roots.len() ==> tree.has(#[trigger] roots[i]),
        pairs_result(tree, roots, r),
    ensures
        r is Err <==> tree.cycle_reachable(roots),
{
    if let Err(GraphError::UnknownSource(k)) = r {
        let p = choose|p: Seq<Seq<char>>| #[trigger] tree.is_path(p) && roots.contains(p[0]) && p.last() == k@;
        if p.len() == 1 {
            let j = choose|j: int| 0 <= j < roots.len() && roots[j] == p[0];
        } else {
            assert(tree.edge(p[p.len() - 2], p[p.len() - 1]));
        }
    }
}

/// A walk that resolution follows from its root: the first edge may be
/// marked only-direct, every later one is unmarked.
pub open spec fn resolution_walk(tree: &SpecTree, p: Seq<Seq<char>>) -> bool {
    &&& p.len() >= 2
    &&& tree.edge(p[0], p[1])
    &&& forall|i: int| 1 <= i < p.len() - 1 ==> tree.regular_edge(#[trigger] p[i], p[i + 1])
}

/// `d` belongs to the dependency closure of `root`.
pub open spec fn in_resolution(tree: &SpecTree, root: Seq<char>, d: Seq<char>) -> bool {
    exists|p: Seq<Seq<char>>| #[trigger] resolution_walk(tree, p) && p[0] == root && p.last() == d
}

/// What [`resolve_dependencies`] promises of its result.
pub open spec fn resolution_result(tree: &SpecTree, root: Seq<char>, r: Result<Vec<SourceKey>, GraphError>) -> bool {
    match r {
        Ok(deps) => {
            &&& key_views(deps@).no_duplicates()
            &&& !key_views(deps@).contains(root)
            &&& forall|d: Seq<char>| #[trigger] key_views(deps@).contains(d) <==> d != root && in_resolution(tree, root, d)
            &&& tree.has(root)
            &&& forall|d: Seq<char>| #[trigger] in_resolution(tree, root, d) ==> tree.has(d)
        },
        Err(GraphError::UnknownSource(k)) => (k@ == root || in_resolution(tree, root, k@)) && !tree.has(k@),
        Err(_) => false,
    }
}

proof fn lemma_resolution_first(tree: &SpecTree, root: Seq<char>, b: Seq<char>)
    requires
        tree.edge(root, b),
    ensures
        in_resolution(tree, root, b),
{
    let p = seq![root, b];
    assert(resolution_walk(tree, p));
}

proof fn lemma_resolution_step(tree: &SpecTree, root: Seq<char>, a: Seq<char>, b: Seq<char>)
    requires
        in_resolution(tree, root, a),
        tree.regular_edge(a, b),
    ensures
        in_resolution(tree, root, b),
{
    let p = choose|p: Seq<Seq<char>>| #[trigger] resolution_walk(tree, p) && p[0] == root && p.last() == a;
    let q = p.push(b);
    assert forall|i: int| 1 <= i < q.len() - 1 implies tree.regular_edge(#[trigger] q[i], q[i + 1]) by {
        if i < p.len() - 1 {
            assert(q[i] == p[i] && q[i + 1] == p[i + 1]);
        }
    }
    assert(q[0] == p[0] && q[1] == p[1]);
    assert(resolution_walk(tree, q));
}

/// A resolution walk never leaves a set that holds every dependency of the
/// root and every unmarked dependency of its other members.
proof fn lemma_resolution_stays(tree: &SpecTree, root: Seq<char>, v: Seq<Seq<char>>, p: Seq<Seq<char>>)
    requires
        resolution_walk(tree, p),
        p[0] == root,
        forall|b: Seq<char>| #[trigger] tree.edge(root, b) ==> v.contains(b),
        forall|a: Seq<char>, b: Seq<char>| v.contains(a) && a != root && #[trigger] tree.regular_edge(a, b) ==> v.contains(b),
    ensures
        v.contains(p.last()),
    decreases p.len(),
{
    if p.len() > 2 {
        let q = p.drop_last();
        assert forall|i: int| 1 <= i < q.len() - 1 implies tree.regular_edge(#[trigger] q[i], q[i + 1]) by {
            assert(q[i] == p[i] && q[i + 1] == p[i + 1]);
        }
        lemma_resolution_stays(tree, root, v, q);
        let a = p[p.len() - 2];
        assert(tree.regular_edge(a, p.last()));
        if a == root {
            let d = choose|d: int| 0 <= d < tree.decls(a).len() && !crate::dependency::is_marked(#[trigger] tree.decls(a)[d]) && target_of(tree.decls(a)[d]) == p.last();
            assert(tree.edge(root, p.last()));
        }
    }
}

/// The sources that `key` depends on, transitively, without `key` itself.
/// A dependency marked `~` is followed only where `key` declares it.
pub fn resolve_dependencies(key: &SourceKey, spec_tree: &SpecTree) -> (r: Result<Vec<SourceKey>, GraphError>)
    ensures
        resolution_result(spec_tree, key@, r),
{
    let ghost root = key@;
    let root_source: &Source = match spec_tree.get(key) {
        Some(s) => s,
        None => {
            return Err(GraphError::UnknownSource(key.clone()));
        },
    };
    let mut resolved: Vec<SourceKey> = Vec::new();
    resolved.push(key.clone());
    let mut queue: Vec<SourceKey> = Vec::new();
    let ghost rdecls = spec_tree.decls(root);
    let mut i: usize = 0;
    while i < root_source.dependencies.len()
        invariant
            spec_tree.source(root) == Some(*root_source),
            rdecls == root_source.decls(),
            i <= root_source.dependencies@.len(),
            queue@.len() == i,
            forall|j: int| 0 <= j < i ==> #[trigger] key_views(queue@)[j] == target_of(rdecls[j]),
        decreases root_source.dependencies@.len() - i,
    {
        let dependency = Dependency::parse(root_source.dependencies[i].as_str());
        proof {
            assert(rdecls[i as int] == root_source.dependencies@[i as int]@);
        }
        let ghost qb = queue@;
        queue.push(SourceKey(dependency.key().to_owned()));
        proof {
            assert forall|j: int| 0 <= j < i + 1 implies #[trigger] key_views(queue@)[j] == target_of(rdecls[j]) by {
                if j < i {
                    assert(key_views(qb)[j] == target_of(rdecls[j]));
                    assert(queue@[j] == qb[j]);
                } else {
                    assert(rdecls[j] == root_source.dependencies@[j]@);
                    assert(dependency.parsed_from(root_source.dependencies@[i as int]@));
                    assert(queue@[j]@ == dependency.key_view());
                }
            }
        }
        i = i + 1;
    }
    proof {
        let rv = key_views(resolved@);
        let qv = key_views(queue@);
        assert(rv =~= seq![root]);
        assert forall|b: Seq<char>| #[trigger] spec_tree.edge(root, b) implies rv.contains(b) || qv.contains(b) by {
            let d = choose|d: int| 0 <= d < rdecls.len() && target_of(#[trigger] rdecls[d]) == b;
            assert(qv[d] == b);
        }
        assert forall|j: int| 0 <= j < qv.len() implies in_resolution(spec_tree, root, #[trigger] qv[j]) by {
            assert(target_of(spec_tree.decls(root)[j]) == qv[j]);
            lemma_resolution_first(spec_tree, root, qv[j]);
        }
        assert(rv[0] == root);
        assert(qv.subrange(0, qv.len() as int) =~= qv);
    }
    let mut head: usize = 0;
    while head < queue.len()
        invariant
            root == key@,
            head <= queue@.len(),
            resolved@.len() >= 1,
            key_views(resolved@)[0] == root,
            key_views(resolved@).no_duplicates(),
            spec_tree.has(root),
            forall|j: int| 0 <= j < resolved@.len() ==> spec_tree.has(#[trigger] key_views(resolved@)[j]),
            forall|j: int|
                1 <= j < resolved@.len() ==> in_resolution(spec_tree, root, #[trigger] key_views(resolved@)[j]),
            forall|j: int| 0 <= j < queue@.len() ==> in_resolution(spec_tree, root, #[trigger] key_views(queue@)[j]),
            forall|b: Seq<char>|
                #[trigger] spec_tree.edge(root, b) ==> key_views(resolved@).contains(b) || key_views(
                    queue@,
                ).subrange(head as int, queue@.len() as int).contains(b),
            forall|a: Seq<char>, b: Seq<char>|
                key_views(resolved@).contains(a) && a != root && #[trigger] spec_tree.regular_edge(a, b)
                    ==> key_views(resolved@).contains(b) || key_views(queue@).subrange(
                    head as int,
                    queue@.len() as int,
                ).contains(b),
        decreases spec_tree.entries@.len() - resolved@.len(), queue@.len() - head,
    {
        let ghost rv0 = key_views(resolved@);
        let ghost qv0 = key_views(queue@);
        let ghost h0 = head as int;
        proof {
            lemma_distinct_keys_bounded(spec_tree, rv0);
        }
        let next = queue[head].clone();
        head = head + 1;
        let ghost tail0 = qv0.subrange(h0, qv0.len() as int);
        let ghost tail1 = qv0.subrange(h0 + 1, qv0.len() as int);
        proof {
            assert forall|x: Seq<char>| tail0.contains(x) && x != next@ implies tail1.contains(x) by {
                let t = choose|t: int| 0 <= t < tail0.len() && tail0[t] == x;
                assert(t != 0);
                assert(tail1[t - 1] == x);
            }
            assert(tail0[0] == next@);
        }
        if let Some(pi) = position_of(&resolved, &next) {
            proof {
                assert(rv0[pi as int] == next@);
                assert(key_views(queue@).subrange(head as int, queue@.len() as int) =~= tail1);
                assert forall|b: Seq<char>| #[trigger] spec_tree.edge(root, b) implies rv0.contains(b) || tail1.contains(b) by {
                    if !rv0.contains(b) {
                        assert(tail0.contains(b));
                    }
                }
                assert forall|a: Seq<char>, b: Seq<char>| rv0.contains(a) && a != root && #[trigger] spec_tree.regular_edge(a, b) implies rv0.contains(b) || tail1.contains(b) by {
                    if !rv0.contains(b) {
                        assert(tail0.contains(b));
                    }
                }
            }
            continue;
        }
        let source: &Source = match spec_tree.get(&next) {
            Some(s) => s,
            None => {
                return Err(GraphError::UnknownSource(next));
            },
        };
        resolved.push(next.clone());
        let ghost rv1 = key_views(resolved@);
        proof {
            assert(rv1 =~= rv0.push(next@));
            assert(rv1.no_duplicates());
            assert forall|t: int| 0 <= t < rv1.len() implies spec_tree.has(#[trigger] rv1[t]) by {
                if t < rv0.len() {
                    assert(rv1[t] == rv0[t]);
                }
            }
            lemma_distinct_keys_bounded(spec_tree, rv1);
            assert forall|x: Seq<char>| rv0.contains(x) implies rv1.contains(x) by {
                lemma_prefix_contains(rv0, rv1, x);
            }
            assert(rv1[rv1.len() - 1] == next@);
            assert(next@ != root);
        }
        let ghost decls = spec_tree.decls(next@);
        let ghost q_start = queue@.len() as int;
        let mut j: usize = 0;
        while j < source.dependencies.len()
            invariant
                root == key@,
                spec_tree.source(next@) == Some(*source),
                decls == source.decls(),
                j <= source.dependencies@.len(),
                h0 + 1 == head as int,
                head <= q_start <= queue@.len(),
                qv0 == key_views(queue@).subrange(0, q_start),
                key_views(resolved@) == rv1,
                in_resolution(spec_tree, root, next@),
                forall|t: int| 0 <= t < queue@.len() ==> in_resolution(spec_tree, root, #[trigger] key_views(queue@)[t]),
                forall|b: Seq<char>|
                    #[trigger] spec_tree.regular_edge(next@, b) && (exists|d: int| 0 <= d < j && !crate::dependency::is_marked(decls[d]) && target_of(#[trigger] decls[d]) == b)
                        ==> key_views(queue@).subrange(q_start, queue@.len() as int).contains(b),
            decreases source.dependencies@.len() - j,
        {
            let dependency = Dependency::parse(source.dependencies[j].as_str());
            let ghost qb = key_views(queue@);
            proof {
                assert(decls[j as int] == source.dependencies@[j as int]@);
            }
            if !dependency.is_direct_only() {
                let dk = SourceKey(dependency.key().to_owned());
                proof {
                    assert(spec_tree.regular_edge(next@, dk@)) by {
                        assert(!crate::dependency::is_marked(spec_tree.decls(next@)[j as int]) && target_of(spec_tree.decls(next@)[j as int]) == dk@);
                    }
                    lemma_resolution_step(spec_tree, root, next@, dk@);
                }
                queue.push(dk);
                proof {
                    let qa = key_views(queue@);
                    assert(qa =~= qb.push(dk@));
                    assert(qa.subrange(0, q_start) =~= qb.subrange(0, q_start));
                    assert forall|b: Seq<char>|
                        #[trigger] spec_tree.regular_edge(next@, b) && (exists|d: int| 0 <= d < j + 1 && !crate::dependency::is_marked(decls[d]) && target_of(#[trigger] decls[d]) == b)
                        implies qa.subrange(q_start, qa.len() as int).contains(b) by {
                        let d = choose|d: int| 0 <= d < j + 1 && !crate::dependency::is_marked(decls[d]) && target_of(#[trigger] decls[d]) == b;
                        if d < j {
                            let t = choose|t: int| 0 <= t < qb.subrange(q_start, qb.len() as int).len() && qb.subrange(q_start, qb.len() as int)[t] == b;
                            assert(qa.subrange(q_start, qa.len() as int)[t] == b);
                        } else {
                            assert(qa.subrange(q_start, qa.len() as int)[qa.len() - 1 - q_start] == b);
                        }
                    }
                }
            } else {
                proof {
                    assert forall|b: Seq<char>|
                        #[trigger] spec_tree.regular_edge(next@, b) && (exists|d: int| 0 <= d < j + 1 && !crate::dependency::is_marked(decls[d]) && target_of(#[trigger] decls[d]) == b)
                        implies qb.subrange(q_start, qb.len() as int).contains(b) by {
                        let d = choose|d: int| 0 <= d < j + 1 && !crate::dependency::is_marked(decls[d]) && target_of(#[trigger] decls[d]) == b;
                        assert(d != j);
                    }
                }
            }
            j = j + 1;
        }
        proof {
            let qv = key_views(queue@);
            let tail = qv.subrange(head as int, qv.len() as int);
            assert forall|x: Seq<char>| tail1.contains(x) implies tail.contains(x) by {
                let t = choose|t: int| 0 <= t < tail1.len() && tail1[t] == x;
                assert(qv[h0 + 1 + t] == qv0[h0 + 1 + t]);
                assert(tail[t] == x);
            }
            assert forall|x: Seq<char>| qv.subrange(q_start, qv.len() as int).contains(x) implies tail.contains(x) by {
                let t = choose|t: int| 0 <= t < qv.len() - q_start && qv.subrange(q_start, qv.len() as int)[t] == x;
                assert(tail[q_start - head + t] == x);
            }
            assert forall|b: Seq<char>| #[trigger] spec_tree.edge(root, b) implies rv1.contains(b) || tail.contains(b) by {
                if !rv0.contains(b) {
                    assert(tail0.contains(b));
                    if b != next@ {
                        assert(tail1.contains(b));
                    }
                }
            }
            assert forall|a: Seq<char>, b: Seq<char>| rv1.contains(a) && a != root && #[trigger] spec_tree.regular_edge(a, b) implies rv1.contains(b) || tail.contains(b) by {
                if a == next@ {
                    let d = choose|d: int| 0 <= d < decls.len() && !crate::dependency::is_marked(#[trigger] decls[d]) && target_of(decls[d]) == b;
                    assert(qv.subrange(q_start, qv.len() as int).contains(b));
                } else {
                    let t = choose|t: int| 0 <= t < rv1.len() && rv1[t] == a;
                    assert(rv0[t] == a);
                    if !rv0.contains(b) {
                        assert(tail0.contains(b));
                        if b != next@ {
                            assert(tail1.contains(b));
                        }
                    }
                }
            }
            assert forall|t: int| 0 <= t < rv1.len() implies spec_tree.has(#[trigger] rv1[t]) by {
                if t < rv0.len() {
                    assert(rv1[t] == rv0[t]);
                }
            }
            assert forall|t: int| 1 <= t < rv1.len() implies in_resolution(spec_tree, root, #[trigger] rv1[t]) by {
                if t < rv0.len() {
                    assert(rv1[t] == rv0[t]);
                }
            }
            assert(rv1[0] == rv0[0]);
        }
    }
    let mut deps: Vec<SourceKey> = Vec::new();
    let mut k: usize = 1;
    while k < resolved.len()
        invariant
            1 <= k <= resolved@.len(),
            key_views(resolved@)[0] == key@,
            key_views(resolved@).no_duplicates(),
            key_views(deps@) == key_views(resolved@).subrange(1, k as int),
        decreases resolved@.len() - k,
    {
        let ghost db = deps@;
        deps.push(resolved[k].clone());
        proof {
            assert(deps@ == db.push(resolved@[k as int]));
            assert(key_views(deps@) =~= key_views(db).push(resolved@[k as int]@));
            assert(key_views(deps@) =~= key_views(resolved@).subrange(1, k as int + 1));
        }
        k = k + 1;
    }
    proof {
        let rv = key_views(resolved@);
        let dv = key_views(deps@);
        let qv = key_views(queue@);
        assert(qv.subrange(head as int, qv.len() as int) =~= Seq::<Seq<char>>::empty());
        assert forall|d: Seq<char>| #[trigger] in_resolution(spec_tree, root, d) implies rv.contains(d) by {
            let p = choose|p: Seq<Seq<char>>| #[trigger] resolution_walk(spec_tree, p) && p[0] == root && p.last() == d;
            lemma_resolution_stays(spec_tree, root, rv, p);
        }
        assert forall|d: Seq<char>| #[trigger] in_resolution(spec_tree, root, d) implies spec_tree.has(d) by {
            let t = choose|t: int| 0 <= t < rv.len() && rv[t] == d;
        }
        assert forall|d: Seq<char>| #[trigger] dv.contains(d) <==> d != root && in_resolution(spec_tree, root, d) by {
            if dv.contains(d) {
                let t = choose|t: int| 0 <= t < dv.len() && dv[t] == d;
                assert(rv[t + 1] == d);
            }
            if d != root && in_resolution(spec_tree, root, d) {
                let t = choose|t: int| 0 <= t < rv.len() && rv[t] == d;
                assert(t != 0);
                assert(dv[t - 1] == d);
            }
        }
        assert(!dv.contains(root));
    }
    Ok(deps)
}

} // verus!
