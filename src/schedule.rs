//! The scheduler's decisions: which sources take part, which to wait for,
//! which to publish, and what a dependency's completion signal means.

use vstd::prelude::*;
use crate::keys::SourceKey;
use crate::spec_tree::key_views;
use crate::graph::{position_of, pair_views};

verus! {

/// Some pair has `k` as its dependency.
pub open spec fn is_dependency(pairs: Seq<(Seq<char>, Seq<char>)>, k: Seq<char>) -> bool {
    exists|i: int| 0 <= i < pairs.len() && (#[trigger] pairs[i]).1 == k
}

/// Some pair mentions `k`.
pub open spec fn in_some_pair(pairs: Seq<(Seq<char>, Seq<char>)>, k: Seq<char>) -> bool {
    exists|i: int| 0 <= i < pairs.len() && ((#[trigger] pairs[i]).0 == k || pairs[i].1 == k)
}

/// Adds `k` unless it is there.
fn add_unique(v: &mut Vec<SourceKey>, k: &SourceKey)
    requires
        key_views(old(v)@).no_duplicates(),
    ensures
        key_views(final(v)@).no_duplicates(),
        forall|x: Seq<char>| #[trigger] key_views(final(v)@).contains(x) <==> key_views(old(v)@).contains(x) || x == k@,
{
    if position_of(v, k).is_none() {
        let ghost before = key_views(v@);
        v.push(k.clone());
        proof {
            assert(key_views(v@) =~= before.push(k@));
            assert forall|x: Seq<char>| #[trigger] key_views(v@).contains(x) <==> before.contains(x) || x == k@ by {
                if key_views(v@).contains(x) {
                    let t = choose|t: int| 0 <= t < key_views(v@).len() && key_views(v@)[t] == x;
                    if t < before.len() {
                        assert(before[t] == x);
                    }
                }
                if before.contains(x) {
                    let t = choose|t: int| 0 <= t < before.len() && before[t] == x;
                    assert(key_views(v@)[t] == x);
                }
                if x == k@ {
                    assert(key_views(v@)[before.len() as int] == x);
                }
            }
        }
    } else {
        proof {
            let j = choose|j: int| 0 <= j < v@.len() && v@[j]@ == k@;
            assert(key_views(v@)[j] == k@);
        }
    }
}

/// The roots and every source that a dependency pair mentions, each once.
pub fn collect_sources(roots: &[SourceKey], pairs: &Vec<(SourceKey, SourceKey)>) -> (r: Vec<SourceKey>)
    ensures
        key_views(r@).no_duplicates(),
        forall|k: Seq<char>|
            #[trigger] key_views(r@).contains(k) <==> key_views(roots@).contains(k) || in_some_pair(
                pair_views(pairs@),
                k,
            ),
{
    let mut all: Vec<SourceKey> = Vec::new();
    let mut i: usize = 0;
    while i < roots.len()
        invariant
            i <= roots@.len(),
            key_views(all@).no_duplicates(),
            forall|k: Seq<char>| #[trigger] key_views(all@).contains(k) <==> key_views(roots@.subrange(0, i as int)).contains(k),
        decreases roots@.len() - i,
    {
        add_unique(&mut all, &roots[i]);
        proof {
            let a = key_views(roots@.subrange(0, i as int + 1));
            let b = key_views(roots@.subrange(0, i as int));
            assert(a =~= b.push(roots@[i as int]@));
            assert forall|k: Seq<char>| #[trigger] a.contains(k) <==> b.contains(k) || k == roots@[i as int]@ by {
                if a.contains(k) {
                    let t = choose|t: int| 0 <= t < a.len() && a[t] == k;
                    if t < b.len() {
                        assert(b[t] == k);
                    }
                }
                if b.contains(k) {
                    let t = choose|t: int| 0 <= t < b.len() && b[t] == k;
                    assert(a[t] == k);
                }
                if k == roots@[i as int]@ {
                    assert(a[i as int] == k);
                }
            }
        }
        i = i + 1;
    }
    proof {
        assert(roots@.subrange(0, roots@.len() as int) =~= roots@);
    }
    let ghost pv = pair_views(pairs@);
    let mut j: usize = 0;
    while j < pairs.len()
        invariant
            j <= pairs@.len(),
            pv == pair_views(pairs@),
            key_views(all@).no_duplicates(),
            forall|k: Seq<char>|
                #[trigger] key_views(all@).contains(k) <==> key_views(roots@).contains(k) || in_some_pair(
                    pv.subrange(0, j as int),
                    k,
                ),
        decreases pairs@.len() - j,
    {
        add_unique(&mut all, &pairs[j].0);
        add_unique(&mut all, &pairs[j].1);
        proof {
            let a = pv.subrange(0, j as int + 1);
            let b = pv.subrange(0, j as int);
            assert forall|k: Seq<char>| in_some_pair(a, k) <==> in_some_pair(b, k) || k == pv[j as int].0 || k == pv[j as int].1 by {
                if in_some_pair(a, k) {
                    let t = choose|t: int| 0 <= t < a.len() && ((#[trigger] a[t]).0 == k || a[t].1 == k);
                    if t < b.len() {
                        assert(b[t] == a[t]);
                    }
                }
                if in_some_pair(b, k) {
                    let t = choose|t: int| 0 <= t < b.len() && ((#[trigger] b[t]).0 == k || b[t].1 == k);
                    assert(a[t] == b[t]);
                }
                if k == pv[j as int].0 || k == pv[j as int].1 {
                    assert(a[j as int] == pv[j as int]);
                }
            }
        }
        j = j + 1;
    }
    proof {
        assert(pv.subrange(0, pairs@.len() as int) =~= pv);
    }
    all
}

/// Whether some pair has `k` as its dependency.
fn has_dependent(pairs: &Vec<(SourceKey, SourceKey)>, k: &SourceKey) -> (r: bool)
    ensures
        r == is_dependency(pair_views(pairs@), k@),
{
    let mut i: usize = 0;
    while i < pairs.len()
        invariant
            i <= pairs@.len(),
            forall|j: int| 0 <= j < i ==> pairs@[j].1@ != k@,
        decreases pairs@.len() - i,
    {
        if pairs[i].1.same(k) {
            proof {
                assert(pair_views(pairs@)[i as int].1 == k@);
            }
            return true;
        }
        i = i + 1;
    }
    proof {
        if is_dependency(pair_views(pairs@), k@) {
            let j = choose|j: int| 0 <= j < pair_views(pairs@).len() && (#[trigger] pair_views(pairs@)[j]).1 == k@;
            assert(pairs@[j].1@ == k@);
        }
    }
    false
}

/// The sources that nothing depends on, in the order of `all`.
pub fn leaf_sources(all: &Vec<SourceKey>, pairs: &Vec<(SourceKey, SourceKey)>) -> (r: Vec<SourceKey>)
    ensures
        key_views(r@) == key_views(all@).filter(|k: Seq<char>| !is_dependency(pair_views(pairs@), k)),
{
    let ghost keep = |k: Seq<char>| !is_dependency(pair_views(pairs@), k);
    let mut leaves: Vec<SourceKey> = Vec::new();
    let mut i: usize = 0;
    proof {
        reveal(Seq::filter);
        assert(key_views(all@).subrange(0, 0).filter(keep) =~= Seq::<Seq<char>>::empty());
    }
    while i < all.len()
        invariant
            i <= all@.len(),
            keep == (|k: Seq<char>| !is_dependency(pair_views(pairs@), k)),
            key_views(leaves@) == key_views(all@).subrange(0, i as int).filter(keep),
        decreases all@.len() - i,
    {
        let ghost before = key_views(leaves@);
        let ghost s = key_views(all@).subrange(0, i as int + 1);
        proof {
            assert(s.drop_last() =~= key_views(all@).subrange(0, i as int));
            assert(s.last() == all@[i as int]@);
            reveal(Seq::filter);
        }
        if !has_dependent(pairs, &all[i]) {
            leaves.push(all[i].clone());
            proof {
                assert(key_views(leaves@) =~= before.push(all@[i as int]@));
            }
        }
        i = i + 1;
    }
    proof {
        assert(key_views(all@).subrange(0, all@.len() as int) =~= key_views(all@));
    }
    leaves
}

/// What the run waits for: the roots that are leaves, or, where no root is
/// a leaf, every leaf.
pub fn sources_to_wait_for(roots: &[SourceKey], leaves: &Vec<SourceKey>) -> (r: Vec<SourceKey>)
    ensures
        ({
            let picked = key_views(roots@).filter(|k: Seq<char>| key_views(leaves@).contains(k));
            if picked.len() > 0 {
                key_views(r@) == picked
            } else {
                key_views(r@) == key_views(leaves@)
            }
        }),
{
    let ghost keep = |k: Seq<char>| key_views(leaves@).contains(k);
    let mut picked: Vec<SourceKey> = Vec::new();
    let mut i: usize = 0;
    proof {
        reveal(Seq::filter);
        assert(key_views(roots@).subrange(0, 0).filter(keep) =~= Seq::<Seq<char>>::empty());
    }
    while i < roots.len()
        invariant
            i <= roots@.len(),
            keep == (|k: Seq<char>| key_views(leaves@).contains(k)),
            key_views(picked@) == key_views(roots@).subrange(0, i as int).filter(keep),
        decreases roots@.len() - i,
    {
        let ghost before = key_views(picked@);
        let ghost s = key_views(roots@).subrange(0, i as int + 1);
        proof {
            assert(s.drop_last() =~= key_views(roots@).subrange(0, i as int));
            assert(s.last() == roots@[i as int]@);
            reveal(Seq::filter);
        }
        if let Some(li) = position_of(leaves, &roots[i]) {
            proof {
                assert(key_views(leaves@)[li as int] == roots@[i as int]@);
            }
            picked.push(roots[i].clone());
            proof {
                assert(key_views(picked@) =~= before.push(roots@[i as int]@));
            }
        }
        i = i + 1;
    }
    proof {
        assert(key_views(roots@).subrange(0, roots@.len() as int) =~= key_views(roots@));
    }
    if picked.len() > 0 {
        picked
    } else {
        let mut all: Vec<SourceKey> = Vec::new();
        let mut j: usize = 0;
        while j < leaves.len()
            invariant
                j <= leaves@.len(),
                key_views(all@) == key_views(leaves@).subrange(0, j as int),
            decreases leaves@.len() - j,
        {
            let ghost before = key_views(all@);
            all.push(leaves[j].clone());
            proof {
                assert(key_views(all@) =~= before.push(leaves@[j as int]@));
                assert(key_views(leaves@).subrange(0, j as int + 1) =~= key_views(leaves@).subrange(0, j as int).push(leaves@[j as int]@));
            }
            j = j + 1;
        }
        proof {
            assert(key_views(leaves@).subrange(0, leaves@.len() as int) =~= key_views(leaves@));
        }
        all
    }
}

/// The sources whose builds are published: each root and each of its
/// resolved dependencies, once.
pub fn output_sources(roots: &[SourceKey], root_dependencies: &Vec<Vec<SourceKey>>) -> (r: Vec<SourceKey>)
    requires
        root_dependencies@.len() == roots@.len(),
    ensures
        key_views(r@).no_duplicates(),
        forall|k: Seq<char>|
            #[trigger] key_views(r@).contains(k) <==> exists|i: int|
                0 <= i < roots@.len() && (roots@[i]@ == k || key_views(root_dependencies@[i]@).contains(k)),
{
    let mut out: Vec<SourceKey> = Vec::new();
    let mut i: usize = 0;
    while i < roots.len()
        invariant
            i <= roots@.len(),
            root_dependencies@.len() == roots@.len(),
            key_views(out@).no_duplicates(),
            forall|k: Seq<char>|
                #[trigger] key_views(out@).contains(k) <==> exists|t: int|
                    0 <= t < i && (roots@[t]@ == k || key_views(root_dependencies@[t]@).contains(k)),
        decreases roots@.len() - i,
    {
        let ghost o0 = key_views(out@);
        add_unique(&mut out, &roots[i]);
        let deps = &root_dependencies[i];
        let mut j: usize = 0;
        while j < deps.len()
            invariant
                j <= deps@.len(),
                deps == &root_dependencies@[i as int],
                key_views(out@).no_duplicates(),
                forall|k: Seq<char>|
                    #[trigger] key_views(out@).contains(k) <==> o0.contains(k) || k == roots@[i as int]@
                        || key_views(deps@.subrange(0, j as int)).contains(k),
            decreases deps@.len() - j,
        {
            add_unique(&mut out, &deps[j]);
            proof {
                let a = key_views(deps@.subrange(0, j as int + 1));
                let b = key_views(deps@.subrange(0, j as int));
                assert(a =~= b.push(deps@[j as int]@));
                assert forall|k: Seq<char>| #[trigger] a.contains(k) <==> b.contains(k) || k == deps@[j as int]@ by {
                    if a.contains(k) {
                        let t = choose|t: int| 0 <= t < a.len() && a[t] == k;
                        if t < b.len() {
                            assert(b[t] == k);
                        }
                    }
                    if b.contains(k) {
                        let t = choose|t: int| 0 <= t < b.len() && b[t] == k;
                        assert(a[t] == k);
                    }
                    if k == deps@[j as int]@ {
                        assert(a[j as int] == k);
                    }
                }
            }
            j = j + 1;
        }
        proof {
            assert(deps@.subrange(0, deps@.len() as int) =~= deps@);
            assert forall|k: Seq<char>|
                #[trigger] key_views(out@).contains(k) <==> exists|t: int|
                    0 <= t < i + 1 && (roots@[t]@ == k || key_views(root_dependencies@[t]@).contains(k)) by {
                if key_views(out@).contains(k) {
                    if !o0.contains(k) {
                        assert(roots@[i as int]@ == k || key_views(root_dependencies@[i as int]@).contains(k));
                    }
                }
                if exists|t: int| 0 <= t < i + 1 && (roots@[t]@ == k || key_views(root_dependencies@[t]@).contains(k)) {
                    let t = choose|t: int| 0 <= t < i + 1 && (roots@[t]@ == k || key_views(root_dependencies@[t]@).contains(k));
                    if t < i {
                        assert(o0.contains(k));
                    }
                }
            }
        }
        i = i + 1;
    }
    out
}

/// A dependency's completion signal lets its dependent go on only when it
/// reports success; a failure or a closed channel stops it.
pub fn dependency_ready(signal: Option<bool>) -> (r: bool)
    ensures
        r == (signal == Some(true)),
{
    matches!(signal, Some(true))
}

} // verus!

verus! {

/// Whether `pattern` matches somewhere in `text`, or `None` where `pattern`
/// cannot be compiled (it is invalid, or too large).
pub uninterp spec fn pattern_match(pattern: Seq<char>, text: Seq<char>) -> Option<bool>;

/// Relies on `regex::Regex::new`, which fails on an invalid pattern and on one
/// whose compiled form exceeds the default size limit, and `Regex::is_match`;
/// both depend on the pattern and the text alone.
#[verifier::external_body]
fn regex_matches(pattern: &str, text: &str) -> (r: Option<bool>)
    ensures
        r == pattern_match(pattern@, text@),
{
    regex::Regex::new(pattern).ok().map(|re| re.is_match(text))
}

/// Whether a source is taken as built on the remote service without
/// building it: only the remote back-end does so, for keys that match the
/// configured pattern. `None` where the pattern is invalid.
pub fn assumed_built(backend: crate::backend::BuilderBackend, pattern: Option<&str>, key: &SourceKey) -> (r: Option<bool>)
    ensures
        r == match pattern {
            Some(p) => if backend == crate::backend::BuilderBackend::Copr {
                pattern_match(p@, key@)
            } else {
                Some(false)
            },
            None => Some(false),
        },
{
    match pattern {
        Some(p) => {
            if backend.is_remote() {
                regex_matches(p, key.as_str())
            } else {
                Some(false)
            }
        },
        None => Some(false),
    }
}

} // verus!
