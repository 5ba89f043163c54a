//! The specification model: sources, their declared dependencies, and the
//! dependency graph that they induce.

use vstd::prelude::*;
use crate::keys::SourceKey;
use crate::dependency::{is_marked, target_of};

verus! {

/// Where a source's packaging comes from.
#[derive(Debug, Clone)]
pub enum SourceType {
    Git {
        url: Option<String>,
        path: Option<String>,
        subpath: Option<String>,
        revision: Option<String>,
    },
    /// Reserved: declared in the model, not built.
    Srpm { path: String },
}

/// One named unit of the specification.
#[derive(Debug, Clone)]
pub struct Source {
    pub typ: SourceType,
    /// Declared dependencies, each a key optionally prefixed by `~`.
    pub dependencies: Vec<SourceKey>,
    /// Extra arguments for SRPM generation and the back-end.
    pub params: Vec<String>,
    /// Whether the container build may reach the network.
    pub network: bool,
}

impl Source {
    /// The declared dependency strings.
    pub open spec fn decls(&self) -> Seq<Seq<char>> {
        self.dependencies@.map_values(|d: SourceKey| d@)
    }

    /// The parameters as character sequences.
    pub open spec fn params_view(&self) -> Seq<Seq<char>> {
        self.params@.map_values(|p: String| p@)
    }
}

pub struct SpecEntry {
    pub key: SourceKey,
    pub source: Source,
}

/// The source recorded under `k`; a later entry overrides an earlier one.
pub open spec fn lookup(s: Seq<SpecEntry>, k: Seq<char>) -> Option<Source>
    decreases s.len(),
{
    if s.len() == 0 {
        None
    } else if s.last().key@ == k {
        Some(s.last().source)
    } else {
        lookup(s.drop_last(), k)
    }
}

/// A mapping from source keys to sources.
pub struct SpecTree {
    pub entries: Vec<SpecEntry>,
}

impl SpecTree {
    pub open spec fn source(&self, k: Seq<char>) -> Option<Source> {
        lookup(self.entries@, k)
    }

    pub open spec fn has(&self, k: Seq<char>) -> bool {
        self.source(k) is Some
    }

    /// The declared dependency strings of `k`.
    pub open spec fn decls(&self, k: Seq<char>) -> Seq<Seq<char>> {
        self.source(k).unwrap().decls()
    }

    /// `a` declares a dependency on `b`, marked or not.
    pub open spec fn edge(&self, a: Seq<char>, b: Seq<char>) -> bool {
        &&& self.has(a)
        &&& exists|i: int| 0 <= i < self.decls(a).len() && target_of(#[trigger] self.decls(a)[i]) == b
    }

    /// `a` declares an unmarked dependency on `b`.
    pub open spec fn regular_edge(&self, a: Seq<char>, b: Seq<char>) -> bool {
        &&& self.has(a)
        &&& exists|i: int|
            0 <= i < self.decls(a).len() && !is_marked(#[trigger] self.decls(a)[i]) && target_of(
                self.decls(a)[i],
            ) == b
    }

    /// A walk along dependency edges.
    pub open spec fn is_path(&self, p: Seq<Seq<char>>) -> bool {
        &&& p.len() >= 1
        &&& forall|i: int| 0 <= i < p.len() - 1 ==> self.edge(#[trigger] p[i], p[i + 1])
    }

    /// `k` can be reached from one of `roots` along dependency edges.
    pub open spec fn reachable(&self, roots: Seq<Seq<char>>, k: Seq<char>) -> bool {
        exists|p: Seq<Seq<char>>| #[trigger] self.is_path(p) && roots.contains(p[0]) && p.last() == k
    }

    /// `k` lies on a cycle of dependency edges.
    pub open spec fn on_cycle(&self, k: Seq<char>) -> bool {
        exists|p: Seq<Seq<char>>| #[trigger] self.is_path(p) && p.len() >= 2 && p[0] == k && p.last() == k
    }

    /// Some cycle can be reached from `roots`.
    pub open spec fn cycle_reachable(&self, roots: Seq<Seq<char>>) -> bool {
        exists|k: Seq<char>| #[trigger] self.reachable(roots, k) && self.on_cycle(k)
    }

    /// Every key reachable from `roots` names a source of the tree.
    pub open spec fn closed_from(&self, roots: Seq<Seq<char>>) -> bool {
        forall|k: Seq<char>| #[trigger] self.reachable(roots, k) ==> self.has(k)
    }

    pub fn new() -> (r: Self)
        ensures
            forall|k: Seq<char>| !r.has(k),
    {
        SpecTree { entries: Vec::new() }
    }

    /// Records `source` under `key`, replacing what was there.
    pub fn insert(&mut self, key: SourceKey, source: Source)
        ensures
            final(self).source(key@) == Some(source),
            forall|k: Seq<char>| k != key@ ==> final(self).source(k) == old(self).source(k),
    {
        let ghost k0 = key@;
        self.entries.push(SpecEntry { key, source });
        proof {
            assert(self.entries@.drop_last() =~= old(self).entries@);
        }
    }

    pub fn get(&self, key: &SourceKey) -> (r: Option<&Source>)
        ensures
            match r {
                Some(s) => self.source(key@) == Some(*s),
                None => self.source(key@) is None,
            },
    {
        let mut i: usize = self.entries.len();
        proof {
            assert(self.entries@.subrange(0, i as int) =~= self.entries@);
        }
        while i > 0
            invariant
                i <= self.entries@.len(),
                lookup(self.entries@, key@) == lookup(self.entries@.subrange(0, i as int), key@),
            decreases i,
        {
            let ghost pre = self.entries@.subrange(0, i as int);
            i = i - 1;
            proof {
                assert(pre.drop_last() =~= self.entries@.subrange(0, i as int));
            }
            if self.entries[i].key.0 == key.0 {
                return Some(&self.entries[i].source);
            }
        }
        proof {
            assert(self.entries@.subrange(0, 0) =~= Seq::<SpecEntry>::empty());
        }
        None
    }

    pub fn contains_key(&self, key: &SourceKey) -> (r: bool)
        ensures
            r == self.has(key@),
    {
        self.get(key).is_some()
    }
}

} // verus!

verus! {

/// The keys of a sequence of source keys, as character sequences.
pub open spec fn key_views(v: Seq<SourceKey>) -> Seq<Seq<char>> {
    v.map_values(|k: SourceKey| k@)
}

pub open spec fn entry_keys(s: Seq<SpecEntry>) -> Seq<Seq<char>> {
    s.map_values(|e: SpecEntry| e.key@)
}

pub proof fn lemma_lookup_in_keys(s: Seq<SpecEntry>, k: Seq<char>)
    requires
        lookup(s, k) is Some,
    ensures
        entry_keys(s).contains(k),
    decreases s.len(),
{
    if s.last().key@ == k {
        assert(entry_keys(s)[s.len() - 1] == k);
    } else {
        lemma_lookup_in_keys(s.drop_last(), k);
        let j = choose|j: int| 0 <= j < entry_keys(s.drop_last()).len() && entry_keys(s.drop_last())[j] == k;
        assert(entry_keys(s)[j] == k);
    }
}

/// Distinct keys of the tree are no more than its entries.
pub proof fn lemma_distinct_keys_bounded(tree: &SpecTree, s: Seq<Seq<char>>)
    requires
        s.no_duplicates(),
        forall|i: int| 0 <= i < s.len() ==> tree.has(#[trigger] s[i]),
    ensures
        s.len() <= tree.entries@.len(),
{
    let ks = entry_keys(tree.entries@);
    assert forall|x: Seq<char>| s.to_set().contains(x) implies ks.to_set().contains(x) by {
        let i = choose|i: int| 0 <= i < s.len() && s[i] == x;
        lemma_lookup_in_keys(tree.entries@, s[i]);
    }
    s.unique_seq_to_set();
    ks.lemma_cardinality_of_set();
    vstd::set_lib::lemma_len_subset(s.to_set(), ks.to_set());
}

} // verus!
