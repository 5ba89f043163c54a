//! Build identities: the hash of a source's key, content hash, dependencies'
//! build hashes and parameters.

use vstd::prelude::*;
use crate::keys::{SourceKey, SourceHash, BuildHash};
use crate::spec_tree::{Source, SpecTree, key_views, lemma_distinct_keys_bounded};
use crate::graph::{GraphError, finished_in_order, lemma_finished_acyclic, lemma_walk_stays, open_walk, position_of, lemma_open_cycle, lemma_reach_step, lemma_root_reachable};
use crate::dependency::{Dependency, target_of, is_marked};
use crate::encoding::{quoted, bracketed, append_quoted, append_bracketed, lemma_quoted_prefix, lemma_bracketed_prefix};
use crate::order::{key_lt, key_less, lemma_key_lt_irreflexive, lemma_key_lt_transitive, lemma_key_lt_total, lemma_key_lt_asymmetric};

verus! {

/// The SHA-256 digest of a text's UTF-8 bytes, in lower-case hex.
pub uninterp spec fn sha256_hex(text: Seq<char>) -> Seq<char>;

/// Relies on sha2's `Sha256::digest`: the digest of the bytes, 32 bytes,
/// written as 64 lower-case hex digits by its `LowerHex` impl.
#[verifier::external_body]
pub(crate) fn sha256_hex_of(text: &str) -> (r: String)
    ensures
        r@ == sha256_hex(text@),
        r@.len() == 64,
{
    format!("{:x}", <sha2::Sha256 as sha2::Digest>::digest(text.as_bytes()))
}

/// The build hash recorded for each key; a later pair overrides an earlier one.
pub open spec fn hash_map(v: Seq<(SourceKey, BuildHash)>) -> Map<Seq<char>, Seq<char>>
    decreases v.len(),
{
    if v.len() == 0 {
        Map::empty()
    } else {
        hash_map(v.drop_last()).insert(v.last().0@, v.last().1@)
    }
}

/// The `(key, build hash)` pairs of the declared dependencies that `m` has a
/// hash for. Only the key of a declaration counts, not its marker.
pub open spec fn dep_entries(decls: Seq<Seq<char>>, m: Map<Seq<char>, Seq<char>>) -> Set<(Seq<char>, Seq<char>)> {
    Set::new(
        |e: (Seq<char>, Seq<char>)|
            exists|i: int|
                0 <= i < decls.len() && target_of(#[trigger] decls[i]) == e.0 && m.contains_key(e.0) && m[e.0]
                    == e.1,
    )
}

/// Pairs in strictly increasing order of key.
pub open spec fn sorted_by_key(s: Seq<(Seq<char>, Seq<char>)>) -> bool {
    forall|i: int, j: int| 0 <= i < j < s.len() ==> key_lt(#[trigger] s[i].0, #[trigger] s[j].0)
}

/// The pairs of `es` in increasing order of key.
pub open spec fn sorted_entries(es: Set<(Seq<char>, Seq<char>)>) -> Seq<(Seq<char>, Seq<char>)> {
    choose|s: Seq<(Seq<char>, Seq<char>)>| sorted_by_key(s) && s.to_set() == es
}

/// `k1, h1, k2, h2, ...`
pub open spec fn flat_entries(s: Seq<(Seq<char>, Seq<char>)>) -> Seq<Seq<char>>
    decreases s.len(),
{
    if s.len() == 0 {
        Seq::empty()
    } else {
        flat_entries(s.drop_last()) + seq![s.last().0, s.last().1]
    }
}

/// The text that a build hash is the digest of: the quoted key and content
/// hash, then the sorted dependency pairs, then the parameters in order.
/// This canonical form is this library's own, chosen so that every part can
/// be read back; it is not a debug rendering of in-memory values, so hashes
/// (and build directories) made by tools that hash such a rendering are not
/// reused.
pub open spec fn hash_text(
    key: Seq<char>,
    shash: Seq<char>,
    decls: Seq<Seq<char>>,
    m: Map<Seq<char>, Seq<char>>,
    params: Seq<Seq<char>>,
) -> Seq<char> {
    quoted(key) + quoted(shash) + bracketed(flat_entries(sorted_entries(dep_entries(decls, m)))) + bracketed(
        params,
    )
}

pub open spec fn build_hash_of(
    key: Seq<char>,
    shash: Seq<char>,
    decls: Seq<Seq<char>>,
    m: Map<Seq<char>, Seq<char>>,
    params: Seq<Seq<char>>,
) -> Seq<char> {
    sha256_hex(hash_text(key, shash, decls, m, params))
}

pub open spec fn entry_views(v: Seq<(String, String)>) -> Seq<(Seq<char>, Seq<char>)> {
    v.map_values(|p: (String, String)| (p.0@, p.1@))
}

/// Two sorted sequences of the same pairs are the same sequence.
pub proof fn lemma_sorted_unique(a: Seq<(Seq<char>, Seq<char>)>, b: Seq<(Seq<char>, Seq<char>)>)
    requires
        sorted_by_key(a),
        sorted_by_key(b),
        a.to_set() == b.to_set(),
    ensures
        a == b,
    decreases a.len(),
{
    if a.len() == 0 {
        if b.len() > 0 {
            assert(b.to_set().contains(b[0]));
        }
        assert(a =~= b);
    } else {
        assert(a.to_set().contains(a[0]));
        assert(b.len() > 0);
        assert(b.to_set().contains(b[0]));
        let j = choose|j: int| 0 <= j < b.len() && b[j] == a[0];
        let i = choose|i: int| 0 <= i < a.len() && a[i] == b[0];
        if j > 0 {
            assert(key_lt(b[0].0, b[j].0));
            if i > 0 {
                assert(key_lt(a[0].0, a[i].0));
                lemma_key_lt_asymmetric(a[0].0, b[0].0);
            } else {
                lemma_key_lt_irreflexive(b[0].0);
            }
        }
        assert(a[0] == b[0]);
        let a1 = a.drop_first();
        let b1 = b.drop_first();
        assert forall|x: (Seq<char>, Seq<char>)| a1.to_set().contains(x) <==> b1.to_set().contains(x) by {
            if a1.to_set().contains(x) {
                let t = choose|t: int| 0 <= t < a1.len() && a1[t] == x;
                assert(a.to_set().contains(a[t + 1]));
                assert(key_lt(a[0].0, a[t + 1].0));
                let u = choose|u: int| 0 <= u < b.len() && b[u] == x;
                if u == 0 {
                    lemma_key_lt_irreflexive(a[0].0);
                }
                assert(b1[u - 1] == x);
            }
            if b1.to_set().contains(x) {
                let t = choose|t: int| 0 <= t < b1.len() && b1[t] == x;
                assert(b.to_set().contains(b[t + 1]));
                assert(key_lt(b[0].0, b[t + 1].0));
                let u = choose|u: int| 0 <= u < a.len() && a[u] == x;
                if u == 0 {
                    lemma_key_lt_irreflexive(b[0].0);
                }
                assert(a1[u - 1] == x);
            }
        }
        assert(a1.to_set() =~= b1.to_set());
        lemma_sorted_unique(a1, b1);
        assert(a =~= seq![a[0]] + a1);
        assert(b =~= seq![b[0]] + b1);
    }
}

/// The pairs of a list recorded from left to right: finds `k`'s hash.
fn find_hash<'a>(v: &'a Vec<(SourceKey, BuildHash)>, k: &String) -> (r: Option<&'a BuildHash>)
    ensures
        match r {
            Some(h) => hash_map(v@).contains_key(k@) && hash_map(v@)[k@] == h@,
            None => !hash_map(v@).contains_key(k@),
        },
{
    let mut i: usize = v.len();
    proof {
        assert(v@.subrange(0, i as int) =~= v@);
    }
    while i > 0
        invariant
            i <= v@.len(),
            hash_map(v@).contains_key(k@) == hash_map(v@.subrange(0, i as int)).contains_key(k@),
            hash_map(v@).contains_key(k@) ==> hash_map(v@)[k@] == hash_map(v@.subrange(0, i as int))[k@],
        decreases i,
    {
        let ghost pre = v@.subrange(0, i as int);
        i = i - 1;
        proof {
            assert(pre.drop_last() =~= v@.subrange(0, i as int));
        }
        if v[i].0.0 == *k {
            return Some(&v[i].1);
        }
    }
    proof {
        assert(v@.subrange(0, 0) =~= Seq::<(SourceKey, BuildHash)>::empty());
    }
    None
}

/// Adds `(k, h)` to a list sorted by key, unless `k` is there already.
fn insert_sorted(v: &mut Vec<(String, String)>, k: String, h: String)
    requires
        sorted_by_key(entry_views(old(v)@)),
        forall|i: int| 0 <= i < old(v)@.len() && (#[trigger] entry_views(old(v)@)[i]).0 == k@ ==> entry_views(old(v)@)[i].1 == h@,
    ensures
        sorted_by_key(entry_views(final(v)@)),
        entry_views(final(v)@).to_set() == entry_views(old(v)@).to_set().insert((k@, h@)),
{
    let ghost s = entry_views(v@);
    let mut p: usize = 0;
    while p < v.len() && key_less(v[p].0.as_str(), k.as_str())
        invariant
            s == entry_views(v@),
            p <= v@.len(),
            forall|i: int| 0 <= i < p ==> key_lt(#[trigger] s[i].0, k@),
        decreases v@.len() - p,
    {
        p = p + 1;
    }
    if p < v.len() && v[p].0 == k {
        proof {
            assert(s[p as int].0 == k@);
            assert(s.to_set().contains(s[p as int]));
            assert(s.to_set().insert((k@, h@)) =~= s.to_set());
        }
        return;
    }
    v.insert(p, (k, h));
    proof {
        let t = entry_views(v@);
        assert(t =~= s.insert(p as int, (k@, h@)));
        if p < s.len() {
            assert(!key_lt(s[p as int].0, k@));
            assert(s[p as int].0 != k@);
            lemma_key_lt_total(s[p as int].0, k@);
        }
        assert forall|i: int, j: int| 0 <= i < j < t.len() implies key_lt(#[trigger] t[i].0, #[trigger] t[j].0) by {
            if j < p {
            } else if j == p {
            } else if i < p {
                assert(t[j] == s[j - 1]);
                if j - 1 > p {
                    assert(key_lt(s[p as int].0, s[j - 1].0));
                    lemma_key_lt_transitive(k@, s[p as int].0, s[j - 1].0);
                }
                lemma_key_lt_transitive(t[i].0, k@, t[j].0);
            } else if i == p {
                assert(t[j] == s[j - 1]);
                if j - 1 > p {
                    assert(key_lt(s[p as int].0, s[j - 1].0));
                    lemma_key_lt_transitive(k@, s[p as int].0, s[j - 1].0);
                }
            } else {
                assert(t[i] == s[i - 1] && t[j] == s[j - 1]);
            }
        }
        assert forall|x: (Seq<char>, Seq<char>)| t.to_set().contains(x) <==> s.to_set().insert((k@, h@)).contains(x) by {
            if t.to_set().contains(x) {
                let u = choose|u: int| 0 <= u < t.len() && t[u] == x;
                if u < p {
                    assert(s[u] == x);
                } else if u > p {
                    assert(s[u - 1] == x);
                }
            }
            if s.to_set().contains(x) {
                let u = choose|u: int| 0 <= u < s.len() && s[u] == x;
                if u < p {
                    assert(t[u] == x);
                } else {
                    assert(t[u + 1] == x);
                }
            }
            if x == (k@, h@) {
                assert(t[p as int] == x);
            }
        }
        assert(t.to_set() =~= s.to_set().insert((k@, h@)));
    }
}

/// The build hash of `key`: the digest of its key, its content hash, the
/// sorted `(key, build hash)` pairs of its dependencies that
/// `dependency_hashes` holds, and its parameters in order.
pub fn calculate_build_hash(
    key: &SourceKey,
    source: &Source,
    source_content_hash: &SourceHash,
    dependency_hashes: &Vec<(SourceKey, BuildHash)>,
) -> (r: BuildHash)
    ensures
        r@ == build_hash_of(
            key@,
            source_content_hash@,
            source.decls(),
            hash_map(dependency_hashes@),
            source.params_view(),
        ),
{
    let ghost decls = source.decls();
    let ghost m = hash_map(dependency_hashes@);
    let mut entries: Vec<(String, String)> = Vec::new();
    let mut i: usize = 0;
    proof {
        assert(entry_views(entries@).to_set() =~= dep_entries(decls.subrange(0, 0), m));
    }
    while i < source.dependencies.len()
        invariant
            decls == source.decls(),
            m == hash_map(dependency_hashes@),
            i <= source.dependencies@.len(),
            sorted_by_key(entry_views(entries@)),
            entry_views(entries@).to_set() == dep_entries(decls.subrange(0, i as int), m),
        decreases source.dependencies@.len() - i,
    {
        let dependency = Dependency::parse(source.dependencies[i].as_str());
        let dep_key = dependency.key().to_owned();
        let ghost es0 = entry_views(entries@);
        proof {
            assert(decls[i as int] == source.dependencies@[i as int]@);
            assert(decls.subrange(0, i as int + 1)[i as int] == decls[i as int]);
        }
        match find_hash(dependency_hashes, &dep_key) {
            Some(h) => {
                proof {
                    assert forall|j: int| 0 <= j < entries@.len() && (#[trigger] entry_views(entries@)[j]).0 == dep_key@ implies entry_views(entries@)[j].1 == h@ by {
                        assert(es0.to_set().contains(es0[j]));
                    }
                }
                insert_sorted(&mut entries, dep_key, h.0.clone());
                proof {
                    let target = dep_entries(decls.subrange(0, i as int + 1), m);
                    assert forall|e: (Seq<char>, Seq<char>)| #[trigger] target.contains(e) <==> es0.to_set().insert((dependency.key_view(), h@)).contains(e) by {
                        if target.contains(e) {
                            let t = choose|t: int| 0 <= t < i + 1 && target_of(#[trigger] decls.subrange(0, i as int + 1)[t]) == e.0 && m.contains_key(e.0) && m[e.0] == e.1;
                            if t < i {
                                assert(decls.subrange(0, i as int)[t] == decls.subrange(0, i as int + 1)[t]);
                                assert(dep_entries(decls.subrange(0, i as int), m).contains(e));
                            }
                        }
                        if es0.to_set().contains(e) {
                            assert(dep_entries(decls.subrange(0, i as int), m).contains(e));
                            let t = choose|t: int| 0 <= t < i && target_of(#[trigger] decls.subrange(0, i as int)[t]) == e.0 && m.contains_key(e.0) && m[e.0] == e.1;
                            assert(decls.subrange(0, i as int)[t] == decls.subrange(0, i as int + 1)[t]);
                        }
                    }
                    assert(target =~= es0.to_set().insert((dependency.key_view(), h@)));
                }
            },
            None => {
                proof {
                    let target = dep_entries(decls.subrange(0, i as int + 1), m);
                    assert forall|e: (Seq<char>, Seq<char>)| #[trigger] target.contains(e) <==> es0.to_set().contains(e) by {
                        if target.contains(e) {
                            let t = choose|t: int| 0 <= t < i + 1 && target_of(#[trigger] decls.subrange(0, i as int + 1)[t]) == e.0 && m.contains_key(e.0) && m[e.0] == e.1;
                            if t < i {
                                assert(decls.subrange(0, i as int)[t] == decls.subrange(0, i as int + 1)[t]);
                                assert(dep_entries(decls.subrange(0, i as int), m).contains(e));
                            }
                        }
                        if es0.to_set().contains(e) {
                            assert(dep_entries(decls.subrange(0, i as int), m).contains(e));
                            let t = choose|t: int| 0 <= t < i && target_of(#[trigger] decls.subrange(0, i as int)[t]) == e.0 && m.contains_key(e.0) && m[e.0] == e.1;
                            assert(decls.subrange(0, i as int)[t] == decls.subrange(0, i as int + 1)[t]);
                        }
                    }
                    assert(target =~= es0.to_set());
                }
            },
        }
        i = i + 1;
    }
    let ghost ev = entry_views(entries@);
    proof {
        assert(decls.subrange(0, decls.len() as int) =~= decls);
        let es = dep_entries(decls, m);
        assert(sorted_by_key(ev) && ev.to_set() == es);
        let chosen = sorted_entries(es);
        lemma_sorted_unique(ev, chosen);
    }
    let mut flat: Vec<String> = Vec::new();
    let mut j: usize = 0;
    proof {
        assert(flat@.map_values(|p: String| p@) =~= flat_entries(ev.subrange(0, 0)));
    }
    while j < entries.len()
        invariant
            ev == entry_views(entries@),
            j <= entries@.len(),
            flat@.map_values(|p: String| p@) == flat_entries(ev.subrange(0, j as int)),
        decreases entries@.len() - j,
    {
        let ghost f0 = flat@;
        flat.push(entries[j].0.clone());
        flat.push(entries[j].1.clone());
        proof {
            let t = ev.subrange(0, j as int + 1);
            assert(t.drop_last() =~= ev.subrange(0, j as int));
            assert(flat@.map_values(|p: String| p@) =~= f0.map_values(|p: String| p@) + seq![t.last().0, t.last().1]);
        }
        j = j + 1;
    }
    proof {
        assert(ev.subrange(0, ev.len() as int) =~= ev);
    }
    let mut text = String::new();
    append_quoted(&mut text, key.as_str());
    append_quoted(&mut text, source_content_hash.as_str());
    append_bracketed(&mut text, &flat);
    append_bracketed(&mut text, &source.params);
    proof {
        assert(source.params@.map_values(|p: String| p@) == source.params_view());
        assert(text@ =~= hash_text(key@, source_content_hash@, decls, m, source.params_view()));
    }
    BuildHash(sha256_hex_of(text.as_str()))
}

/// Some declaration of `d` names `t`.
pub open spec fn declares(d: Seq<Seq<char>>, t: Seq<char>) -> bool {
    exists|i: int| 0 <= i < d.len() && target_of(#[trigger] d[i]) == t
}

/// Declarations that name the same keys give the same dependency pairs.
pub proof fn lemma_entries_by_targets(
    d1: Seq<Seq<char>>,
    d2: Seq<Seq<char>>,
    m: Map<Seq<char>, Seq<char>>,
)
    requires
        forall|t: Seq<char>|
            #[trigger] declares(d1, t) <==> declares(d2, t),
    ensures
        dep_entries(d1, m) == dep_entries(d2, m),
{
    assert forall|e: (Seq<char>, Seq<char>)| dep_entries(d1, m).contains(e) <==> dep_entries(d2, m).contains(e) by {
        if dep_entries(d1, m).contains(e) {
            let i = choose|i: int| 0 <= i < d1.len() && target_of(#[trigger] d1[i]) == e.0 && m.contains_key(e.0) && m[e.0] == e.1;
            assert(declares(d1, e.0));
            let j = choose|j: int| 0 <= j < d2.len() && target_of(#[trigger] d2[j]) == e.0;
            assert(dep_entries(d2, m).contains(e));
        }
        if dep_entries(d2, m).contains(e) {
            let i = choose|i: int| 0 <= i < d2.len() && target_of(#[trigger] d2[i]) == e.0 && m.contains_key(e.0) && m[e.0] == e.1;
            assert(declares(d2, e.0));
            assert(declares(d1, e.0));
            let j = choose|j: int| 0 <= j < d1.len() && target_of(#[trigger] d1[j]) == e.0;
            assert(dep_entries(d1, m).contains(e));
        }
    }
    assert(dep_entries(d1, m) =~= dep_entries(d2, m));
}

/// The build hash is a function of its inputs, and declaring the same
/// dependencies in another order leaves it unchanged.
pub proof fn law_build_hash_ignores_dependency_order(
    key: Seq<char>,
    shash: Seq<char>,
    d1: Seq<Seq<char>>,
    d2: Seq<Seq<char>>,
    m: Map<Seq<char>, Seq<char>>,
    params: Seq<Seq<char>>,
)
    requires
        d1.to_multiset() == d2.to_multiset(),
    ensures
        build_hash_of(key, shash, d1, m, params) == build_hash_of(key, shash, d2, m, params),
{
    broadcast use vstd::seq_lib::to_multiset_contains;
    assert forall|t: Seq<char>|
        #[trigger] declares(d1, t) <==> declares(d2, t) by {
        if declares(d1, t) {
            let i = choose|i: int| 0 <= i < d1.len() && target_of(#[trigger] d1[i]) == t;
            assert(d1.contains(d1[i]));
            assert(d1.to_multiset().contains(d1[i]));
            assert(d2.contains(d1[i]));
            let j = choose|j: int| 0 <= j < d2.len() && d2[j] == d1[i];
            assert(target_of(d2[j]) == t);
        }
        if declares(d2, t) {
            let i = choose|i: int| 0 <= i < d2.len() && target_of(#[trigger] d2[i]) == t;
            assert(d2.contains(d2[i]));
            assert(d2.to_multiset().contains(d2[i]));
            assert(d1.contains(d2[i]));
            let j = choose|j: int| 0 <= j < d1.len() && d1[j] == d2[i];
            assert(target_of(d1[j]) == t);
        }
    }
    lemma_entries_by_targets(d1, d2, m);
}

/// Marking a declared dependency only-direct (`~`) leaves the build hash
/// unchanged.
pub proof fn law_build_hash_ignores_marker(
    key: Seq<char>,
    shash: Seq<char>,
    decls: Seq<Seq<char>>,
    i: int,
    m: Map<Seq<char>, Seq<char>>,
    params: Seq<Seq<char>>,
)
    requires
        0 <= i < decls.len(),
        !is_marked(decls[i]),
    ensures
        build_hash_of(key, shash, decls, m, params) == build_hash_of(
            key,
            shash,
            decls.update(i, seq!['~'] + decls[i]),
            m,
            params,
        ),
{
    let d2 = decls.update(i, seq!['~'] + decls[i]);
    assert((seq!['~'] + decls[i]).drop_first() =~= decls[i]);
    assert(target_of(d2[i]) == target_of(decls[i]));
    assert forall|t: Seq<char>|
        #[trigger] declares(decls, t) <==> declares(d2, t) by {
        if declares(decls, t) {
            let j = choose|j: int| 0 <= j < decls.len() && target_of(#[trigger] decls[j]) == t;
            assert(target_of(d2[j]) == t);
        }
        if declares(d2, t) {
            let j = choose|j: int| 0 <= j < d2.len() && target_of(#[trigger] d2[j]) == t;
            assert(target_of(decls[j]) == t);
        }
    }
    lemma_entries_by_targets(decls, d2, m);
}

/// A different content hash gives a different hashed text.
pub proof fn law_hash_text_follows_source_hash(
    key: Seq<char>,
    s1: Seq<char>,
    s2: Seq<char>,
    decls: Seq<Seq<char>>,
    m: Map<Seq<char>, Seq<char>>,
    params: Seq<Seq<char>>,
)
    requires
        s1 != s2,
    ensures
        hash_text(key, s1, decls, m, params) != hash_text(key, s2, decls, m, params),
{
    let rest = bracketed(flat_entries(sorted_entries(dep_entries(decls, m)))) + bracketed(params);
    if hash_text(key, s1, decls, m, params) == hash_text(key, s2, decls, m, params) {
        assert(hash_text(key, s1, decls, m, params) =~= quoted(key) + (quoted(s1) + rest));
        assert(hash_text(key, s2, decls, m, params) =~= quoted(key) + (quoted(s2) + rest));
        lemma_quoted_prefix(key, key, quoted(s1) + rest, quoted(s2) + rest);
        lemma_quoted_prefix(s1, s2, rest, rest);
    }
}

/// Parameters in another order, or other parameters, give a different
/// hashed text.
pub proof fn law_hash_text_follows_params(
    key: Seq<char>,
    shash: Seq<char>,
    decls: Seq<Seq<char>>,
    m: Map<Seq<char>, Seq<char>>,
    params1: Seq<Seq<char>>,
    params2: Seq<Seq<char>>,
)
    requires
        params1 != params2,
    ensures
        hash_text(key, shash, decls, m, params1) != hash_text(key, shash, decls, m, params2),
{
    let front = quoted(key) + quoted(shash) + bracketed(flat_entries(sorted_entries(dep_entries(decls, m))));
    let mid = flat_entries(sorted_entries(dep_entries(decls, m)));
    if hash_text(key, shash, decls, m, params1) == hash_text(key, shash, decls, m, params2) {
        let e = Seq::<char>::empty();
        assert(hash_text(key, shash, decls, m, params1) =~= quoted(key) + (quoted(shash) + (bracketed(mid) + (bracketed(params1) + e))));
        assert(hash_text(key, shash, decls, m, params2) =~= quoted(key) + (quoted(shash) + (bracketed(mid) + (bracketed(params2) + e))));
        lemma_quoted_prefix(key, key, quoted(shash) + (bracketed(mid) + (bracketed(params1) + e)), quoted(shash) + (bracketed(mid) + (bracketed(params2) + e)));
        lemma_quoted_prefix(shash, shash, bracketed(mid) + (bracketed(params1) + e), bracketed(mid) + (bracketed(params2) + e));
        lemma_bracketed_prefix(mid, mid, bracketed(params1) + e, bracketed(params2) + e);
        lemma_bracketed_prefix(params1, params2, e, e);
    }
}

/// The content hash of each source, as computed from its repository.
pub struct SourceHashes {
    pub hashes: Vec<(SourceKey, SourceHash)>,
}

/// The content hash recorded for each key; a later pair overrides an earlier one.
pub open spec fn source_hash_map(v: Seq<(SourceKey, SourceHash)>) -> Map<Seq<char>, Seq<char>>
    decreases v.len(),
{
    if v.len() == 0 {
        Map::empty()
    } else {
        source_hash_map(v.drop_last()).insert(v.last().0@, v.last().1@)
    }
}

impl SourceHashes {
    pub open spec fn view_map(&self) -> Map<Seq<char>, Seq<char>> {
        source_hash_map(self.hashes@)
    }

    pub fn get(&self, k: &SourceKey) -> (r: Option<&SourceHash>)
        ensures
            match r {
                Some(h) => self.view_map().contains_key(k@) && self.view_map()[k@] == h@,
                None => !self.view_map().contains_key(k@),
            },
    {
        let v = &self.hashes;
        let mut i: usize = v.len();
        proof {
            assert(v@.subrange(0, i as int) =~= v@);
        }
        while i > 0
            invariant
                v == &self.hashes,
                i <= v@.len(),
                source_hash_map(v@).contains_key(k@) == source_hash_map(v@.subrange(0, i as int)).contains_key(k@),
                source_hash_map(v@).contains_key(k@) ==> source_hash_map(v@)[k@] == source_hash_map(
                    v@.subrange(0, i as int),
                )[k@],
            decreases i,
        {
            let ghost pre = v@.subrange(0, i as int);
            i = i - 1;
            proof {
                assert(pre.drop_last() =~= v@.subrange(0, i as int));
            }
            if v[i].0.0 == k.0 {
                return Some(&v[i].1);
            }
        }
        proof {
            assert(v@.subrange(0, 0) =~= Seq::<(SourceKey, SourceHash)>::empty());
        }
        None
    }
}

/// Every recorded build hash belongs to a source with a content hash, each
/// of its dependencies has a recorded hash too, and it is the build hash of
/// the source over those.
pub open spec fn hashes_consistent(tree: &SpecTree, sh: Map<Seq<char>, Seq<char>>, m: Map<Seq<char>, Seq<char>>) -> bool {
    forall|k: Seq<char>| #[trigger] m.contains_key(k) ==> {
        &&& tree.has(k)
        &&& sh.contains_key(k)
        &&& forall|t: Seq<char>| #[trigger] declares(tree.decls(k), t) ==> m.contains_key(t)
        &&& m[k] == build_hash_of(k, sh[k], tree.decls(k), m, tree.source(k).unwrap().params_view())
    }
}

/// Hash maps that agree on the declared keys give the same dependency pairs.
pub proof fn lemma_entries_agree(decls: Seq<Seq<char>>, m1: Map<Seq<char>, Seq<char>>, m2: Map<Seq<char>, Seq<char>>)
    requires
        forall|t: Seq<char>| #[trigger] declares(decls, t) ==> m1.contains_key(t) && m2.contains_key(t) && m1[t] == m2[t],
    ensures
        dep_entries(decls, m1) == dep_entries(decls, m2),
{
    assert forall|e: (Seq<char>, Seq<char>)| dep_entries(decls, m1).contains(e) <==> dep_entries(decls, m2).contains(e) by {
        if dep_entries(decls, m1).contains(e) {
            let i = choose|i: int| 0 <= i < decls.len() && target_of(#[trigger] decls[i]) == e.0 && m1.contains_key(e.0) && m1[e.0] == e.1;
            assert(declares(decls, e.0));
        }
        if dep_entries(decls, m2).contains(e) {
            let i = choose|i: int| 0 <= i < decls.len() && target_of(#[trigger] decls[i]) == e.0 && m2.contains_key(e.0) && m2[e.0] == e.1;
            assert(declares(decls, e.0));
        }
    }
    assert(dep_entries(decls, m1) =~= dep_entries(decls, m2));
}

proof fn lemma_extend_consistent(
    tree: &SpecTree,
    sh: Map<Seq<char>, Seq<char>>,
    m: Map<Seq<char>, Seq<char>>,
    k: Seq<char>,
    h: Seq<char>,
)
    requires
        hashes_consistent(tree, sh, m),
        !m.contains_key(k),
        tree.has(k),
        sh.contains_key(k),
        forall|t: Seq<char>| #[trigger] declares(tree.decls(k), t) ==> m.contains_key(t),
        h == build_hash_of(k, sh[k], tree.decls(k), m, tree.source(k).unwrap().params_view()),
    ensures
        hashes_consistent(tree, sh, m.insert(k, h)),
{
    let m2 = m.insert(k, h);
    assert forall|x: Seq<char>| #[trigger] m2.contains_key(x) implies {
        &&& tree.has(x)
        &&& sh.contains_key(x)
        &&& forall|t: Seq<char>| #[trigger] declares(tree.decls(x), t) ==> m2.contains_key(t)
        &&& m2[x] == build_hash_of(x, sh[x], tree.decls(x), m2, tree.source(x).unwrap().params_view())
    } by {
        assert forall|t: Seq<char>| #[trigger] declares(tree.decls(x), t) implies m.contains_key(t) && m2.contains_key(t) && m[t] == m2[t] by {
            if x != k {
                assert(m.contains_key(x));
            }
            if t == k {
                assert(m.contains_key(t));
            }
        }
        lemma_entries_agree(tree.decls(x), m, m2);
    }
}

/// The keys of recorded build hashes, in the order they were recorded.
pub open spec fn hash_keys(v: Seq<(SourceKey, BuildHash)>) -> Seq<Seq<char>> {
    v.map_values(|p: (SourceKey, BuildHash)| p.0@)
}

pub proof fn lemma_hash_keys(v: Seq<(SourceKey, BuildHash)>, k: Seq<char>)
    ensures
        hash_map(v).contains_key(k) <==> hash_keys(v).contains(k),
    decreases v.len(),
{
    if v.len() > 0 {
        lemma_hash_keys(v.drop_last(), k);
        let a = hash_keys(v.drop_last());
        let b = hash_keys(v);
        if v.last().0@ == k {
            assert(b[v.len() - 1] == k);
        }
        if a.contains(k) {
            let t = choose|t: int| 0 <= t < a.len() && a[t] == k;
            assert(b[t] == k);
        }
        if b.contains(k) {
            let t = choose|t: int| 0 <= t < b.len() && b[t] == k;
            if t < a.len() {
                assert(a[t] == k);
            }
        }
    }
}

/// Computes the build hash of `source_key` after those of its dependencies,
/// recording each in `build_hashes`; `recursion_stack` holds the keys whose
/// computation is open.
fn compute_build_hash_recursive(
    source_key: &SourceKey,
    spec_tree: &SpecTree,
    source_hashes: &SourceHashes,
    build_hashes: &mut Vec<(SourceKey, BuildHash)>,
    recursion_stack: &mut Vec<SourceKey>,
    Ghost(roots): Ghost<Seq<Seq<char>>>,
) -> (r: Result<BuildHash, GraphError>)
    requires
        spec_tree.reachable(roots, source_key@),
        open_walk(spec_tree, roots, key_views(old(recursion_stack)@)),
        old(recursion_stack)@.len() > 0 ==> spec_tree.edge(
            key_views(old(recursion_stack)@).last(),
            source_key@,
        ),
        hashes_consistent(spec_tree, source_hashes.view_map(), hash_map(old(build_hashes)@)),
        finished_in_order(spec_tree, roots, hash_keys(old(build_hashes)@)),
        forall|x: Seq<char>|
            #[trigger] hash_map(old(build_hashes)@).contains_key(x) ==> !key_views(old(recursion_stack)@).contains(x),
    ensures
        hash_map(old(build_hashes)@).contains_key(source_key@) ==> (r matches Ok(h) && h@ == hash_map(
            old(build_hashes)@,
        )[source_key@] && final(build_hashes)@ == old(build_hashes)@ && final(recursion_stack)@ == old(
            recursion_stack,
        )@),
        match r {
            Ok(h) => {
                let m0 = hash_map(old(build_hashes)@);
                let m1 = hash_map(final(build_hashes)@);
                &&& final(recursion_stack)@ == old(recursion_stack)@
                &&& hash_keys(old(build_hashes)@).is_prefix_of(hash_keys(final(build_hashes)@))
                &&& finished_in_order(spec_tree, roots, hash_keys(final(build_hashes)@))
                &&& forall|x: Seq<char>| #[trigger] m0.contains_key(x) ==> m1.contains_key(x) && m1[x] == m0[x]
                &&& m1.contains_key(source_key@)
                &&& m1[source_key@] == h@
                &&& forall|x: Seq<char>|
                    #[trigger] m1.contains_key(x) && !m0.contains_key(x) ==> !key_views(
                        old(recursion_stack)@,
                    ).contains(x)
                &&& hashes_consistent(spec_tree, source_hashes.view_map(), m1)
            },
            Err(GraphError::CyclicDependency(k)) => spec_tree.reachable(roots, k@) && spec_tree.on_cycle(k@),
            Err(GraphError::UnknownSource(k)) => spec_tree.reachable(roots, k@) && !spec_tree.has(k@),
            Err(GraphError::MissingSourceHash(k)) => spec_tree.reachable(roots, k@) && spec_tree.has(k@)
                && !source_hashes.view_map().contains_key(k@),
        },
    decreases spec_tree.entries@.len() - old(recursion_stack)@.len(),
{
    let ghost s0 = key_views(recursion_stack@);
    let ghost m0 = hash_map(build_hashes@);
    let ghost sh = source_hashes.view_map();
    proof {
        assert(recursion_stack@.len() == s0.len());
    }
    let ghost k0 = hash_keys(build_hashes@);
    if let Some(i) = position_of(recursion_stack, source_key) {
        proof {
            lemma_open_cycle(spec_tree, s0, source_key@, i as int);
            assert(s0[i as int] == source_key@);
        }
        return Err(GraphError::CyclicDependency(source_key.clone()));
    }
    if let Some(existing_hash) = find_hash(build_hashes, &source_key.0) {
        proof {
            assert(k0.is_prefix_of(k0));
        }
        return Ok(existing_hash.clone());
    }
    let source: &Source = match spec_tree.get(source_key) {
        Some(s) => s,
        None => {
            return Err(GraphError::UnknownSource(source_key.clone()));
        },
    };
    recursion_stack.push(source_key.clone());
    let ghost s1 = key_views(recursion_stack@);
    proof {
        assert(s1 =~= s0.push(source_key@));
        assert(s1.no_duplicates());
        lemma_distinct_keys_bounded(spec_tree, s1);
        assert(open_walk(spec_tree, roots, s1));
        assert(s1.contains(source_key@)) by {
            assert(s1[s1.len() - 1] == source_key@);
        }
    }
    let ghost decls = spec_tree.decls(source_key@);
    let mut i: usize = 0;
    while i < source.dependencies.len()
        invariant
            spec_tree.source(source_key@) == Some(*source),
            decls == source.decls(),
            spec_tree.has(source_key@),
            spec_tree.reachable(roots, source_key@),
            i <= source.dependencies@.len(),
            key_views(recursion_stack@) == s1,
            recursion_stack@.len() == s1.len(),
            recursion_stack@ == old(recursion_stack)@.push(*source_key),
            s0.len() == old(recursion_stack)@.len(),
            s1 == s0.push(source_key@),
            open_walk(spec_tree, roots, s1),
            s1.len() <= spec_tree.entries@.len(),
            s1.contains(source_key@),
            !s0.contains(source_key@),
            sh == source_hashes.view_map(),
            m0 == hash_map(old(build_hashes)@),
            !m0.contains_key(source_key@),
            !hash_map(build_hashes@).contains_key(source_key@),
            forall|x: Seq<char>| #[trigger] m0.contains_key(x) ==> hash_map(build_hashes@).contains_key(x) && hash_map(build_hashes@)[x] == m0[x],
            forall|x: Seq<char>|
                #[trigger] hash_map(build_hashes@).contains_key(x) && !m0.contains_key(x) ==> !s1.contains(x),
            forall|x: Seq<char>| #[trigger] m0.contains_key(x) ==> !s0.contains(x),
            hashes_consistent(spec_tree, sh, hash_map(build_hashes@)),
            k0 == hash_keys(old(build_hashes)@),
            k0.is_prefix_of(hash_keys(build_hashes@)),
            finished_in_order(spec_tree, roots, hash_keys(build_hashes@)),
            forall|j: int| 0 <= j < i ==> hash_map(build_hashes@).contains_key(target_of(#[trigger] decls[j])),
        decreases source.dependencies@.len() - i,
    {
        let dependency = Dependency::parse(source.dependencies[i].as_str());
        let dep_key = SourceKey(dependency.key().to_owned());
        proof {
            assert(decls[i as int] == source.dependencies@[i as int]@);
            assert(target_of(spec_tree.decls(source_key@)[i as int]) == dep_key@);
            assert(spec_tree.edge(source_key@, dep_key@));
            lemma_reach_step(spec_tree, roots, source_key@, dep_key@);
            assert(s1.last() == source_key@);
        }
        let ghost mb = hash_map(build_hashes@);
        let ghost kb = hash_keys(build_hashes@);
        proof {
            assert forall|x: Seq<char>| #[trigger] mb.contains_key(x) implies !key_views(recursion_stack@).contains(x) by {
                if m0.contains_key(x) {
                    assert(!s0.contains(x));
                    assert(x != source_key@);
                    if s1.contains(x) {
                        let u = choose|u: int| 0 <= u < s1.len() && s1[u] == x;
                        if u < s0.len() {
                            assert(s0[u] == s1[u]);
                        }
                    }
                }
            }
        }
        match compute_build_hash_recursive(&dep_key, spec_tree, source_hashes, build_hashes, recursion_stack, Ghost(roots)) {
            Ok(_) => {},
            Err(e) => {
                return Err(e);
            },
        }
        proof {
            let ma = hash_map(build_hashes@);
            assert forall|j: int| 0 <= j <= i implies ma.contains_key(target_of(#[trigger] decls[j])) by {
                if j < i {
                    assert(mb.contains_key(target_of(decls[j])));
                }
            }
            assert forall|x: Seq<char>| #[trigger] m0.contains_key(x) implies ma.contains_key(x) && ma[x] == m0[x] by {
                assert(mb.contains_key(x));
            }
            assert forall|x: Seq<char>| #[trigger] ma.contains_key(x) && !m0.contains_key(x) implies !s1.contains(x) by {
                if mb.contains_key(x) {
                } else {
                }
            }
            if ma.contains_key(source_key@) {
                if !mb.contains_key(source_key@) {
                    assert(!s1.contains(source_key@));
                }
            }
            let ka = hash_keys(build_hashes@);
            assert(k0.is_prefix_of(ka)) by {
                assert forall|t: int| 0 <= t < k0.len() implies k0[t] == ka[t] by {
                    assert(k0[t] == kb[t]);
                }
            }
        }
        i = i + 1;
    }
    let ghost rs_before = recursion_stack@;
    recursion_stack.pop();
    proof {
        assert(recursion_stack@ =~= rs_before.drop_last());
        assert(recursion_stack@ =~= old(recursion_stack)@);
    }
    let source_hash = match source_hashes.get(source_key) {
        Some(h) => h,
        None => {
            return Err(GraphError::MissingSourceHash(source_key.clone()));
        },
    };
    let build_hash = calculate_build_hash(source_key, source, source_hash, build_hashes);
    let ghost mb = hash_map(build_hashes@);
    let ghost bv = build_hashes@;
    proof {
        assert forall|t: Seq<char>| #[trigger] declares(spec_tree.decls(source_key@), t) implies mb.contains_key(t) by {
            let j = choose|j: int| 0 <= j < decls.len() && target_of(#[trigger] decls[j]) == t;
        }
        lemma_extend_consistent(spec_tree, sh, mb, source_key@, build_hash@);
    }
    build_hashes.push((source_key.clone(), build_hash.clone()));
    proof {
        assert(build_hashes@.drop_last() =~= bv);
        let kv = hash_keys(bv);
        let k1 = hash_keys(build_hashes@);
        assert(k1 =~= kv.push(source_key@));
        assert(k0.is_prefix_of(k1)) by {
            assert forall|t: int| 0 <= t < k0.len() implies k0[t] == k1[t] by {
                assert(k0[t] == kv[t]);
            }
        }
        assert forall|t: int| 0 <= t < k1.len() implies spec_tree.has(#[trigger] k1[t]) && spec_tree.reachable(roots, k1[t]) by {
            if t < kv.len() {
                assert(k1[t] == kv[t]);
            }
        }
        assert forall|t: int, b: Seq<char>| 0 <= t < k1.len() && #[trigger] spec_tree.edge(k1[t], b) implies exists|j: int| 0 <= j < t && k1[j] == b by {
            if t < kv.len() {
                assert(k1[t] == kv[t]);
                let j = choose|j: int| 0 <= j < t && kv[j] == b;
                assert(k1[j] == kv[j]);
            } else {
                let d = choose|d: int| 0 <= d < decls.len() && target_of(#[trigger] decls[d]) == b;
                assert(declares(spec_tree.decls(source_key@), b));
                assert(mb.contains_key(b));
                lemma_hash_keys(bv, b);
                let j = choose|j: int| 0 <= j < kv.len() && kv[j] == b;
                assert(k1[j] == kv[j]);
            }
        }
        let m1 = hash_map(build_hashes@);
        assert(m1 == mb.insert(source_key@, build_hash@));
        assert forall|x: Seq<char>| #[trigger] m1.contains_key(x) && !m0.contains_key(x) implies !s0.contains(x) by {
            if x != source_key@ {
                assert(mb.contains_key(x));
                if s0.contains(x) {
                    let u = choose|u: int| 0 <= u < s0.len() && s0[u] == x;
                    assert(s1[u] == s0[u]);
                }
            }
        }
    }
    Ok(build_hash)
}

/// The build hash of every source reachable from `sources`, each computed
/// from those of its dependencies; fails on a reachable cycle, an unknown
/// key, or a source without a content hash.
pub fn compute_all_build_hashes(sources: &[SourceKey], spec_tree: &SpecTree, source_hashes: &SourceHashes) -> (r: Result<
    Vec<(SourceKey, BuildHash)>,
    GraphError,
>)
    ensures
        match r {
            Ok(hashes) => {
                &&& hashes_consistent(spec_tree, source_hashes.view_map(), hash_map(hashes@))
                &&& forall|i: int| 0 <= i < sources@.len() ==> hash_map(hashes@).contains_key(#[trigger] sources@[i]@)
                &&& forall|k: Seq<char>|
                    #[trigger] hash_map(hashes@).contains_key(k) <==> spec_tree.reachable(key_views(sources@), k)
                &&& !spec_tree.cycle_reachable(key_views(sources@))
            },
            Err(GraphError::CyclicDependency(k)) => spec_tree.reachable(key_views(sources@), k@) && spec_tree.on_cycle(k@),
            Err(GraphError::UnknownSource(k)) => spec_tree.reachable(key_views(sources@), k@) && !spec_tree.has(k@),
            Err(GraphError::MissingSourceHash(k)) => spec_tree.reachable(key_views(sources@), k@) && spec_tree.has(k@)
                && !source_hashes.view_map().contains_key(k@),
        },
{
    let ghost roots = key_views(sources@);
    let mut build_hashes: Vec<(SourceKey, BuildHash)> = Vec::new();
    let mut recursion_stack: Vec<SourceKey> = Vec::new();
    proof {
        assert(hash_map(build_hashes@) =~= Map::<Seq<char>, Seq<char>>::empty());
        assert(hash_keys(build_hashes@) =~= Seq::<Seq<char>>::empty());
    }
    let mut i: usize = 0;
    while i < sources.len()
        invariant
            roots == key_views(sources@),
            i <= sources@.len(),
            recursion_stack@.len() == 0,
            hashes_consistent(spec_tree, source_hashes.view_map(), hash_map(build_hashes@)),
            finished_in_order(spec_tree, roots, hash_keys(build_hashes@)),
            forall|j: int| 0 <= j < i ==> hash_map(build_hashes@).contains_key(#[trigger] sources@[j]@),
        decreases sources@.len() - i,
    {
        proof {
            lemma_root_reachable(spec_tree, roots, i as int);
            assert(key_views(recursion_stack@) =~= Seq::<Seq<char>>::empty());
            assert(roots[i as int] == sources@[i as int]@);
        }
        let ghost mb = hash_map(build_hashes@);
        match compute_build_hash_recursive(
            &sources[i],
            spec_tree,
            source_hashes,
            &mut build_hashes,
            &mut recursion_stack,
            Ghost(roots),
        ) {
            Ok(_) => {},
            Err(e) => {
                return Err(e);
            },
        }
        proof {
            assert forall|j: int| 0 <= j <= i implies hash_map(build_hashes@).contains_key(#[trigger] sources@[j]@) by {
                if j < i {
                    assert(mb.contains_key(sources@[j]@));
                }
            }
        }
        i = i + 1;
    }
    proof {
        let m = hash_map(build_hashes@);
        let v = hash_keys(build_hashes@);
        assert forall|k: Seq<char>| #[trigger] m.contains_key(k) <==> v.contains(k) by {
            lemma_hash_keys(build_hashes@, k);
        }
        assert forall|a: Seq<char>, b: Seq<char>| v.contains(a) && #[trigger] spec_tree.edge(a, b) implies v.contains(b) by {
            assert(m.contains_key(a));
            assert(declares(spec_tree.decls(a), b));
            assert(m.contains_key(b));
        }
        assert forall|k: Seq<char>| #[trigger] m.contains_key(k) <==> spec_tree.reachable(roots, k) by {
            if m.contains_key(k) {
                let t = choose|t: int| 0 <= t < v.len() && v[t] == k;
            }
            if spec_tree.reachable(roots, k) {
                let p = choose|p: Seq<Seq<char>>| #[trigger] spec_tree.is_path(p) && roots.contains(p[0]) && p.last() == k;
                let j = choose|j: int| 0 <= j < roots.len() && roots[j] == p[0];
                assert(m.contains_key(sources@[j]@));
                lemma_walk_stays(spec_tree, v, p);
            }
        }
        if spec_tree.cycle_reachable(roots) {
            let k = choose|k: Seq<char>| #[trigger] spec_tree.reachable(roots, k) && spec_tree.on_cycle(k);
            assert(m.contains_key(k));
            let t = choose|t: int| 0 <= t < v.len() && v[t] == k;
            lemma_finished_acyclic(spec_tree, roots, v, t);
        }
    }
    Ok(build_hashes)
}

/// `s` with `e` placed in key order.
pub open spec fn insert_by_key(s: Seq<(Seq<char>, Seq<char>)>, e: (Seq<char>, Seq<char>)) -> Seq<(Seq<char>, Seq<char>)>
    decreases s.len(),
{
    if s.len() == 0 {
        seq![e]
    } else if s[0].0 == e.0 {
        s
    } else if key_lt(e.0, s[0].0) {
        seq![e] + s
    } else {
        seq![s[0]] + insert_by_key(s.drop_first(), e)
    }
}

proof fn lemma_insert_by_key(s: Seq<(Seq<char>, Seq<char>)>, e: (Seq<char>, Seq<char>))
    requires
        sorted_by_key(s),
        forall|i: int| 0 <= i < s.len() && (#[trigger] s[i]).0 == e.0 ==> s[i].1 == e.1,
    ensures
        sorted_by_key(insert_by_key(s, e)),
        insert_by_key(s, e).to_set() == s.to_set().insert(e),
        forall|i: int|
            0 <= i < insert_by_key(s, e).len() ==> (#[trigger] insert_by_key(s, e)[i]).0 == e.0 || s.to_set().contains(
                insert_by_key(s, e)[i],
            ),
    decreases s.len(),
{
    let r = insert_by_key(s, e);
    if s.len() == 0 {
        assert forall|x: (Seq<char>, Seq<char>)| r.to_set().contains(x) <==> s.to_set().insert(e).contains(x) by {
            if r.to_set().contains(x) {
                let u = choose|u: int| 0 <= u < r.len() && r[u] == x;
            }
            if x == e {
                assert(r[0] == x);
            }
        }
        assert(r.to_set() =~= s.to_set().insert(e));
    } else if s[0].0 == e.0 {
        assert(s[0] == e);
        assert(s.to_set().contains(s[0]));
        assert(r.to_set() =~= s.to_set().insert(e));
    } else if key_lt(e.0, s[0].0) {
        assert forall|i: int, j: int| 0 <= i < j < r.len() implies key_lt(#[trigger] r[i].0, #[trigger] r[j].0) by {
            if i == 0 {
                if j > 1 {
                    lemma_key_lt_transitive(e.0, s[0].0, s[j - 1].0);
                }
            } else {
                assert(r[i] == s[i - 1] && r[j] == s[j - 1]);
            }
        }
        assert forall|x: (Seq<char>, Seq<char>)| r.to_set().contains(x) <==> s.to_set().insert(e).contains(x) by {
            if r.to_set().contains(x) {
                let t = choose|t: int| 0 <= t < r.len() && r[t] == x;
                if t > 0 {
                    assert(s[t - 1] == x);
                }
            }
            if s.to_set().contains(x) {
                let t = choose|t: int| 0 <= t < s.len() && s[t] == x;
                assert(r[t + 1] == x);
            }
            if x == e {
                assert(r[0] == x);
            }
        }
        assert(r.to_set() =~= s.to_set().insert(e));
        assert forall|i: int| 0 <= i < r.len() implies (#[trigger] r[i]).0 == e.0 || s.to_set().contains(r[i]) by {
            if i > 0 {
                assert(r[i] == s[i - 1]);
            }
        }
    } else {
        let t = s.drop_first();
        assert(sorted_by_key(t)) by {
            assert forall|i: int, j: int| 0 <= i < j < t.len() implies key_lt(#[trigger] t[i].0, #[trigger] t[j].0) by {
                assert(t[i] == s[i + 1] && t[j] == s[j + 1]);
            }
        }
        lemma_insert_by_key(t, e);
        let rt = insert_by_key(t, e);
        lemma_key_lt_total(e.0, s[0].0);
        assert forall|i: int, j: int| 0 <= i < j < r.len() implies key_lt(#[trigger] r[i].0, #[trigger] r[j].0) by {
            if i == 0 {
                assert(r[j] == rt[j - 1]);
                if rt[j - 1].0 == e.0 {
                } else {
                    assert(t.to_set().contains(rt[j - 1]));
                    let u = choose|u: int| 0 <= u < t.len() && t[u] == rt[j - 1];
                    assert(s[u + 1] == t[u]);
                }
            } else {
                assert(r[i] == rt[i - 1] && r[j] == rt[j - 1]);
            }
        }
        assert forall|x: (Seq<char>, Seq<char>)| r.to_set().contains(x) <==> s.to_set().insert(e).contains(x) by {
            if r.to_set().contains(x) {
                let u = choose|u: int| 0 <= u < r.len() && r[u] == x;
                if u > 0 {
                    assert(rt[u - 1] == x);
                    assert(rt.to_set().contains(x));
                    if x != e {
                        assert(t.to_set().contains(x));
                        let v = choose|v: int| 0 <= v < t.len() && t[v] == x;
                        assert(s[v + 1] == x);
                    }
                }
            }
            if s.to_set().contains(x) {
                let u = choose|u: int| 0 <= u < s.len() && s[u] == x;
                if u == 0 {
                    assert(r[0] == x);
                } else {
                    assert(t[u - 1] == x);
                    assert(t.to_set().contains(x));
                    assert(rt.to_set().contains(x));
                    let v = choose|v: int| 0 <= v < rt.len() && rt[v] == x;
                    assert(r[v + 1] == x);
                }
            }
            if x == e {
                assert(rt.to_set().contains(e));
                let v = choose|v: int| 0 <= v < rt.len() && rt[v] == x;
                assert(r[v + 1] == x);
            }
        }
        assert(r.to_set() =~= s.to_set().insert(e));
        assert forall|i: int| 0 <= i < r.len() implies (#[trigger] r[i]).0 == e.0 || s.to_set().contains(r[i]) by {
            if i == 0 {
                assert(s.to_set().contains(s[0]));
            } else {
                assert(r[i] == rt[i - 1]);
                if rt[i - 1].0 != e.0 {
                    assert(t.to_set().contains(rt[i - 1]));
                    let v = choose|v: int| 0 <= v < t.len() && t[v] == rt[i - 1];
                    assert(s[v + 1] == t[v]);
                }
            }
        }
    }
}

/// The dependency pairs in key order, built one declaration at a time.
pub open spec fn sorted_witness(decls: Seq<Seq<char>>, m: Map<Seq<char>, Seq<char>>) -> Seq<(Seq<char>, Seq<char>)>
    decreases decls.len(),
{
    if decls.len() == 0 {
        Seq::empty()
    } else {
        let w0 = sorted_witness(decls.drop_last(), m);
        let t = target_of(decls.last());
        if m.contains_key(t) {
            insert_by_key(w0, (t, m[t]))
        } else {
            w0
        }
    }
}

proof fn lemma_witness(decls: Seq<Seq<char>>, m: Map<Seq<char>, Seq<char>>)
    ensures
        sorted_by_key(sorted_witness(decls, m)),
        sorted_witness(decls, m).to_set() == dep_entries(decls, m),
    decreases decls.len(),
{
    if decls.len() == 0 {
        assert(dep_entries(decls, m) =~= Set::<(Seq<char>, Seq<char>)>::empty());
        assert(sorted_witness(decls, m).to_set() =~= Set::<(Seq<char>, Seq<char>)>::empty());
    } else {
        let d0 = decls.drop_last();
        lemma_witness(d0, m);
        let w0 = sorted_witness(d0, m);
        let t = target_of(decls.last());
        let prev = dep_entries(d0, m);
        assert forall|e: (Seq<char>, Seq<char>)| #[trigger] dep_entries(decls, m).contains(e) <==> prev.contains(e) || (m.contains_key(t) && e == (t, m[t])) by {
            if dep_entries(decls, m).contains(e) {
                let i = choose|i: int| 0 <= i < decls.len() && target_of(#[trigger] decls[i]) == e.0 && m.contains_key(e.0) && m[e.0] == e.1;
                if i < d0.len() {
                    assert(d0[i] == decls[i]);
                }
            }
            if prev.contains(e) {
                let i = choose|i: int| 0 <= i < d0.len() && target_of(#[trigger] d0[i]) == e.0 && m.contains_key(e.0) && m[e.0] == e.1;
                assert(decls[i] == d0[i]);
            }
            if m.contains_key(t) && e == (t, m[t]) {
                assert(target_of(decls[decls.len() - 1]) == e.0);
            }
        }
        if m.contains_key(t) {
            assert forall|i: int| 0 <= i < w0.len() && (#[trigger] w0[i]).0 == t implies w0[i].1 == m[t] by {
                assert(w0.to_set().contains(w0[i]));
            }
            lemma_insert_by_key(w0, (t, m[t]));
            assert(sorted_witness(decls, m).to_set() =~= dep_entries(decls, m));
        } else {
            assert(sorted_witness(decls, m).to_set() =~= dep_entries(decls, m));
        }
    }
}

proof fn lemma_flat_entries_injective(a: Seq<(Seq<char>, Seq<char>)>, b: Seq<(Seq<char>, Seq<char>)>)
    requires
        flat_entries(a) == flat_entries(b),
    ensures
        a == b,
    decreases a.len(),
{
    lemma_flat_len(a);
    lemma_flat_len(b);
    if a.len() > 0 {
        let fa = flat_entries(a);
        assert(fa[fa.len() - 2] == a.last().0 && fa[fa.len() - 1] == a.last().1);
        assert(fa[fa.len() - 2] == b.last().0 && fa[fa.len() - 1] == b.last().1);
        assert(flat_entries(a.drop_last()) =~= fa.subrange(0, fa.len() - 2));
        assert(flat_entries(b.drop_last()) =~= fa.subrange(0, fa.len() - 2));
        lemma_flat_entries_injective(a.drop_last(), b.drop_last());
        assert(a =~= a.drop_last().push(a.last()));
        assert(b =~= b.drop_last().push(b.last()));
    } else {
        assert(a =~= b);
    }
}

proof fn lemma_flat_len(a: Seq<(Seq<char>, Seq<char>)>)
    ensures
        flat_entries(a).len() == 2 * a.len(),
    decreases a.len(),
{
    if a.len() > 0 {
        lemma_flat_len(a.drop_last());
    }
}

/// A different build hash of a declared dependency gives a different hashed
/// text: a change reaches every direct dependent.
pub proof fn law_hash_text_follows_dependency_hash(
    key: Seq<char>,
    shash: Seq<char>,
    decls: Seq<Seq<char>>,
    m1: Map<Seq<char>, Seq<char>>,
    m2: Map<Seq<char>, Seq<char>>,
    t: Seq<char>,
    params: Seq<Seq<char>>,
)
    requires
        declares(decls, t),
        m1.contains_key(t),
        m2.contains_key(t),
        m1[t] != m2[t],
    ensures
        hash_text(key, shash, decls, m1, params) != hash_text(key, shash, decls, m2, params),
{
    lemma_witness(decls, m1);
    lemma_witness(decls, m2);
    let e1 = dep_entries(decls, m1);
    let e2 = dep_entries(decls, m2);
    let l1 = sorted_entries(e1);
    let l2 = sorted_entries(e2);
    assert(sorted_by_key(l1) && l1.to_set() == e1) by {
        assert(sorted_by_key(sorted_witness(decls, m1)) && sorted_witness(decls, m1).to_set() == e1);
    }
    assert(sorted_by_key(l2) && l2.to_set() == e2) by {
        assert(sorted_by_key(sorted_witness(decls, m2)) && sorted_witness(decls, m2).to_set() == e2);
    }
    let i = choose|i: int| 0 <= i < decls.len() && target_of(#[trigger] decls[i]) == t;
    assert(e1.contains((t, m1[t])));
    assert(!e2.contains((t, m1[t])));
    if hash_text(key, shash, decls, m1, params) == hash_text(key, shash, decls, m2, params) {
        let f1 = flat_entries(l1);
        let f2 = flat_entries(l2);
        let x1 = bracketed(params);
        assert(hash_text(key, shash, decls, m1, params) =~= quoted(key) + (quoted(shash) + (bracketed(f1) + x1)));
        assert(hash_text(key, shash, decls, m2, params) =~= quoted(key) + (quoted(shash) + (bracketed(f2) + x1)));
        lemma_quoted_prefix(key, key, quoted(shash) + (bracketed(f1) + x1), quoted(shash) + (bracketed(f2) + x1));
        lemma_quoted_prefix(shash, shash, bracketed(f1) + x1, bracketed(f2) + x1);
        lemma_bracketed_prefix(f1, f2, x1, x1);
        lemma_flat_entries_injective(l1, l2);
    }
}

/// The digest gives one value to two different texts.
pub open spec fn digest_collides() -> bool {
    exists|x: Seq<char>, y: Seq<char>| x != y && sha256_hex(x) == sha256_hex(y)
}

/// Different content hashes give different hashed texts, whatever follows.
proof fn lemma_text_differs_by_source(
    key: Seq<char>,
    s1: Seq<char>,
    s2: Seq<char>,
    decls: Seq<Seq<char>>,
    m1: Map<Seq<char>, Seq<char>>,
    m2: Map<Seq<char>, Seq<char>>,
    params: Seq<Seq<char>>,
)
    requires
        s1 != s2,
    ensures
        hash_text(key, s1, decls, m1, params) != hash_text(key, s2, decls, m2, params),
{
    let r1 = bracketed(flat_entries(sorted_entries(dep_entries(decls, m1)))) + bracketed(params);
    let r2 = bracketed(flat_entries(sorted_entries(dep_entries(decls, m2)))) + bracketed(params);
    if hash_text(key, s1, decls, m1, params) == hash_text(key, s2, decls, m2, params) {
        assert(hash_text(key, s1, decls, m1, params) =~= quoted(key) + (quoted(s1) + r1));
        assert(hash_text(key, s2, decls, m2, params) =~= quoted(key) + (quoted(s2) + r2));
        lemma_quoted_prefix(key, key, quoted(s1) + r1, quoted(s2) + r2);
        lemma_quoted_prefix(s1, s2, r1, r2);
    }
}

/// A changed content hash reaches every source that depends on it, directly
/// or not: along any dependency path from `p[0]` to the changed source, the
/// build hash of `p[0]` differs between the two consistent results, unless
/// the digest collides on two different texts.
pub proof fn law_source_change_reaches_dependents(
    tree: &SpecTree,
    sh1: Map<Seq<char>, Seq<char>>,
    sh2: Map<Seq<char>, Seq<char>>,
    m1: Map<Seq<char>, Seq<char>>,
    m2: Map<Seq<char>, Seq<char>>,
    p: Seq<Seq<char>>,
)
    requires
        tree.is_path(p),
        hashes_consistent(tree, sh1, m1),
        hashes_consistent(tree, sh2, m2),
        m1.contains_key(p[0]),
        m2.contains_key(p[0]),
        sh1[p.last()] != sh2[p.last()],
        forall|i: int| 0 <= i < p.len() - 1 ==> sh1[#[trigger] p[i]] == sh2[p[i]],
    ensures
        m1[p[0]] != m2[p[0]] || digest_collides(),
    decreases p.len(),
{
    let k = p[0];
    let d = tree.decls(k);
    let params = tree.source(k).unwrap().params_view();
    let t1 = hash_text(k, sh1[k], d, m1, params);
    let t2 = hash_text(k, sh2[k], d, m2, params);
    assert(m1[k] == sha256_hex(t1));
    assert(m2[k] == sha256_hex(t2));
    if p.len() == 1 {
        lemma_text_differs_by_source(k, sh1[k], sh2[k], d, m1, m2, params);
    } else {
        let q = p.drop_first();
        assert forall|i: int| 0 <= i < q.len() - 1 implies tree.edge(#[trigger] q[i], q[i + 1]) by {
            assert(q[i] == p[i + 1] && q[i + 1] == p[i + 2]);
        }
        assert(tree.edge(p[0], p[1]));
        let j = choose|j: int| 0 <= j < d.len() && target_of(#[trigger] d[j]) == p[1];
        assert(declares(d, p[1]));
        assert forall|i: int| 0 <= i < q.len() - 1 implies sh1[#[trigger] q[i]] == sh2[q[i]] by {
            assert(q[i] == p[i + 1]);
        }
        assert(q.last() == p.last());
        law_source_change_reaches_dependents(tree, sh1, sh2, m1, m2, q);
        if m1[p[1]] != m2[p[1]] {
            assert(sh1[k] == sh2[k]);
            law_hash_text_follows_dependency_hash(k, sh1[k], d, m1, m2, p[1], params);
        }
    }
    if t1 != t2 && m1[k] == m2[k] {
        assert(digest_collides());
    }
}

} // verus!
