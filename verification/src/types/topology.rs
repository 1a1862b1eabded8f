use vstd::prelude::*;

verus! {

/// The raw, peer-supplied adjacency map: for each node id, the ids of its
/// direct neighbours.  Kept as an association list so that every lookup has a
/// precise meaning in specifications: the first entry whose key matches wins.
pub type Topology = Vec<(String, Vec<String>)>;

/// The derived per-source forwarding map: for each peer id `p`, the
/// neighbours a broadcast must be forwarded to when its immediate sender
/// was `p`.
pub type BroadcastTopology = Vec<(String, Vec<String>)>;

/// True when some entry of `t` has key `k`.
pub open spec fn topo_has_key(t: Seq<(String, Vec<String>)>, k: Seq<char>) -> bool {
    exists|i: int| 0 <= i < t.len() && t[i].0@ == k
}

/// The index of the first entry of `t` whose key is `k`.
pub open spec fn topo_index_of(t: Seq<(String, Vec<String>)>, k: Seq<char>) -> int
    decreases t.len(),
{
    if t.len() == 0 {
        0
    } else if t[0].0@ == k {
        0
    } else {
        1 + topo_index_of(t.drop_first(), k)
    }
}

/// The neighbour list recorded for `k`: the first entry whose key is `k`,
/// or the empty sequence when there is none.  A node that the adjacency map
/// does not mention simply has no neighbours.
pub open spec fn topo_adj(t: Seq<(String, Vec<String>)>, k: Seq<char>) -> Seq<String> {
    if topo_has_key(t, k) {
        t[topo_index_of(t, k)].1@
    } else {
        Seq::empty()
    }
}

/// The index of the first entry of `t` whose key is `k` points at an entry
/// with that key, and no earlier entry has it.
pub proof fn lemma_topo_index_of(t: Seq<(String, Vec<String>)>, k: Seq<char>)
    requires
        topo_has_key(t, k),
    ensures
        0 <= topo_index_of(t, k) < t.len(),
        t[topo_index_of(t, k)].0@ == k,
        forall|j: int| 0 <= j < topo_index_of(t, k) ==> t[j].0@ != k,
    decreases t.len(),
{
    if t.len() == 0 {
    } else if t[0].0@ == k {
    } else {
        assert(topo_has_key(t.drop_first(), k)) by {
            let i = choose|i: int| 0 <= i < t.len() && t[i].0@ == k;
            assert(t.drop_first()[i - 1].0@ == k);
        }
        lemma_topo_index_of(t.drop_first(), k);
        assert forall|j: int| 0 <= j < topo_index_of(t, k) implies t[j].0@ != k by {
            if j > 0 {
                assert(t.drop_first()[j - 1] == t[j]);
            }
        }
    }
}

/// The index of the first entry of `t` whose key is `key`, if any.
pub fn topo_find(t: &Vec<(String, Vec<String>)>, key: &String) -> (r: Option<usize>)
    ensures
        match r {
            Some(i) => topo_has_key(t@, key@) && i == topo_index_of(t@, key@) && i < t@.len()
                && t@[i as int].0@ == key@,
            None => !topo_has_key(t@, key@),
        },
{
    let mut i: usize = 0;
    while i < t.len()
        invariant
            0 <= i <= t@.len(),
            forall|j: int| 0 <= j < i ==> t@[j].0@ != key@,
        decreases t@.len() - i,
    {
        let pair = &t[i];
        if pair.0 == *key {
            proof {
                lemma_topo_index_of(t@, key@);
            }
            return Some(i);
        }
        i = i + 1;
    }
    None
}

/// The neighbour list recorded for `key`, cloned; a node the map does not
/// mention has no neighbours.
pub fn topo_lookup(t: &Vec<(String, Vec<String>)>, key: &String) -> (r: Option<Vec<String>>)
    ensures
        match r {
            Some(v) => topo_has_key(t@, key@) && v@ =~= topo_adj(t@, key@),
            None => !topo_has_key(t@, key@),
        },
{
    match topo_find(t, key) {
        Some(i) => Some(crate::types::helpers::clone_string_vec(&t[i].1)),
        None => None,
    }
}

} // verus!
