use vstd::prelude::*;

use crate::types::topology::{BroadcastTopology, Topology};

verus! {

/// True when `c` is a decimal digit.
pub open spec fn is_digit_char(c: char) -> bool {
    48 <= c as u32 <= 57
}

/// The value of one decimal digit.
pub open spec fn digit_val(c: char) -> nat {
    (c as u32 - 48) as nat
}

/// True when every character of `s` is a decimal digit.
pub open spec fn all_digits(s: Seq<char>) -> bool {
    forall|i: int| 0 <= i < s.len() ==> is_digit_char(s[i])
}

/// The number written by the digit string `s`, most significant digit first.
pub open spec fn digits_val(s: Seq<char>) -> nat
    decreases s.len(),
{
    if s.len() == 0 {
        0
    } else {
        digits_val(s.drop_last()) * 10 + digit_val(s.last())
    }
}

/// The node number of a node id: the value of the digits after the class
/// character.  An id whose suffix is empty, contains a non-digit, or does
/// not fit in a `usize` counts as node number 0.
pub open spec fn node_suffix_num(id: Seq<char>) -> nat {
    if id.len() == 0 {
        0
    } else {
        let s = id.skip(1);
        if s.len() > 0 && all_digits(s) && digits_val(s) <= usize::MAX as nat {
            digits_val(s)
        } else {
            0
        }
    }
}

/// The globally agreed order on node ids: numeric order of the suffix.
pub open spec fn node_id_lt(a: Seq<char>, b: Seq<char>) -> bool {
    node_suffix_num(a) < node_suffix_num(b)
}

/// Appending digits never shrinks the value of a digit string.
proof fn lemma_digits_val_prefix_le(s: Seq<char>, i: int)
    requires
        0 <= i <= s.len(),
    ensures
        digits_val(s.take(i)) <= digits_val(s),
    decreases s.len() - i,
{
    if i == s.len() {
        assert(s.take(i) =~= s);
    } else {
        lemma_digits_val_prefix_le(s, i + 1);
        assert(s.take(i + 1).drop_last() =~= s.take(i));
        assert(digits_val(s.take(i + 1)) == digits_val(s.take(i)) * 10 + digit_val(
            s.take(i + 1).last(),
        ));
    }
}

/// The node number of a node id, read from the characters after the first.
/// Mirrors `node_suffix_num`: a suffix that is empty, holds a non-digit or
/// overflows a `usize` yields 0.
pub fn parse_node_number(id: &str) -> (n: usize)
    ensures
        n == node_suffix_num(id@),
{
    let len = id.unicode_len();
    if len == 0 {
        return 0;
    }
    if len == 1 {
        assert(id@.skip(1).len() == 0);
        return 0;
    }
    let mut acc: usize = 0;
    let mut i: usize = 1;
    while i < len
        invariant
            1 <= i <= len,
            len == id@.len(),
            all_digits(id@.subrange(1, i as int)),
            acc == digits_val(id@.subrange(1, i as int)),
        decreases len - i,
    {
        let c = id.get_char(i);
        let d = c as u32;
        if d < 48 || d > 57 {
            assert(!all_digits(id@.skip(1))) by {
                assert(id@.skip(1)[i - 1] == id@[i as int]);
            }
            return 0;
        }
        let ghost pre = id@.subrange(1, i as int);
        let digit = (d - 48) as usize;
        let next = match acc.checked_mul(10) {
            Some(m) => m.checked_add(digit),
            None => None,
        };
        match next {
            Some(v) => {
                acc = v;
                i = i + 1;
                proof {
                    assert(id@.subrange(1, i as int).drop_last() =~= pre);
                    assert(id@.subrange(1, i as int).last() == id@[i - 1]);
                }
            },
            None => {
                // The digits seen so far already exceed `usize::MAX`, so the
                // whole suffix does, whatever follows; such an id counts 0.
                assert(digits_val(pre) * 10 + digit_val(id@[i as int]) > usize::MAX as nat);
                proof {
                    if all_digits(id@.skip(1)) {
                        let s = id@.skip(1);
                        lemma_digits_val_prefix_le(s, i as int);
                        assert(s.take(i as int) =~= id@.subrange(1, i as int).push(id@[i as int]).drop_last().push(
                            id@[i as int],
                        ));
                        assert(s.take(i as int).drop_last() =~= pre);
                        assert(digits_val(s.take(i as int)) == digits_val(pre) * 10 + digit_val(
                            s.take(i as int).last(),
                        ));
                        assert(s.take(i as int).last() == id@[i as int]);
                    }
                }
                return 0;
            },
        }
    }
    proof {
        assert(id@.subrange(1, len as int) =~= id@.skip(1));
    }
    acc
}

/// True when the id has a class character followed by a digit suffix that
/// fits a `usize`: the ids whose node number is meaningful.
pub open spec fn valid_node_id_num(id: Seq<char>) -> bool {
    id.len() >= 2 && all_digits(id.skip(1)) && digits_val(id.skip(1)) <= usize::MAX as nat
}

/// The node number of a node id, or nothing when the suffix is empty, has
/// a non-digit, or overflows.
pub fn parse_node_number_checked(id: &str) -> (r: Option<usize>)
    ensures
        r is Some <==> valid_node_id_num(id@),
        r is Some ==> r->0 == node_suffix_num(id@),
{
    let len = id.unicode_len();
    if len < 2 {
        return None;
    }
    let mut acc: usize = 0;
    let mut i: usize = 1;
    while i < len
        invariant
            1 <= i <= len,
            len == id@.len(),
            2 <= len,
            all_digits(id@.subrange(1, i as int)),
            acc == digits_val(id@.subrange(1, i as int)),
        decreases len - i,
    {
        let c = id.get_char(i);
        let d = c as u32;
        if d < 48 || d > 57 {
            assert(!all_digits(id@.skip(1))) by {
                assert(id@.skip(1)[i - 1] == id@[i as int]);
            }
            return None;
        }
        let ghost pre = id@.subrange(1, i as int);
        let digit = (d - 48) as usize;
        let next = match acc.checked_mul(10) {
            Some(m) => m.checked_add(digit),
            None => None,
        };
        match next {
            Some(v) => {
                acc = v;
                i = i + 1;
                proof {
                    assert(id@.subrange(1, i as int).drop_last() =~= pre);
                    assert(id@.subrange(1, i as int).last() == id@[i - 1]);
                }
            },
            None => {
                proof {
                    if all_digits(id@.skip(1)) {
                        let s = id@.skip(1);
                        lemma_digits_val_prefix_le(s, i as int);
                        assert(s.take(i as int).drop_last() =~= pre);
                        assert(digits_val(s.take(i as int)) == digits_val(pre) * 10 + digit_val(
                            s.take(i as int).last(),
                        ));
                        assert(s.take(i as int).last() == id@[i as int]);
                    }
                }
                return None;
            },
        }
    }
    proof {
        assert(id@.subrange(1, len as int) =~= id@.skip(1));
    }
    Some(acc)
}

/// True when the id names a client: its first character is `c`.
pub open spec fn is_client_id(s: Seq<char>) -> bool {
    s.len() > 0 && s[0] == 'c'
}

/// True when the id names a server node: its first character is `n`.
pub open spec fn is_server_id(s: Seq<char>) -> bool {
    s.len() > 0 && s[0] == 'n'
}

/// Whether the id's first character is `class`.
pub fn id_has_class(id: &str, class: char) -> (r: bool)
    ensures
        r == (id@.len() > 0 && id@[0] == class),
{
    if id.unicode_len() == 0 {
        false
    } else {
        let c = id.get_char(0);
        c as u32 == class as u32
    }
}

/// Whether `id1` orders strictly before `id2`: numeric order of the digit
/// suffixes, with an unparseable suffix counting 0.
pub fn is_lower_node_id(id1: &str, id2: &str) -> (r: bool)
    ensures
        r == node_id_lt(id1@, id2@),
{
    let n1 = parse_node_number(id1);
    let n2 = parse_node_number(id2);
    n1 < n2
}

/// On ids with the same class character and in-range digit suffixes, the
/// node-id order is exactly the numeric order of the suffixes.
pub proof fn lemma_node_id_order_numeric(p: char, a: Seq<char>, b: Seq<char>)
    requires
        a.len() > 0,
        b.len() > 0,
        all_digits(a),
        all_digits(b),
        digits_val(a) <= usize::MAX as nat,
        digits_val(b) <= usize::MAX as nat,
    ensures
        node_id_lt(seq![p] + a, seq![p] + b) <==> digits_val(a) < digits_val(b),
{
    assert((seq![p] + a).skip(1) =~= a);
    assert((seq![p] + b).skip(1) =~= b);
}

/// An element-wise copy of a vector of strings, equal to it in every view.
pub fn clone_string_vec(v: &Vec<String>) -> (r: Vec<String>)
    ensures
        r@ == v@,
{
    let mut r: Vec<String> = Vec::new();
    let mut i: usize = 0;
    while i < v.len()
        invariant
            0 <= i <= v@.len(),
            r@.len() == i,
            forall|j: int| 0 <= j < i ==> r@[j] == v@[j],
        decreases v@.len() - i,
    {
        r.push(v[i].clone());
        i = i + 1;
    }
    proof {
        assert(r@ =~= v@);
    }
    r
}

/// An element-wise copy of an adjacency list, equal to it in its deep view:
/// the same keys and the same neighbour lists, character for character.
pub fn clone_adjacency(v: &Vec<(String, Vec<String>)>) -> (r: Vec<(String, Vec<String>)>)
    ensures
        r.deep_view() == v.deep_view(),
        r@.len() == v@.len(),
        forall|j: int|
            #![auto]
            0 <= j < v@.len() ==> r@[j].0@ == v@[j].0@ && r@[j].1@ == v@[j].1@,
{
    let mut r: Vec<(String, Vec<String>)> = Vec::new();
    let mut i: usize = 0;
    while i < v.len()
        invariant
            0 <= i <= v@.len(),
            r@.len() == i,
            forall|j: int|
                #![auto]
                0 <= j < i ==> r@[j].0@ == v@[j].0@ && r@[j].1@ == v@[j].1@,
        decreases v@.len() - i,
    {
        let pair = &v[i];
        r.push((pair.0.clone(), clone_string_vec(&pair.1)));
        i = i + 1;
    }
    proof {
        assert(r.deep_view() =~= v.deep_view());
    }
    r
}

/// An element-wise copy of a vector of integers.
pub fn clone_usize_vec(v: &Vec<usize>) -> (r: Vec<usize>)
    ensures
        r@ == v@,
{
    let mut r: Vec<usize> = Vec::new();
    let mut i: usize = 0;
    while i < v.len()
        invariant
            0 <= i <= v@.len(),
            r@.len() == i,
            forall|j: int| 0 <= j < i ==> r@[j] == v@[j],
        decreases v@.len() - i,
    {
        r.push(v[i]);
        i = i + 1;
    }
    proof {
        assert(r@ =~= v@);
    }
    r
}

/// The node-id order is a strict total order: irreflexive, transitive, and
/// any two ids are related one way, the other way, or have equal numbers.
pub proof fn lemma_node_id_order_total(a: Seq<char>, b: Seq<char>, c: Seq<char>)
    ensures
        !node_id_lt(a, a),
        node_id_lt(a, b) && node_id_lt(b, c) ==> node_id_lt(a, c),
        node_id_lt(a, b) ==> !node_id_lt(b, a),
        !node_id_lt(a, b) && !node_id_lt(b, a) ==> node_suffix_num(a) == node_suffix_num(b),
{
}

/// The views of a sequence of node ids, as a set.
pub open spec fn sset(s: Seq<String>) -> Set<Seq<char>> {
    s.map_values(|x: String| x@).to_set()
}

/// Pairwise distinct views: the sequence represents a set without
/// repetition.
pub open spec fn distinct_views(s: Seq<String>) -> bool {
    forall|i: int, j: int| 0 <= i < j < s.len() ==> s[i]@ != s[j]@
}

/// Membership in the view set is existence of an element with that view.
pub proof fn lemma_sset_contains(s: Seq<String>, k: Seq<char>)
    ensures
        sset(s).contains(k) <==> exists|i: int| 0 <= i < s.len() && s[i]@ == k,
{
    let m = s.map_values(|x: String| x@);
    if sset(s).contains(k) {
        let i = choose|i: int| 0 <= i < m.len() && m[i] == k;
        assert(s[i]@ == k);
    }
    if exists|i: int| 0 <= i < s.len() && s[i]@ == k {
        let i = choose|i: int| 0 <= i < s.len() && s[i]@ == k;
        assert(m[i] == k);
        assert(m.contains(k));
    }
}

/// Appending one id inserts its view into the view set.
pub proof fn lemma_sset_push(s: Seq<String>, x: String)
    ensures
        sset(s.push(x)) == sset(s).insert(x@),
{
    let a = sset(s.push(x));
    let b = sset(s).insert(x@);
    assert forall|k: Seq<char>| a.contains(k) implies b.contains(k) by {
        lemma_sset_contains(s.push(x), k);
        let i = choose|i: int| 0 <= i < s.push(x).len() && s.push(x)[i]@ == k;
        if i < s.len() {
            lemma_sset_contains(s, k);
        }
    }
    assert forall|k: Seq<char>| b.contains(k) implies a.contains(k) by {
        if k == x@ {
            assert(s.push(x)[s.len() as int]@ == k);
        } else {
            lemma_sset_contains(s, k);
            let i = choose|i: int| 0 <= i < s.len() && s[i]@ == k;
            assert(s.push(x)[i]@ == k);
        }
        lemma_sset_contains(s.push(x), k);
    }
    assert(a =~= b);
}

/// A set of id views is always finite.
pub proof fn lemma_sset_finite(s: Seq<String>)
    ensures
        sset(s).finite(),
        distinct_views(s) ==> sset(s).len() == s.len(),
        sset(s).is_empty() <==> s.len() == 0,
{
    broadcast use vstd::seq_lib::seq_to_set_is_finite;

    let m = s.map_values(|x: String| x@);
    if distinct_views(s) {
        assert(m.no_duplicates());
        m.unique_seq_to_set();
    }
    if s.len() == 0 {
        assert(sset(s) =~= Set::<Seq<char>>::empty());
    } else {
        assert(m[0] == s[0]@);
        assert(m.contains(s[0]@));
        assert(sset(s).contains(s[0]@));
    }
}

/// The neighbour set recorded for `n`.
pub open spec fn adj_set(t: Seq<(String, Vec<String>)>, n: Seq<char>) -> Set<Seq<char>> {
    sset(crate::types::topology::topo_adj(t, n))
}

/// Every id any adjacency list mentions.
pub open spec fn topo_univ(t: Seq<(String, Vec<String>)>) -> Set<Seq<char>>
    decreases t.len(),
{
    if t.len() == 0 {
        Set::empty()
    } else {
        sset(t[0].1@).union(topo_univ(t.drop_first()))
    }
}

/// The universe of an adjacency map is finite and contains every entry's
/// list.
pub proof fn lemma_topo_univ(t: Seq<(String, Vec<String>)>)
    ensures
        topo_univ(t).finite(),
        forall|i: int| 0 <= i < t.len() ==> sset(#[trigger] t[i].1@).subset_of(topo_univ(t)),
    decreases t.len(),
{
    broadcast use vstd::seq_lib::seq_to_set_is_finite;

    if t.len() > 0 {
        lemma_topo_univ(t.drop_first());
        assert forall|i: int| 0 <= i < t.len() implies sset(#[trigger] t[i].1@).subset_of(
            topo_univ(t),
        ) by {
            if i > 0 {
                assert(t.drop_first()[i - 1] == t[i]);
                assert(sset(t[i].1@).subset_of(topo_univ(t.drop_first())));
            }
        }
    }
}

/// The neighbour set of any id lies inside the universe.
pub proof fn lemma_adj_set_in_univ(t: Seq<(String, Vec<String>)>, n: Seq<char>)
    ensures
        adj_set(t, n).subset_of(topo_univ(t)),
{
    lemma_topo_univ(t);
    if crate::types::topology::topo_has_key(t, n) {
        crate::types::topology::lemma_topo_index_of(t, n);
    } else {
        assert(adj_set(t, n) =~= Set::<Seq<char>>::empty()) by {
            assert forall|k: Seq<char>| adj_set(t, n).contains(k) implies false by {
                lemma_sset_contains(Seq::<String>::empty(), k);
            }
        }
    }
}

/// One exploration wavefront: every id adjacent to a member of `stack`.
/// When `filtered` holds, only members ordering strictly below `own`
/// expand; the others are in the frontier but contribute no successors.
pub open spec fn frontier_succ(
    t: Seq<(String, Vec<String>)>,
    stack: Set<Seq<char>>,
    own: Seq<char>,
    filtered: bool,
) -> Set<Seq<char>> {
    Set::new(
        |m: Seq<char>|
            exists|n: Seq<char>|
                stack.contains(n) && (filtered ==> node_id_lt(n, own)) && #[trigger] adj_set(
                    t,
                    n,
                ).contains(m),
    )
}

/// Growing the wavefront by one id adds exactly that id's neighbours, or
/// nothing when the filter excludes it.
pub proof fn lemma_frontier_succ_insert(
    t: Seq<(String, Vec<String>)>,
    stack: Set<Seq<char>>,
    n: Seq<char>,
    own: Seq<char>,
    filtered: bool,
)
    ensures
        (!filtered || node_id_lt(n, own)) ==> frontier_succ(t, stack.insert(n), own, filtered)
            == frontier_succ(t, stack, own, filtered).union(adj_set(t, n)),
        (filtered && !node_id_lt(n, own)) ==> frontier_succ(t, stack.insert(n), own, filtered)
            == frontier_succ(t, stack, own, filtered),
{
    if !filtered || node_id_lt(n, own) {
        assert(frontier_succ(t, stack.insert(n), own, filtered) =~= frontier_succ(
            t,
            stack,
            own,
            filtered,
        ).union(adj_set(t, n))) by {
            assert forall|m: Seq<char>|
                frontier_succ(t, stack, own, filtered).union(adj_set(t, n)).contains(m) implies
                frontier_succ(t, stack.insert(n), own, filtered).contains(m) by {
                if adj_set(t, n).contains(m) {
                    assert(stack.insert(n).contains(n));
                } else {
                    let w = choose|w: Seq<char>|
                        stack.contains(w) && (filtered ==> node_id_lt(w, own)) && #[trigger] adj_set(
                            t,
                            w,
                        ).contains(m);
                    assert(stack.insert(n).contains(w));
                }
            }
        }
    } else {
        assert(frontier_succ(t, stack.insert(n), own, filtered) =~= frontier_succ(
            t,
            stack,
            own,
            filtered,
        )) by {
            assert forall|m: Seq<char>|
                frontier_succ(t, stack.insert(n), own, filtered).contains(m) implies frontier_succ(
                t,
                stack,
                own,
                filtered,
            ).contains(m) by {
                let w = choose|w: Seq<char>|
                    stack.insert(n).contains(w) && (filtered ==> node_id_lt(w, own))
                        && #[trigger] adj_set(t, w).contains(m);
                assert(stack.contains(w));
            }
        }
    }
}

/// The wavefront's successors lie inside the universe, so they form a
/// finite set.
pub proof fn lemma_frontier_succ_finite(
    t: Seq<(String, Vec<String>)>,
    stack: Set<Seq<char>>,
    own: Seq<char>,
    filtered: bool,
)
    ensures
        frontier_succ(t, stack, own, filtered).finite(),
        frontier_succ(t, stack, own, filtered).subset_of(topo_univ(t)),
{
    lemma_topo_univ(t);
    assert forall|m: Seq<char>| frontier_succ(t, stack, own, filtered).contains(m) implies topo_univ(
        t,
    ).contains(m) by {
        let n = choose|n: Seq<char>|
            stack.contains(n) && (filtered ==> node_id_lt(n, own)) && #[trigger] adj_set(
                t,
                n,
            ).contains(m);
        lemma_adj_set_in_univ(t, n);
    }
    vstd::set_lib::lemma_len_subset(
        frontier_succ(t, stack, own, filtered),
        topo_univ(t),
    );
}

/// The residual forwarding candidates of a breadth-first exploration, as
/// the reducer's loop computes them: starting from `stack`, wavefronts
/// expand until everything is visited, the wavefront dies out, or no
/// candidate is left; every id a wavefront reaches without going through
/// this node stops being a candidate.  The wavefront that contains this
/// node itself is the last one, and only its members below this node in the
/// id order expand: a smaller peer will forward in our place, a larger one
/// will not.
pub open spec fn bfs_candidates(
    t: Seq<(String, Vec<String>)>,
    own: Seq<char>,
    num_nodes: nat,
    visited: Set<Seq<char>>,
    stack: Set<Seq<char>>,
    cand: Set<Seq<char>>,
) -> Set<Seq<char>>
    decreases
            (if visited.len() <= num_nodes {
                (num_nodes - visited.len()) as nat
            } else {
                0nat
            }),
            (if stack.subset_of(visited) {
                1nat
            } else {
                0nat
            }),
        when visited.finite() && stack.finite()
{
    if visited.len() >= num_nodes || stack.is_empty() || cand.is_empty() {
        cand
    } else if stack.contains(own) {
        cand.difference(frontier_succ(t, stack, own, true).difference(visited))
    } else {
        let temp = frontier_succ(t, stack, own, false).difference(visited);
        if temp.is_empty() {
            cand
        } else {
            proof {
                lemma_frontier_succ_finite(t, stack, own, false);
                if !stack.subset_of(visited) {
                    let x = choose|x: Seq<char>| stack.contains(x) && !visited.contains(x);
                    vstd::set_lib::lemma_len_subset(visited.insert(x), visited.union(stack));
                } else {
                    assert(visited.union(stack) =~= visited);
                    let y = temp.choose();
                    assert(temp.contains(y));
                    assert(!temp.subset_of(visited));
                }
            }
            bfs_candidates(
                t,
                own,
                num_nodes,
                visited.union(stack),
                temp,
                cand.difference(temp),
            )
        }
    }
}

/// True when some id in `v` has view `x@`.
fn sv_contains(v: &Vec<String>, x: &String) -> (r: bool)
    ensures
        r == sset(v@).contains(x@),
{
    let mut i: usize = 0;
    while i < v.len()
        invariant
            0 <= i <= v@.len(),
            forall|j: int| 0 <= j < i ==> v@[j]@ != x@,
        decreases v@.len() - i,
    {
        if v[i] == *x {
            proof {
                lemma_sset_contains(v@, x@);
            }
            return true;
        }
        i = i + 1;
    }
    proof {
        lemma_sset_contains(v@, x@);
    }
    false
}

/// Add one id to a duplicate-free vector unless its view is already there.
fn sv_insert(v: &mut Vec<String>, x: &String)
    requires
        distinct_views(old(v)@),
    ensures
        distinct_views(final(v)@),
        sset(final(v)@) == sset(old(v)@).insert(x@),
{
    let ghost pre = v@;
    if !sv_contains(v, x) {
        v.push(x.clone());
        proof {
            lemma_sset_push(pre, v@.last());
            assert(v@.drop_last() =~= pre);
            assert(v@ =~= pre.push(v@.last()));
            lemma_sset_contains(pre, x@);
        }
    } else {
        proof {
            assert(sset(pre).insert(x@) =~= sset(pre));
        }
    }
}

/// The ids of `a` whose views `b` does not hold.
fn sv_diff(a: &Vec<String>, b: &Vec<String>) -> (r: Vec<String>)
    requires
        distinct_views(a@),
    ensures
        distinct_views(r@),
        sset(r@) == sset(a@).difference(sset(b@)),
{
    let mut r: Vec<String> = Vec::new();
    let mut i: usize = 0;
    proof {
        assert(sset(Seq::<String>::empty()) =~= Set::<Seq<char>>::empty());
        assert(sset(a@.subrange(0, 0)) =~= Set::<Seq<char>>::empty()) by {
            lemma_sset_finite(a@.subrange(0, 0));
        }
    }
    while i < a.len()
        invariant
            0 <= i <= a@.len(),
            distinct_views(a@),
            distinct_views(r@),
            sset(r@) == sset(a@.subrange(0, i as int)).difference(sset(b@)),
        decreases a@.len() - i,
    {
        let ghost pre = r@;
        let ghost prefix = a@.subrange(0, i as int);
        proof {
            assert(a@.subrange(0, i + 1) =~= prefix.push(a@[i as int]));
            lemma_sset_push(prefix, a@[i as int]);
            lemma_sset_contains(prefix, a@[i as int]@);
        }
        if !sv_contains(b, &a[i]) {
            proof {
                lemma_sset_contains(r@, a@[i as int]@);
            }
            r.push(a[i].clone());
            proof {
                assert(r@.drop_last() =~= pre);
                assert(r@ =~= pre.push(r@.last()));
                lemma_sset_push(pre, r@.last());
                assert(sset(r@) =~= sset(a@.subrange(0, i + 1)).difference(sset(b@)));
            }
        } else {
            proof {
                assert(sset(r@) =~= sset(a@.subrange(0, i + 1)).difference(sset(b@)));
            }
        }
        i = i + 1;
    }
    proof {
        assert(a@.subrange(0, a@.len() as int) =~= a@);
    }
    r
}

/// Merge every id of `other` into the duplicate-free vector `v`.
fn sv_union_into(v: &mut Vec<String>, other: &Vec<String>)
    requires
        distinct_views(old(v)@),
    ensures
        distinct_views(final(v)@),
        sset(final(v)@) == sset(old(v)@).union(sset(other@)),
{
    let ghost base = v@;
    let mut i: usize = 0;
    proof {
        assert(sset(other@.subrange(0, 0)) =~= Set::<Seq<char>>::empty()) by {
            lemma_sset_finite(other@.subrange(0, 0));
        }
        assert(sset(base).union(sset(other@.subrange(0, 0))) =~= sset(base));
    }
    while i < other.len()
        invariant
            0 <= i <= other@.len(),
            distinct_views(v@),
            sset(v@) == sset(base).union(sset(other@.subrange(0, i as int))),
        decreases other@.len() - i,
    {
        let ghost prefix = other@.subrange(0, i as int);
        sv_insert(v, &other[i]);
        proof {
            assert(other@.subrange(0, i + 1) =~= prefix.push(other@[i as int]));
            lemma_sset_push(prefix, other@[i as int]);
            assert(sset(base).union(sset(prefix)).insert(other@[i as int]@) =~= sset(base).union(
                sset(other@.subrange(0, i + 1)),
            ));
        }
        i = i + 1;
    }
    proof {
        assert(other@.subrange(0, other@.len() as int) =~= other@);
    }
}

/// One wavefront expansion over the adjacency map, deduplicated.
fn expand_frontier(topology: &Vec<(String, Vec<String>)>, stack: &Vec<String>, own: &String, filtered: bool) -> (r: Vec<
    String,
>)
    ensures
        distinct_views(r@),
        sset(r@) == frontier_succ(topology@, sset(stack@), own@, filtered),
{
    let ghost t = topology@;
    let mut r: Vec<String> = Vec::new();
    let mut k: usize = 0;
    proof {
        assert(sset(stack@.subrange(0, 0)) =~= Set::<Seq<char>>::empty()) by {
            lemma_sset_finite(stack@.subrange(0, 0));
        }
        assert(frontier_succ(t, sset(stack@.subrange(0, 0)), own@, filtered)
            =~= Set::<Seq<char>>::empty());
        assert(sset(Seq::<String>::empty()) =~= Set::<Seq<char>>::empty());
    }
    while k < stack.len()
        invariant
            0 <= k <= stack@.len(),
            t == topology@,
            distinct_views(r@),
            sset(r@) == frontier_succ(t, sset(stack@.subrange(0, k as int)), own@, filtered),
        decreases stack@.len() - k,
    {
        let n = &stack[k];
        let ghost prefix_set = sset(stack@.subrange(0, k as int));
        proof {
            assert(stack@.subrange(0, k + 1) =~= stack@.subrange(0, k as int).push(
                stack@[k as int],
            ));
            lemma_sset_push(stack@.subrange(0, k as int), stack@[k as int]);
            lemma_frontier_succ_insert(t, prefix_set, n@, own@, filtered);
        }
        let expand_it = if filtered {
            is_lower_node_id(n.as_str(), own.as_str())
        } else {
            true
        };
        if expand_it {
            match crate::types::topology::topo_find(topology, n) {
                Some(idx) => {
                    let adj = &topology[idx].1;
                    proof {
                        assert(adj@ == crate::types::topology::topo_adj(t, n@));
                    }
                    let ghost before = sset(r@);
                    let mut j: usize = 0;
                    proof {
                        assert(sset(adj@.subrange(0, 0)) =~= Set::<Seq<char>>::empty()) by {
                            lemma_sset_finite(adj@.subrange(0, 0));
                        }
                        assert(before.union(sset(adj@.subrange(0, 0))) =~= before);
                    }
                    while j < adj.len()
                        invariant
                            0 <= j <= adj@.len(),
                            distinct_views(r@),
                            sset(r@) == before.union(sset(adj@.subrange(0, j as int))),
                        decreases adj@.len() - j,
                    {
                        let ghost pj = adj@.subrange(0, j as int);
                        sv_insert(&mut r, &adj[j]);
                        proof {
                            assert(adj@.subrange(0, j + 1) =~= pj.push(adj@[j as int]));
                            lemma_sset_push(pj, adj@[j as int]);
                            assert(before.union(sset(pj)).insert(adj@[j as int]@) =~= before.union(
                                sset(adj@.subrange(0, j + 1)),
                            ));
                        }
                        j = j + 1;
                    }
                    proof {
                        assert(adj@.subrange(0, adj@.len() as int) =~= adj@);
                        assert(sset(r@) =~= frontier_succ(t, prefix_set, own@, filtered).union(
                            adj_set(t, n@),
                        ));
                    }
                },
                None => {
                    proof {
                        assert(adj_set(t, n@) =~= Set::<Seq<char>>::empty()) by {
                            assert forall|m: Seq<char>| adj_set(t, n@).contains(m) implies false by {
                                lemma_sset_contains(Seq::<String>::empty(), m);
                            }
                        }
                        assert(sset(r@) =~= frontier_succ(t, prefix_set, own@, filtered).union(
                            adj_set(t, n@),
                        ));
                    }
                },
            }
        }
        k = k + 1;
    }
    proof {
        assert(stack@.subrange(0, stack@.len() as int) =~= stack@);
    }
    r
}

/// This node's deduplicated neighbour list, leaving out `p`.
fn candidate_vec(topology: &Vec<(String, Vec<String>)>, own: &String, p: &String) -> (r: Vec<
    String,
>)
    ensures
        distinct_views(r@),
        sset(r@) == adj_set(topology@, own@).remove(p@),
{
    let ghost t = topology@;
    let mut r: Vec<String> = Vec::new();
    match crate::types::topology::topo_find(topology, own) {
        Some(idx) => {
            let adj = &topology[idx].1;
            proof {
                assert(adj@ == crate::types::topology::topo_adj(t, own@));
                assert(sset(adj@.subrange(0, 0)) =~= Set::<Seq<char>>::empty()) by {
                    lemma_sset_finite(adj@.subrange(0, 0));
                }
                assert(sset(Seq::<String>::empty()) =~= sset(adj@.subrange(0, 0)).remove(p@));
            }
            let mut j: usize = 0;
            while j < adj.len()
                invariant
                    0 <= j <= adj@.len(),
                    distinct_views(r@),
                    sset(r@) == sset(adj@.subrange(0, j as int)).remove(p@),
                decreases adj@.len() - j,
            {
                let ghost pj = adj@.subrange(0, j as int);
                proof {
                    assert(adj@.subrange(0, j + 1) =~= pj.push(adj@[j as int]));
                    lemma_sset_push(pj, adj@[j as int]);
                }
                if !(adj[j] == *p) {
                    sv_insert(&mut r, &adj[j]);
                    proof {
                        assert(sset(r@) =~= sset(adj@.subrange(0, j + 1)).remove(p@));
                    }
                } else {
                    proof {
                        assert(sset(r@) =~= sset(adj@.subrange(0, j + 1)).remove(p@));
                    }
                }
                j = j + 1;
            }
            proof {
                assert(adj@.subrange(0, adj@.len() as int) =~= adj@);
            }
        },
        None => {
            proof {
                assert(adj_set(t, own@) =~= Set::<Seq<char>>::empty()) by {
                    assert forall|m: Seq<char>| adj_set(t, own@).contains(m) implies false by {
                        lemma_sset_contains(Seq::<String>::empty(), m);
                    }
                }
                assert(sset(Seq::<String>::empty()) =~= adj_set(t, own@).remove(p@));
            }
        },
    }
    r
}

/// The forwarding set the reducer owes for source `p`: this node's own
/// neighbours when the broadcast comes fresh from a client (`p` is this
/// node), otherwise the neighbours that the exploration from `p` does not
/// reach first by another path.
pub open spec fn bcast_entry(
    t: Seq<(String, Vec<String>)>,
    own: Seq<char>,
    num_nodes: nat,
    p: Seq<char>,
) -> Set<Seq<char>> {
    if p == own {
        adj_set(t, own).remove(own)
    } else {
        bfs_candidates(
            t,
            own,
            num_nodes,
            Set::empty(),
            Set::empty().insert(p),
            adj_set(t, own).remove(p),
        )
    }
}

/// The forwarding-map law for the degenerate source: for every reducer
/// input, the entry for this node itself is exactly its direct neighbour
/// set in the adjacency map, less any self-loop.  A broadcast arriving
/// fresh from a client therefore goes to every direct neighbour.
pub proof fn lemma_own_entry_is_neighbour_set(
    t: Seq<(String, Vec<String>)>,
    own: Seq<char>,
    num_nodes: nat,
)
    ensures
        bcast_entry(t, own, num_nodes, own) == adj_set(t, own).remove(own),
{
}

/// Derive the per-source broadcast forwarding map.
///
/// For every id `p` in `all_nodes` the result records, in order, the
/// neighbours of `own_node_id` that it should forward a broadcast to when
/// the broadcast's immediate sender was `p`: its own neighbour set for a
/// fresh broadcast (`p` equal to itself), and otherwise those neighbours
/// that a breadth-first exploration from `p` does not reach first along a
/// path that avoids this node — the tie between equal-length paths going
/// to the node-id order, so that every node prunes consistently without
/// coordination.  A node the adjacency map does not mention has no
/// neighbours.
pub fn build_broadcast_topology(
    own_node_id: &String,
    all_nodes: &Vec<String>,
    topology: &Topology,
) -> (r: BroadcastTopology)
    ensures
        r@.len() == all_nodes@.len(),
        forall|i: int| 0 <= i < r@.len() ==> (#[trigger] r@[i]).0 == all_nodes@[i],
        forall|i: int| 0 <= i < r@.len() ==> distinct_views((#[trigger] r@[i]).1@),
        forall|i: int|
            0 <= i < r@.len() ==> sset((#[trigger] r@[i]).1@) == bcast_entry(
                topology@,
                own_node_id@,
                all_nodes@.len() as nat,
                all_nodes@[i]@,
            ),
{
    let ghost t = topology@;
    let ghost ownv = own_node_id@;
    let num_nodes = all_nodes.len();
    let mut broadcast_topology: BroadcastTopology = Vec::new();
    let mut ni: usize = 0;
    while ni < all_nodes.len()
        invariant
            0 <= ni <= all_nodes@.len(),
            t == topology@,
            ownv == own_node_id@,
            num_nodes == all_nodes@.len(),
            broadcast_topology@.len() == ni,
            forall|i: int|
                0 <= i < ni ==> (#[trigger] broadcast_topology@[i]).0 == all_nodes@[i],
            forall|i: int| 0 <= i < ni ==> distinct_views((#[trigger] broadcast_topology@[i]).1@),
            forall|i: int|
                0 <= i < ni ==> sset((#[trigger] broadcast_topology@[i]).1@) == bcast_entry(
                    t,
                    ownv,
                    all_nodes@.len() as nat,
                    all_nodes@[i]@,
                ),
        decreases all_nodes@.len() - ni,
    {
        let node_id = &all_nodes[ni];
        let ghost pv = node_id@;
        let mut neighbours = candidate_vec(topology, own_node_id, node_id);
        if *node_id == *own_node_id {
            broadcast_topology.push((node_id.clone(), neighbours));
        } else {
            let ghost target = bcast_entry(t, ownv, num_nodes as nat, pv);
            let mut found_self = false;
            let mut already_visited: Vec<String> = Vec::new();
            let mut stack: Vec<String> = Vec::new();
            stack.push(node_id.clone());
            proof {
                assert(sset(Seq::<String>::empty()) =~= Set::<Seq<char>>::empty());
                assert(stack@ =~= Seq::<String>::empty().push(stack@[0]));
                lemma_sset_push(Seq::<String>::empty(), stack@[0]);
                assert(sset(stack@) =~= Set::<Seq<char>>::empty().insert(pv));
                assert(sset(already_visited@) =~= Set::<Seq<char>>::empty());
            }
            while !found_self && already_visited.len() < num_nodes && stack.len() > 0
                && neighbours.len() > 0
                invariant
                    t == topology@,
                    ownv == own_node_id@,
                    num_nodes == all_nodes@.len(),
                    distinct_views(already_visited@),
                    distinct_views(stack@),
                    distinct_views(neighbours@),
                    !found_self ==> bfs_candidates(
                        t,
                        ownv,
                        num_nodes as nat,
                        sset(already_visited@),
                        sset(stack@),
                        sset(neighbours@),
                    ) == target,
                    found_self ==> sset(neighbours@) == target,
                decreases
                        (if found_self {
                            0nat
                        } else {
                            1nat
                        }),
                        (if sset(already_visited@).len() <= num_nodes {
                            (num_nodes - sset(already_visited@).len()) as nat
                        } else {
                            0nat
                        }),
                        (if sset(stack@).subset_of(sset(already_visited@)) {
                            1nat
                        } else {
                            0nat
                        }),
                        stack@.len(),
            {
                let ghost vis0 = sset(already_visited@);
                let ghost stk0 = sset(stack@);
                let ghost cand0 = sset(neighbours@);
                proof {
                    lemma_sset_finite(already_visited@);
                    lemma_sset_finite(stack@);
                    lemma_sset_finite(neighbours@);
                }
                let has_own = sv_contains(&stack, own_node_id);
                let temp = if has_own {
                    found_self = true;
                    expand_frontier(topology, &stack, own_node_id, true)
                } else {
                    expand_frontier(topology, &stack, own_node_id, false)
                };
                let temp = sv_diff(&temp, &already_visited);
                let new_neighbours = sv_diff(&neighbours, &temp);
                sv_union_into(&mut already_visited, &stack);
                stack = temp;
                neighbours = new_neighbours;
                proof {
                    lemma_sset_finite(stack@);
                    lemma_sset_finite(already_visited@);
                    if !stk0.subset_of(vis0) {
                        let x = choose|x: Seq<char>| stk0.contains(x) && !vis0.contains(x);
                        vstd::set_lib::lemma_len_subset(vis0.insert(x), vis0.union(stk0));
                    } else {
                        assert(vis0.union(stk0) =~= vis0);
                        if stack.len() > 0 {
                            assert(sset(stack@).contains(stack@[0]@)) by {
                                lemma_sset_contains(stack@, stack@[0]@);
                            }
                            assert(!sset(stack@).subset_of(vis0));
                        }
                    }
                    if has_own {
                        assert(bfs_candidates(t, ownv, num_nodes as nat, vis0, stk0, cand0)
                            == cand0.difference(
                            frontier_succ(t, stk0, ownv, true).difference(vis0),
                        ));
                        assert(sset(neighbours@) =~= cand0.difference(
                            frontier_succ(t, stk0, ownv, true).difference(vis0),
                        ));
                    } else {
                        let temp_spec = frontier_succ(t, stk0, ownv, false).difference(vis0);
                        assert(sset(stack@) =~= temp_spec);
                        if stack.len() == 0 {
                            assert(temp_spec.is_empty()) by {
                                lemma_sset_finite(stack@);
                                assert(sset(stack@) =~= Set::<Seq<char>>::empty());
                            }
                            assert(bfs_candidates(t, ownv, num_nodes as nat, vis0, stk0, cand0)
                                == cand0);
                            assert(sset(neighbours@) =~= cand0);
                            assert(bfs_candidates(
                                t,
                                ownv,
                                num_nodes as nat,
                                sset(already_visited@),
                                sset(stack@),
                                sset(neighbours@),
                            ) == sset(neighbours@));
                        } else {
                            assert(!temp_spec.is_empty()) by {
                                assert(sset(stack@).contains(stack@[0]@)) by {
                                    lemma_sset_contains(stack@, stack@[0]@);
                                }
                            }
                            assert(bfs_candidates(t, ownv, num_nodes as nat, vis0, stk0, cand0)
                                == bfs_candidates(
                                t,
                                ownv,
                                num_nodes as nat,
                                vis0.union(stk0),
                                temp_spec,
                                cand0.difference(temp_spec),
                            ));
                            assert(sset(already_visited@) =~= vis0.union(stk0));
                            assert(sset(neighbours@) =~= cand0.difference(temp_spec));
                        }
                    }
                }
            }
            proof {
                if !found_self {
                    lemma_sset_finite(already_visited@);
                    lemma_sset_finite(stack@);
                    lemma_sset_finite(neighbours@);
                    assert(bfs_candidates(
                        t,
                        ownv,
                        num_nodes as nat,
                        sset(already_visited@),
                        sset(stack@),
                        sset(neighbours@),
                    ) == sset(neighbours@));
                }
            }
            broadcast_topology.push((node_id.clone(), neighbours));
        }
        ni = ni + 1;
    }
    broadcast_topology
}

} // verus!
