//! Ring assembly: joining the member ways of a multipolygon relation into
//! closed rings of node ids.
use vstd::prelude::*;

verus! {

/// A way of at least two nodes.
pub open spec fn is_path(w: Seq<i64>) -> bool {
    w.len() > 1
}

/// Every candidate has at least two nodes.
pub open spec fn all_paths(ways: Seq<Seq<i64>>) -> bool {
    forall|i: int| 0 <= i < ways.len() ==> is_path(#[trigger] ways[i])
}

/// Whether the ends of a path are the same node.
pub open spec fn is_closed(w: Seq<i64>) -> bool {
    w.len() > 1 && w[0] == w.last()
}

/// Whether two paths share an end node.
pub open spec fn shares_end(a: Seq<i64>, b: Seq<i64>) -> bool {
    a[0] == b[0] || a[0] == b.last() || a.last() == b[0] || a.last() == b.last()
}

/// Candidates `i < j` share an end.
pub open spec fn joinable(ways: Seq<Seq<i64>>, i: int, j: int) -> bool {
    0 <= i < j < ways.len() && shares_end(ways[i], ways[j])
}

/// `(i, j)` is the first joinable pair in the order `(0, 1), (0, 2), ..., (1, 2), ...`.
pub open spec fn first_joinable(ways: Seq<Seq<i64>>, i: int, j: int) -> bool {
    &&& joinable(ways, i, j)
    &&& forall|a: int, b: int| #![trigger joinable(ways, a, b)] (a < i || (a == i && b < j)) ==> !joinable(ways, a, b)
}

/// Remove element `j`, moving the last element into its place.
pub open spec fn swap_removed<T>(s: Seq<T>, j: int) -> Seq<T> {
    s.update(j, s.last()).drop_last()
}

/// Join two paths sharing an end: `a` is reversed when its last node is not
/// shared, then `b` when its last node meets `a`'s; the joint node is kept once.
pub open spec fn joined(a: Seq<i64>, b: Seq<i64>) -> Seq<i64> {
    let a2 = if a.last() != b[0] && a.last() != b.last() { a.reverse() } else { a };
    let b2 = if b.last() == a2.last() { b.reverse() } else { b };
    a2.drop_last() + b2
}

/// The candidates after joining the first joinable pair, if there is one.
pub open spec fn connect_spec(ways: Seq<Seq<i64>>) -> Option<Seq<Seq<i64>>> {
    if exists|i: int, j: int| first_joinable(ways, i, j) {
        let (i, j) = choose|i: int, j: int| first_joinable(ways, i, j);
        Some(swap_removed(ways, j).update(i, joined(ways[i], ways[j])))
    } else {
        None
    }
}

/// Join pairs until one candidate is left or no pair shares an end.
pub open spec fn splice(ways: Seq<Seq<i64>>) -> Seq<Seq<i64>>
    decreases ways.len(),
{
    if ways.len() > 1 {
        match connect_spec(ways) {
            Some(next) => if next.len() < ways.len() { splice(next) } else { ways },
            None => ways,
        }
    } else {
        ways
    }
}

/// Index of the first closed candidate, or -1.
pub open spec fn first_closed(ways: Seq<Seq<i64>>) -> int
    decreases ways.len(),
{
    if ways.len() == 0 {
        -1
    } else if is_closed(ways[0]) {
        0
    } else {
        let r = first_closed(ways.drop_first());
        if r < 0 { -1 } else { r + 1 }
    }
}

/// Take closed candidates out, first one first, until none is left: the
/// remaining candidates and the rings in the order they were taken.
pub open spec fn extract(ways: Seq<Seq<i64>>) -> (Seq<Seq<i64>>, Seq<Seq<i64>>)
    decreases ways.len(),
{
    let i = first_closed(ways);
    if 0 <= i < ways.len() {
        let (rest, rings) = extract(swap_removed(ways, i));
        (rest, seq![ways[i]] + rings)
    } else {
        (ways, Seq::empty())
    }
}

/// A member of a relation for ring assembly: its role (`Some(true)` outer,
/// `Some(false)` inner, `None` another role) and its way's nodes (empty when
/// the way is missing or too short).
pub type MemberModel = (Option<bool>, Seq<i64>);

/// Candidates left and rings found (with their outer flag) after the members.
pub open spec fn assemble(members: Seq<MemberModel>) -> (Seq<Seq<i64>>, Seq<(bool, Seq<i64>)>)
    decreases members.len(),
{
    if members.len() == 0 {
        (Seq::empty(), Seq::empty())
    } else {
        let (w, rings) = assemble(members.drop_last());
        let (role, nodes) = members.last();
        match role {
            Some(outer) => if nodes.len() == 0 {
                (w, rings)
            } else {
                let (rest, found) = extract(splice(w.push(nodes)));
                (rest, rings + found.map_values(|r: Seq<i64>| (outer, r)))
            },
            None => (w, rings),
        }
    }
}

proof fn lemma_first_joinable_unique(ways: Seq<Seq<i64>>, i: int, j: int, a: int, b: int)
    requires
        first_joinable(ways, i, j),
        first_joinable(ways, a, b),
    ensures
        i == a && j == b,
{
    if a < i || (a == i && b < j) {
        assert(!joinable(ways, a, b));
    } else if i < a || (i == a && j < b) {
        assert(!joinable(ways, i, j));
    }
}

proof fn lemma_first_closed(ways: Seq<Seq<i64>>, k: int)
    requires
        0 <= k <= ways.len(),
        forall|m: int| 0 <= m < k ==> !is_closed(#[trigger] ways[m]),
        k == ways.len() || is_closed(ways[k]),
    ensures
        first_closed(ways) == if k == ways.len() { -1 } else { k },
    decreases ways.len(),
{
    if ways.len() > 0 && k > 0 {
        assert forall|m: int| 0 <= m < k - 1 implies !is_closed(#[trigger] ways.drop_first()[m]) by {
            assert(ways.drop_first()[m] == ways[m + 1]);
        }
        lemma_first_closed(ways.drop_first(), k - 1);
    }
}

/// Get the end nodes of a way
pub fn end_points(way: &Vec<i64>) -> (r: (i64, i64))
    requires
        way@.len() > 1,
    ensures
        r == (way@[0], way@.last()),
{
    let len = way.len() - 1;
    (way[0], way[len])
}

/// A copy of a way in reverse order
pub fn reversed(way: &Vec<i64>) -> (r: Vec<i64>)
    ensures
        r@ == way@.reverse(),
{
    let mut out: Vec<i64> = Vec::new();
    let mut i = way.len();
    while i > 0
        invariant
            i <= way@.len(),
            out@.len() == way@.len() - i,
            forall|k: int| 0 <= k < out@.len() ==> out@[k] == way@[way@.len() - 1 - k],
        decreases i,
    {
        i = i - 1;
        out.push(way[i]);
    }
    assert(out@ =~= way@.reverse());
    out
}

/// Join two ways sharing an end node
fn join_ways(a: &Vec<i64>, b: &Vec<i64>) -> (r: Vec<i64>)
    requires
        is_path(a@),
        is_path(b@),
        shares_end(a@, b@),
    ensures
        r@ == joined(a@, b@),
        is_path(r@),
{
    let (_a0, a1) = end_points(a);
    let (b0, b1) = end_points(b);
    // Do not reverse way `a` if its last node connects
    let mut first = if a1 != b0 && a1 != b1 { reversed(a) } else { a.clone() };
    assert(first@.len() == a@.len());
    let (_a0, a1) = end_points(&first);
    let mut second = if b1 == a1 { reversed(b) } else { b.clone() };
    assert(second@.len() == b@.len());
    let ghost a2 = first@;
    let ghost b2 = second@;
    first.pop();
    first.append(&mut second);
    proof {
        assert(a2.reverse().len() == a2.len());
        assert(first@ =~= a2.drop_last() + b2);
    }
    first
}

/// Join the first pair of ways that share an end node; false when no pair does
pub fn connect_ways(ways: &mut Vec<Vec<i64>>) -> (r: bool)
    requires
        all_paths(old(ways)@.map_values(|w: Vec<i64>| w@)),
    ensures
        all_paths(final(ways)@.map_values(|w: Vec<i64>| w@)),
        match connect_spec(old(ways)@.map_values(|w: Vec<i64>| w@)) {
            Some(next) => r && final(ways)@.map_values(|w: Vec<i64>| w@) == next,
            None => !r && final(ways)@ == old(ways)@,
        },
{
    let ghost v = ways@.map_values(|w: Vec<i64>| w@);
    let len = ways.len();
    if len < 2 {
        proof {
            assert forall|a: int, b: int| !first_joinable(v, a, b) by {}
        }
        return false;
    }
    let mut i: usize = 0;
    while i < len - 1
        invariant
            len == ways@.len(),
            ways@ == old(ways)@,
            len >= 2,
            v == ways@.map_values(|w: Vec<i64>| w@),
            all_paths(v),
            i <= len - 1,
            forall|a: int, b: int| #![trigger joinable(v, a, b)] a < i ==> !joinable(v, a, b),
        decreases len - 1 - i,
    {
        assert(v[i as int] == ways@[i as int]@);
        let (a0, a1) = end_points(&ways[i]);
        let mut j: usize = i + 1;
        while j < len
            invariant
                len == ways@.len(),
                ways@ == old(ways)@,
                v == ways@.map_values(|w: Vec<i64>| w@),
                all_paths(v),
                i < len - 1,
                i + 1 <= j <= len,
                (a0, a1) == (v[i as int][0], v[i as int].last()),
                forall|a: int, b: int| #![trigger joinable(v, a, b)] (a < i || (a == i && b < j)) ==> !joinable(v, a, b),
            decreases len - j,
        {
            assert(v[j as int] == ways@[j as int]@);
            let (b0, b1) = end_points(&ways[j]);
            if a0 == b0 || a0 == b1 || a1 == b0 || a1 == b1 {
                proof {
                    assert(joinable(v, i as int, j as int));
                    assert(first_joinable(v, i as int, j as int));
                    let (p, q) = choose|p: int, q: int| first_joinable(v, p, q);
                    lemma_first_joinable_unique(v, i as int, j as int, p, q);
                }
                let way = ways.swap_remove(j);
                let merged = join_ways(&ways[i], &way);
                ways.set(i, merged);
                proof {
                    let next = swap_removed(v, j as int).update(i as int, joined(v[i as int], v[j as int]));
                    assert(ways@.map_values(|w: Vec<i64>| w@) =~= next);
                    assert forall|k: int| 0 <= k < next.len() implies is_path(#[trigger] next[k]) by {
                        if k != i {
                            if k == j {
                                assert(next[k] == v.last());
                            } else {
                                assert(next[k] == v[k]);
                            }
                        }
                    }
                }
                return true;
            }
            j = j + 1;
        }
        i = i + 1;
    }
    proof {
        assert forall|a: int, b: int| !first_joinable(v, a, b) by {
            if first_joinable(v, a, b) {
                assert(joinable(v, a, b));
            }
        }
    }
    false
}

/// Take out the first closed way, if any
pub fn find_ring(ways: &mut Vec<Vec<i64>>) -> (r: Option<Vec<i64>>)
    requires
        all_paths(old(ways)@.map_values(|w: Vec<i64>| w@)),
    ensures
        all_paths(final(ways)@.map_values(|w: Vec<i64>| w@)),
        ({
            let v = old(ways)@.map_values(|w: Vec<i64>| w@);
            let i = first_closed(v);
            match r {
                Some(ring) => 0 <= i < v.len() && ring@ == v[i]
                    && final(ways)@.map_values(|w: Vec<i64>| w@) == swap_removed(v, i),
                None => i < 0 && final(ways)@ == old(ways)@,
            }
        }),
{
    let ghost v = ways@.map_values(|w: Vec<i64>| w@);
    let len = ways.len();
    let mut i: usize = 0;
    while i < len
        invariant
            len == ways@.len(),
            ways@ == old(ways)@,
            v == ways@.map_values(|w: Vec<i64>| w@),
            all_paths(v),
            i <= len,
            forall|m: int| 0 <= m < i ==> !is_closed(#[trigger] v[m]),
        decreases len - i,
    {
        assert(v[i as int] == ways@[i as int]@);
        let (w0, w1) = end_points(&ways[i]);
        if w0 == w1 {
            proof {
                lemma_first_closed(v, i as int);
            }
            let ring = ways.swap_remove(i);
            proof {
                assert(ways@.map_values(|w: Vec<i64>| w@) =~= swap_removed(v, i as int));
                let next = swap_removed(v, i as int);
                assert forall|k: int| 0 <= k < next.len() implies is_path(#[trigger] next[k]) by {
                    if k == i {
                        assert(next[k] == v.last());
                    } else {
                        assert(next[k] == v[k]);
                    }
                }
            }
            return Some(ring);
        }
        i = i + 1;
    }
    proof {
        lemma_first_closed(v, len as int);
    }
    None
}

} // verus!

verus! {

/// A member that takes part in assembly: a known role and a way.
pub open spec fn usable(m: MemberModel) -> bool {
    m.0 is Some && m.1.len() > 0
}

/// The usable members as rings with their outer flags, in order.
pub open spec fn member_rings(members: Seq<MemberModel>) -> Seq<(bool, Seq<i64>)>
    decreases members.len(),
{
    if members.len() == 0 {
        Seq::empty()
    } else {
        let r = member_rings(members.drop_last());
        let m = members.last();
        if usable(m) {
            r.push((m.0->Some_0, m.1))
        } else {
            r
        }
    }
}

/// When every usable member is a closed way of at least two nodes, assembly
/// leaves no candidate and yields exactly one ring per usable member, in
/// member order, with the member's role.
pub proof fn lemma_closed_members_assemble(members: Seq<MemberModel>)
    requires
        forall|i: int| 0 <= i < members.len() && usable(#[trigger] members[i]) ==> is_closed(members[i].1),
    ensures
        assemble(members).0.len() == 0,
        assemble(members).1 == member_rings(members),
    decreases members.len(),
{
    if members.len() > 0 {
        let prev = members.drop_last();
        assert forall|i: int| 0 <= i < prev.len() && usable(#[trigger] prev[i]) implies is_closed(prev[i].1) by {
            assert(prev[i] == members[i]);
        }
        lemma_closed_members_assemble(prev);
        let m = members.last();
        assert(m == members[members.len() - 1]);
        if usable(m) {
            let nodes = m.1;
            let w = assemble(prev).0.push(nodes);
            assert(w =~= seq![nodes]);
            assert(splice(w) == w);
            assert(first_closed(w) == 0);
            assert(swap_removed(w, 0) =~= Seq::<Seq<i64>>::empty());
            assert(extract(Seq::<Seq<i64>>::empty()) == (Seq::<Seq<i64>>::empty(), Seq::<Seq<i64>>::empty()));
            let found = extract(w).1;
            assert(found =~= seq![nodes]);
            let outer = m.0->Some_0;
            assert(found.map_values(|r: Seq<i64>| (outer, r)) =~= seq![(outer, nodes)]);
            assert(assemble(prev).1 + seq![(outer, nodes)] =~= member_rings(prev).push((outer, nodes)));
        }
    }
}

/// A relation whose one usable member is an open way leaves that way as a
/// candidate, so no polygon comes of it.
pub proof fn lemma_open_member_left(members: Seq<MemberModel>, k: int)
    requires
        0 <= k < members.len(),
        usable(members[k]),
        is_path(members[k].1),
        !is_closed(members[k].1),
        forall|i: int| 0 <= i < members.len() && i != k ==> !usable(#[trigger] members[i]),
    ensures
        assemble(members).0 == seq![members[k].1],
        assemble(members).1.len() == 0,
    decreases members.len(),
{
    let prev = members.drop_last();
    let n = members.len() - 1;
    if k < n {
        assert forall|i: int| 0 <= i < prev.len() && i != k implies !usable(#[trigger] prev[i]) by {
            assert(prev[i] == members[i]);
        }
        assert(prev[k] == members[k]);
        lemma_open_member_left(prev, k);
        assert(!usable(members[n]));
        assert(members.last() == members[n]);
    } else {
        lemma_no_usable_members(prev);
        let w = seq![members[k].1];
        assert(assemble(prev).0.push(members[k].1) =~= w);
        assert(splice(w) == w);
        assert(first_closed(w.drop_first()) == -1);
        assert(first_closed(w) == -1);
        assert(members.last() == members[k]);
        assert(Seq::<(bool, Seq<i64>)>::empty() + Seq::<Seq<i64>>::empty().map_values(|r: Seq<i64>| (members[k].0->Some_0, r))
            =~= Seq::<(bool, Seq<i64>)>::empty());
    }
}

proof fn lemma_no_usable_members(members: Seq<MemberModel>)
    requires
        forall|i: int| 0 <= i < members.len() ==> !usable(#[trigger] members[i]),
    ensures
        assemble(members).0.len() == 0,
        assemble(members).1.len() == 0,
    decreases members.len(),
{
    if members.len() > 0 {
        let prev = members.drop_last();
        assert forall|i: int| 0 <= i < prev.len() implies !usable(#[trigger] prev[i]) by {
            assert(prev[i] == members[i]);
        }
        lemma_no_usable_members(prev);
        assert(!usable(members[members.len() - 1]));
    }
}

} // verus!

verus! {

/// Two open member ways that meet at both ends, in either direction, are
/// joined into one closed ring, with the role of the second member, and no
/// candidate is left.
pub proof fn lemma_two_ways_one_ring(a: Seq<i64>, b: Seq<i64>, ra: bool, rb: bool)
    requires
        is_path(a),
        is_path(b),
        !is_closed(a),
        (b[0] == a.last() && b.last() == a[0]) || (b[0] == a[0] && b.last() == a.last()),
    ensures
        assemble(seq![(Some(ra), a), (Some(rb), b)]).0.len() == 0,
        assemble(seq![(Some(ra), a), (Some(rb), b)]).1 == seq![(rb, joined(a, b))],
        is_closed(joined(a, b)),
{
    let members = seq![(Some(ra), a), (Some(rb), b)];
    let first = seq![(Some(ra), a)];
    assert(members.drop_last() =~= first);
    assert(first.drop_last() =~= Seq::<MemberModel>::empty());
    // the first member stays a candidate
    let w1 = seq![a];
    assert(Seq::<Seq<i64>>::empty().push(a) =~= w1);
    assert(splice(w1) == w1);
    assert(w1[0] == a);
    lemma_first_closed(w1, 1);
    assert(extract(w1) == (w1, Seq::<Seq<i64>>::empty()));
    assert(Seq::<Seq<i64>>::empty().map_values(|r: Seq<i64>| (ra, r)) =~= Seq::<(bool, Seq<i64>)>::empty());
    assert(first.last() == (Some(ra), a));
    assert(members.last() == (Some(rb), b));
    let none = Seq::<(bool, Seq<i64>)>::empty();
    assert(assemble(Seq::<MemberModel>::empty()) == (Seq::<Seq<i64>>::empty(), none));
    assert(none + Seq::<Seq<i64>>::empty().map_values(|r: Seq<i64>| (ra, r)) =~= none);
    assert(assemble(first) == (w1, none));
    // the second member joins it
    let w2 = seq![a, b];
    assert(w1.push(b) =~= w2);
    assert(joinable(w2, 0, 1));
    assert(first_joinable(w2, 0, 1));
    let (p, q) = choose|p: int, q: int| first_joinable(w2, p, q);
    lemma_first_joinable_unique(w2, 0, 1, p, q);
    let j = joined(a, b);
    let w3 = seq![j];
    assert(swap_removed(w2, 1).update(0, j) =~= w3);
    assert(connect_spec(w2) == Some(w3));
    assert(splice(w3) == w3);
    assert(splice(w2) == w3);
    // the joined way is closed
    let a2 = if a.last() != b[0] && a.last() != b.last() { a.reverse() } else { a };
    let b2 = if b.last() == a2.last() { b.reverse() } else { b };
    assert(a2 == a);
    assert(j == a.drop_last() + b2);
    assert(j[0] == a[0]);
    assert(j.last() == b2.last());
    assert(is_closed(j));
    assert(w3[0] == j);
    lemma_first_closed(w3, 0);
    assert(swap_removed(w3, 0) =~= Seq::<Seq<i64>>::empty());
    assert(extract(Seq::<Seq<i64>>::empty()) == (Seq::<Seq<i64>>::empty(), Seq::<Seq<i64>>::empty()));
    assert(extract(w3).1 =~= seq![j]);
    assert(seq![j].map_values(|r: Seq<i64>| (rb, r)) =~= seq![(rb, j)]);
    assert(Seq::<(bool, Seq<i64>)>::empty() + seq![(rb, j)] =~= seq![(rb, j)]);
}

} // verus!
