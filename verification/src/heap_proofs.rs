use crate::heap_model::{
    all_white, allocated, collected, found, grey_reaches, greyed, has_color, is_chain,
    is_white_trail, linked, marked, painted, reachable, root_marked, roots_marked, survivors,
    swept, Color,
    HeapMap,
};
use crate::value::Payload;
use vstd::prelude::*;

verus! {

/// Two heaps hold the same payloads under the same identities.
pub open spec fn same_payloads(a: HeapMap, b: HeapMap) -> bool {
    &&& a.dom() =~= b.dom()
    &&& forall|k: u128| a.contains_key(k) ==> (#[trigger] a[k]).payload == b[k].payload
}

/// The records that are not black yet.
pub open spec fn unmarked(m: HeapMap) -> Set<u128> {
    m.dom().filter(|k: u128| m[k].color != Color::Black)
}

/// What holds of the heap `m` while marking runs on a heap that started as
/// `m0`: colours only move forward, only records that marking is owed have
/// moved, and each of those is either black or still owed.
pub open spec fn mark_progress(m0: HeapMap, m: HeapMap) -> bool {
    &&& same_payloads(m0, m)
    &&& forall|k: u128| #[trigger]
        m.contains_key(k) ==> {
            &&& (m0[k].color == Color::Black ==> m[k].color == Color::Black)
            &&& (m[k].color == Color::White ==> m0[k].color == Color::White)
            &&& (m[k].color != m0[k].color ==> grey_reaches(m0, k))
            &&& (grey_reaches(m0, k) ==> m[k].color == Color::Black || grey_reaches(m, k))
        }
}

proof fn lemma_chain_same_payloads(a: HeapMap, b: HeapMap, p: Seq<u128>)
    requires
        same_payloads(a, b),
        is_chain(a, p),
    ensures
        is_chain(b, p),
{
    assert forall|i: int| 0 <= i < p.len() implies b.contains_key(#[trigger] p[i]) by {
        assert(a.contains_key(p[i]));
    }
    assert forall|i: int| 0 <= i < p.len() - 1 implies #[trigger] linked(b, p, i) by {
        assert(linked(a, p, i));
        assert(a.contains_key(p[i]));
    }
}

/// A chain with a grey record at `i` and no black record after it ends in a
/// record that a grey one reaches.
proof fn lemma_trail_suffix(m: HeapMap, p: Seq<u128>, i: int)
    requires
        is_chain(m, p),
        0 <= i < p.len(),
        m[p[i]].color == Color::Grey,
        forall|j: int| i < j < p.len() ==> m[#[trigger] p[j]].color != Color::Black,
    ensures
        grey_reaches(m, p.last()),
    decreases p.len() - i,
{
    if forall|j: int| i < j < p.len() ==> m[#[trigger] p[j]].color == Color::White {
        let q = p.subrange(i, p.len() as int);
        assert forall|k: int| 0 <= k < q.len() implies m.contains_key(#[trigger] q[k]) by {
            assert(q[k] == p[i + k]);
        }
        assert forall|k: int| 0 <= k < q.len() - 1 implies #[trigger] linked(m, q, k) by {
            assert(linked(m, p, i + k));
            assert(q[k] == p[i + k]);
            assert(q[k + 1] == p[i + k + 1]);
        }
        assert forall|k: int| 0 < k < q.len() implies m[#[trigger] q[k]].color
            == Color::White by {
            assert(q[k] == p[i + k]);
        }
        assert(q[0] == p[i]);
        assert(is_white_trail(m, q));
        assert(q.last() == p.last());
    } else {
        let j = choose|j: int| i < j < p.len() && m[#[trigger] p[j]].color != Color::White;
        lemma_trail_suffix(m, p, j);
    }
}

/// A trail that is extended by a white child of its last record is a trail.
proof fn lemma_trail_push(m: HeapMap, p: Seq<u128>, c: u128)
    requires
        is_white_trail(m, p),
        has_color(m, c, Color::White),
        m[p.last()].payload.child_set().contains(c),
    ensures
        is_white_trail(m, p.push(c)),
        p.push(c).last() == c,
{
    let q = p.push(c);
    assert forall|i: int| 0 <= i < q.len() implies m.contains_key(#[trigger] q[i]) by {
        if i < p.len() {
            assert(q[i] == p[i]);
        }
    }
    assert forall|i: int| 0 <= i < q.len() - 1 implies #[trigger] linked(m, q, i) by {
        assert(q[i] == p[i]);
        if i < p.len() - 1 {
            assert(linked(m, p, i));
            assert(q[i + 1] == p[i + 1]);
        } else {
            assert(q[i] == p.last());
            assert(q[i + 1] == c);
        }
    }
    assert forall|i: int| 0 < i < q.len() implies m[#[trigger] q[i]].color == Color::White by {
        if i < p.len() {
            assert(q[i] == p[i]);
        }
    }
    assert(q[0] == p[0]);
}

/// A grey record reaches itself.
proof fn lemma_grey_reaches_itself(m: HeapMap, g: u128)
    requires
        has_color(m, g, Color::Grey),
    ensures
        grey_reaches(m, g),
{
    let p = seq![g];
    assert(is_white_trail(m, p));
    assert(p.last() == g);
}

/// One step of marking keeps `mark_progress`, and leaves one record fewer
/// that is not black.
pub proof fn lemma_mark_step(m0: HeapMap, m: HeapMap, g: u128, m2: HeapMap)
    requires
        mark_progress(m0, m),
        has_color(m, g, Color::Grey),
        m2 == greyed(painted(m, g, Color::Black), m[g].payload.child_set()),
    ensures
        mark_progress(m0, m2),
        unmarked(m).contains(g),
        unmarked(m2) == unmarked(m).remove(g),
{
    assert(m2.dom() =~= m.dom());
    assert(same_payloads(m0, m2)) by {
        assert forall|k: u128| m0.contains_key(k) implies (#[trigger] m0[k]).payload
            == m2[k].payload by {
            assert(m.contains_key(k));
        }
    }
    assert(same_payloads(m, m2)) by {
        assert forall|k: u128| m.contains_key(k) implies (#[trigger] m[k]).payload
            == m2[k].payload by {}
    }
    assert(m.contains_key(g));
    let kids = m[g].payload.child_set();
    assert forall|k: u128| #[trigger] m2.contains_key(k) implies {
        &&& (m0[k].color == Color::Black ==> m2[k].color == Color::Black)
        &&& (m2[k].color == Color::White ==> m0[k].color == Color::White)
        &&& (m2[k].color != m0[k].color ==> grey_reaches(m0, k))
        &&& (grey_reaches(m0, k) ==> m2[k].color == Color::Black || grey_reaches(m2, k))
    } by {
        assert(m.contains_key(k));
        if m2[k].color != m0[k].color && m[k].color == m0[k].color {
            if k == g {
                lemma_grey_reaches_itself(m0, g);
            } else {
                // a white child of `g` that this step turned grey
                assert(kids.contains(k) && m[k].color == Color::White);
                if m0[g].color == Color::Grey {
                    lemma_grey_reaches_itself(m0, g);
                }
                assert(grey_reaches(m0, g));
                let p = choose|p: Seq<u128>| #[trigger] is_white_trail(m0, p) && p.last() == g;
                lemma_trail_push(m0, p, k);
            }
        }
        if grey_reaches(m0, k) && m[k].color != Color::Black {
            let p = choose|p: Seq<u128>| #[trigger] is_white_trail(m, p) && p.last() == k;
            lemma_chain_same_payloads(m, m2, p);
            if p[0] == g {
                if p.len() > 1 {
                    assert(linked(m, p, 0));
                    assert(kids.contains(p[1]));
                    assert(m[p[1]].color == Color::White);
                    assert forall|j: int| 1 < j < p.len() implies m2[#[trigger] p[j]].color
                        != Color::Black by {
                        assert(m[p[j]].color == Color::White);
                    }
                    lemma_trail_suffix(m2, p, 1);
                }
            } else {
                assert forall|j: int| 0 < j < p.len() implies m2[#[trigger] p[j]].color
                    != Color::Black by {
                    assert(m[p[j]].color == Color::White);
                }
                lemma_trail_suffix(m2, p, 0);
            }
        }
    }
    assert(unmarked(m2) =~= unmarked(m).remove(g));
}

/// Once no record is grey, marking has done what it owes.
pub proof fn lemma_mark_done(m0: HeapMap, m: HeapMap)
    requires
        mark_progress(m0, m),
        forall|k: u128| !has_color(m, k, Color::Grey),
    ensures
        m == marked(m0),
{
    assert forall|k: u128| #[trigger] m.contains_key(k) implies m[k] == marked(m0)[k] by {
        assert(m0.contains_key(k));
        if grey_reaches(m, k) {
            let p = choose|p: Seq<u128>| #[trigger] is_white_trail(m, p) && p.last() == k;
            assert(has_color(m, p[0], Color::Grey));
        }
    }
    assert(m =~= marked(m0));
}

/// Where marking starts, `mark_progress` holds.
pub proof fn lemma_mark_start(m: HeapMap)
    ensures
        mark_progress(m, m),
{
}

/// What holds of a heap `m1` that came from the all-white heap `m` by marking
/// `roots`: every root that the heap holds has left white, no black record
/// refers to a white one, and whatever has left white is reachable.
pub open spec fn roots_progress(m: HeapMap, roots: Seq<u128>, m1: HeapMap) -> bool {
    &&& same_payloads(m, m1)
    &&& forall|i: int|
        0 <= i < roots.len() && m.contains_key(#[trigger] roots[i]) ==> m1[roots[i]].color
            != Color::White
    &&& forall|k: u128, c: u128|
        m1.contains_key(k) && m1[k].color == Color::Black && #[trigger] m1[k].payload.child_set().contains(
            c,
        ) && m1.contains_key(c) ==> m1[c].color != Color::White
    &&& forall|k: u128| #[trigger]
        m1.contains_key(k) && m1[k].color != Color::White ==> reachable(m, roots.to_set(), k)
}

/// Two chains, the second starting where the first ends, make one chain.
proof fn lemma_chain_concat(m: HeapMap, p: Seq<u128>, q: Seq<u128>)
    requires
        is_chain(m, p),
        is_chain(m, q),
        p.last() == q[0],
    ensures
        is_chain(m, p + q.skip(1)),
        (p + q.skip(1))[0] == p[0],
        (p + q.skip(1)).last() == q.last(),
{
    let r = p + q.skip(1);
    assert forall|i: int| 0 <= i < r.len() implies m.contains_key(#[trigger] r[i]) by {
        if i < p.len() {
            assert(r[i] == p[i]);
        } else {
            assert(r[i] == q[i - p.len() + 1]);
        }
    }
    assert forall|i: int| 0 <= i < r.len() - 1 implies #[trigger] linked(m, r, i) by {
        if i < p.len() - 1 {
            assert(linked(m, p, i));
            assert(r[i] == p[i]);
            assert(r[i + 1] == p[i + 1]);
        } else {
            let j = i - p.len() + 1;
            assert(linked(m, q, j));
            assert(r[i + 1] == q[j + 1]);
            if j == 0 {
                assert(r[i] == p.last());
            } else {
                assert(r[i] == q[j]);
            }
        }
    }
}

/// Marking roots on an all-white heap establishes `roots_progress`.
proof fn lemma_roots_marked(m: HeapMap, roots: Seq<u128>)
    requires
        all_white(m),
    ensures
        roots_progress(m, roots, roots_marked(m, roots)),
    decreases roots.len(),
{
    if roots.len() == 0 {
        assert forall|k: u128| m.contains_key(k) implies (#[trigger] m[k]).color
            == Color::White by {}
    } else {
        let prev = roots.drop_last();
        let r = roots.last();
        let m1 = roots_marked(m, prev);
        let m2 = root_marked(m1, r);
        lemma_roots_marked(m, prev);
        assert(m2.dom() =~= m1.dom());
        assert(same_payloads(m, m2)) by {
            assert forall|k: u128| m.contains_key(k) implies (#[trigger] m[k]).payload
                == m2[k].payload by {
                assert(m1.contains_key(k));
            }
        }
        assert forall|i: int|
            0 <= i < roots.len() && m.contains_key(#[trigger] roots[i]) implies m2[roots[i]].color
            != Color::White by {
            if i < roots.len() - 1 {
                assert(prev[i] == roots[i]);
            }
        }
        assert forall|k: u128, c: u128|
            m2.contains_key(k) && m2[k].color == Color::Black && #[trigger] m2[k].payload.child_set().contains(
                c,
            ) && m2.contains_key(c) implies m2[c].color != Color::White by {
            assert(m1.contains_key(k) && m1.contains_key(c));
            if m1[k].color == Color::Black {
                assert(m1[k].payload.child_set().contains(c));
            }
        }
        assert forall|k: u128| #[trigger]
            m2.contains_key(k) && m2[k].color != Color::White implies reachable(
            m,
            roots.to_set(),
            k,
        ) by {
            assert(m1.contains_key(k));
            assert(roots.to_set().contains(r)) by {
                assert(roots[roots.len() - 1] == r);
            }
            if m1[k].color != Color::White {
                let p = choose|p: Seq<u128>| #[trigger]
                    is_chain(m, p) && prev.to_set().contains(p[0]) && p.last() == k;
                assert(roots.to_set().contains(p[0])) by {
                    let j = choose|j: int| 0 <= j < prev.len() && prev[j] == p[0];
                    assert(roots[j] == p[0]);
                }
            } else if k == r {
                let p = seq![r];
                assert(is_chain(m, p));
                assert(p.last() == k);
            } else {
                assert(m.contains_key(r));
                assert(m1[r].payload.child_set().contains(k));
                let p = seq![r, k];
                assert(is_chain(m, p)) by {
                    assert forall|i: int| 0 <= i < p.len() - 1 implies #[trigger] linked(
                        m,
                        p,
                        i,
                    ) by {
                        assert(i == 0);
                        assert(m[r].payload == m1[r].payload);
                    }
                }
                assert(p.last() == k);
            }
        }
    }
}

/// On a chain whose first record has left white, in a heap where no black
/// record refers to a white one, every record has left white or is owed to
/// marking.
proof fn lemma_chain_marked(m1: HeapMap, p: Seq<u128>, i: int)
    requires
        is_chain(m1, p),
        0 <= i < p.len(),
        m1[p[0]].color != Color::White,
        forall|k: u128, c: u128|
            m1.contains_key(k) && m1[k].color == Color::Black && #[trigger] m1[k].payload.child_set().contains(
                c,
            ) && m1.contains_key(c) ==> m1[c].color != Color::White,
    ensures
        m1[p[i]].color != Color::White || grey_reaches(m1, p[i]),
    decreases i,
{
    if i > 0 {
        lemma_chain_marked(m1, p, i - 1);
        let a = p[i - 1];
        let b = p[i];
        assert(linked(m1, p, i - 1));
        assert(m1.contains_key(a) && m1.contains_key(b));
        assert(m1[a].payload.child_set().contains(b));
        if m1[b].color == Color::White {
            if m1[a].color == Color::Grey {
                lemma_grey_reaches_itself(m1, a);
            }
            assert(grey_reaches(m1, a));
            let t = choose|t: Seq<u128>| #[trigger] is_white_trail(m1, t) && t.last() == a;
            lemma_trail_push(m1, t, b);
        }
    }
}

/// A payload that has just been allocated is what a lookup of its identity
/// finds.
pub proof fn lemma_allocate_then_find(m: HeapMap, id: u128, payload: Payload)
    ensures
        found(allocated(m, id, payload), id) == Some(&payload),
{
}

/// Starting from a heap in which every record is white, one whole collection
/// (mark the roots, mark, sweep) keeps exactly the records that a chain of
/// references reaches from a root, and keeps them as they were: whatever is
/// reachable survives, whatever is not is removed.
pub proof fn lemma_collection_keeps_reachable(m: HeapMap, roots: Seq<u128>)
    requires
        all_white(m),
    ensures
        collected(m, roots) == survivors(m, roots.to_set()),
{
    let m1 = roots_marked(m, roots);
    let m2 = marked(m1);
    let m3 = swept(m2);
    let live = Set::new(|id: u128| reachable(m, roots.to_set(), id));
    lemma_roots_marked(m, roots);
    assert(same_payloads(m1, m)) by {
        assert forall|k: u128| m1.contains_key(k) implies (#[trigger] m1[k]).payload
            == m[k].payload by {
            assert(m.contains_key(k));
        }
    }
    assert forall|k: u128| m3.contains_key(k) implies live.contains(k) && m.contains_key(k) by {
        assert(m1.contains_key(k));
        if m1[k].color == Color::White {
            assert(grey_reaches(m1, k));
            let t = choose|t: Seq<u128>| #[trigger] is_white_trail(m1, t) && t.last() == k;
            assert(m1.contains_key(t[0]));
            let q = choose|q: Seq<u128>| #[trigger]
                is_chain(m, q) && roots.to_set().contains(q[0]) && q.last() == t[0];
            lemma_chain_same_payloads(m1, m, t);
            lemma_chain_concat(m, q, t);
        }
    }
    assert forall|k: u128| live.contains(k) implies m3.contains_key(k) by {
        let p = choose|p: Seq<u128>| #[trigger]
            is_chain(m, p) && roots.to_set().contains(p[0]) && p.last() == k;
        lemma_chain_same_payloads(m, m1, p);
        let j = choose|j: int| 0 <= j < roots.len() && roots[j] == p[0];
        assert(m.contains_key(roots[j]));
        lemma_chain_marked(m1, p, p.len() - 1);
        assert(m1.contains_key(k));
    }
    assert forall|k: u128| m3.contains_key(k) implies m3[k] == m[k] by {
        assert(m1.contains_key(k));
        assert(m.contains_key(k));
    }
    assert(m3 =~= m.restrict(live));
}

/// No record refers to an identity that the heap does not hold.
pub open spec fn children_resident(m: HeapMap) -> bool {
    forall|k: u128, c: u128|
        m.contains_key(k) && #[trigger] m[k].payload.child_set().contains(c) ==> m.contains_key(c)
}

/// A chain that is extended by a child of its last record is a chain.
proof fn lemma_chain_push(m: HeapMap, p: Seq<u128>, c: u128)
    requires
        is_chain(m, p),
        m.contains_key(c),
        m[p.last()].payload.child_set().contains(c),
    ensures
        is_chain(m, p.push(c)),
        p.push(c)[0] == p[0],
        p.push(c).last() == c,
{
    let q = seq![p.last(), c];
    assert(is_chain(m, q)) by {
        assert forall|i: int| 0 <= i < q.len() - 1 implies #[trigger] linked(m, q, i) by {
            assert(i == 0);
        }
    }
    lemma_chain_concat(m, p, q);
    assert(p + q.skip(1) =~= p.push(c));
}

/// A collection leaves no dangling reference behind: where every child of
/// every record was in the heap before, the same holds of what survives.
pub proof fn lemma_collection_keeps_children_resident(m: HeapMap, roots: Seq<u128>)
    requires
        all_white(m),
        children_resident(m),
    ensures
        children_resident(collected(m, roots)),
{
    let after = collected(m, roots);
    lemma_collection_keeps_reachable(m, roots);
    assert forall|k: u128, c: u128|
        after.contains_key(k) && #[trigger] after[k].payload.child_set().contains(
            c,
        ) implies after.contains_key(c) by {
        assert(m.contains_key(k));
        assert(m[k].payload.child_set().contains(c));
        let p = choose|p: Seq<u128>| #[trigger]
            is_chain(m, p) && roots.to_set().contains(p[0]) && p.last() == k;
        lemma_chain_push(m, p, c);
        assert(reachable(m, roots.to_set(), c));
    }
}

/// On a heap in which every record is white, a second sweep changes nothing
/// that the first one left.
pub proof fn lemma_sweep_twice(m: HeapMap)
    requires
        all_white(m),
    ensures
        swept(swept(m)) == swept(m),
{
    assert(swept(m) =~= Map::<u128, crate::heap_model::HeapRecord>::empty());
    assert(swept(swept(m)) =~= swept(m));
}

} // verus!
