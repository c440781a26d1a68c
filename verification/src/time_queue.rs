use vstd::prelude::*;

verus! {

broadcast use vstd::seq_lib::group_to_multiset_ensures;

/// `s` with the entries at `i` and `j` exchanged.
pub open spec fn swapped<T>(s: Seq<T>, i: int, j: int) -> Seq<T> {
    s.update(i, s[j]).update(j, s[i])
}

/// The entry at the front holds a key no later than any other entry.
pub open spec fn front_is_earliest<E>(s: Seq<(u32, E)>) -> bool {
    forall|j: int| 0 <= j < s.len() ==> s[0].0 <= #[trigger] s[j].0
}

/// The parent of the entry at `i > 0`: children of `p` sit at `2p + 1` and `2p + 2`.
pub open spec fn parent(i: nat) -> nat {
    ((i - 1) / 2) as nat
}

/// Moving the entry at `i` towards the front: while its parent has a later
/// key, the two change places and the walk goes on from the parent.
pub open spec fn sift_up<E>(s: Seq<(u32, E)>, i: nat) -> Seq<(u32, E)>
    decreases i,
{
    if i == 0 || i >= s.len() {
        s
    } else if s[parent(i) as int].0 > s[i as int].0 {
        sift_up(swapped(s, parent(i) as int, i as int), parent(i))
    } else {
        s
    }
}

/// The child of `i` that an entry sinking from `i` may change places with: the
/// one with the earlier key, the right one when both keys are equal.
pub open spec fn earlier_child<E>(s: Seq<(u32, E)>, i: nat) -> nat {
    let l = 2 * i + 1;
    let r = 2 * i + 2;
    if r >= s.len() || s[l as int].0 < s[r as int].0 {
        l
    } else {
        r
    }
}

/// Moving the entry at `i` away from the front: while its earlier child
/// (children at `2i + 1` and `2i + 2`) has an earlier key, the two change
/// places and the walk goes on from that child.
pub open spec fn sift_down<E>(s: Seq<(u32, E)>, i: nat) -> Seq<(u32, E)>
    decreases s.len() - i,
{
    if 2 * i + 1 >= s.len() {
        s
    } else {
        let c = earlier_child(s, i);
        if s[i as int].0 > s[c as int].0 {
            sift_down(swapped(s, i as int, c as int), c)
        } else {
            s
        }
    }
}

/// Exchanging two entries keeps the multiset of entries.
pub proof fn lemma_swapped_multiset<T>(s: Seq<T>, i: int, j: int)
    requires
        0 <= i < s.len(),
        0 <= j < s.len(),
    ensures
        swapped(s, i, j).to_multiset() == s.to_multiset(),
        swapped(s, i, j).len() == s.len(),
{
    broadcast use vstd::multiset::group_multiset_axioms;

    if i != j {
        let s1 = s.update(i, s[j]);
        assert(s1[j] == s[j]);
        assert(swapped(s, i, j).to_multiset() =~= s.to_multiset());
    } else {
        assert(swapped(s, i, j) =~= s);
    }
}

/// Sifting towards the front only reorders the entries.
pub proof fn lemma_sift_up_multiset<E>(s: Seq<(u32, E)>, i: nat)
    ensures
        sift_up(s, i).to_multiset() == s.to_multiset(),
        sift_up(s, i).len() == s.len(),
    decreases i,
{
    if i == 0 || i >= s.len() {
    } else if s[parent(i) as int].0 > s[i as int].0 {
        lemma_swapped_multiset(s, parent(i) as int, i as int);
        lemma_sift_up_multiset(swapped(s, parent(i) as int, i as int), parent(i));
    }
}

/// Sifting away from the front only reorders the entries.
pub proof fn lemma_sift_down_multiset<E>(s: Seq<(u32, E)>, i: nat)
    ensures
        sift_down(s, i).to_multiset() == s.to_multiset(),
        sift_down(s, i).len() == s.len(),
    decreases s.len() - i,
{
    if 2 * i + 1 >= s.len() {
    } else {
        let c = earlier_child(s, i);
        if s[i as int].0 > s[c as int].0 {
            lemma_swapped_multiset(s, i as int, c as int);
            lemma_sift_down_multiset(swapped(s, i as int, c as int), c);
        }
    }
}

/// Every entry has a key no earlier than that of its parent at `(i - 1) / 2`.
pub open spec fn heap_ordered<E>(s: Seq<(u32, E)>) -> bool {
    forall|i: int| 0 < i < s.len() ==> s[(i - 1) / 2].0 <= #[trigger] s[i].0
}

/// Heap order everywhere but between the entry at `k` and its children, whose
/// keys are no earlier than that of `k`'s parent.
pub open spec fn heap_ordered_but_at<E>(s: Seq<(u32, E)>, k: int) -> bool {
    &&& forall|i: int| 0 < i < s.len() && (i - 1) / 2 != k ==> s[(i - 1) / 2].0 <= #[trigger] s[i].0
    &&& forall|i: int|
        0 < i < s.len() && (i - 1) / 2 == k && k > 0 ==> s[(k - 1) / 2].0 <= #[trigger] s[i].0
}

/// In a heap-ordered array the front holds the earliest key.
pub proof fn lemma_heap_ordered_front_earliest<E>(s: Seq<(u32, E)>)
    requires
        heap_ordered(s),
    ensures
        front_is_earliest(s),
{
    assert forall|j: int| 0 <= j < s.len() implies s[0].0 <= #[trigger] s[j].0 by {
        lemma_heap_ordered_front_below(s, j);
    }
}

proof fn lemma_heap_ordered_front_below<E>(s: Seq<(u32, E)>, j: int)
    requires
        heap_ordered(s),
        0 <= j < s.len(),
    ensures
        s[0].0 <= s[j].0,
    decreases j,
{
    if j > 0 {
        lemma_heap_ordered_front_below(s, (j - 1) / 2);
        assert(s[(j - 1) / 2].0 <= s[j].0);
    }
}

/// Sinking the one entry out of order restores heap order.
pub proof fn lemma_sift_down_heap_ordered<E>(s: Seq<(u32, E)>, k: nat)
    requires
        k < s.len() || k == 0,
        heap_ordered_but_at(s, k as int),
    ensures
        heap_ordered(sift_down(s, k)),
    decreases s.len() - k,
{
    let ki = k as int;
    if 2 * k + 1 >= s.len() {
        assert forall|i: int| 0 < i < s.len() implies s[(i - 1) / 2].0 <= #[trigger] s[i].0 by {
            assert((i - 1) / 2 != ki);
        }
    } else {
        let c = earlier_child(s, k);
        let ci = c as int;
        let l = 2 * ki + 1;
        let r = 2 * ki + 2;
        if s[ki].0 > s[ci].0 {
            let t = swapped(s, ki, ci);
            assert forall|i: int| 0 < i < t.len() && (i - 1) / 2 != ci implies t[(i - 1) / 2].0
                <= #[trigger] t[i].0 by {
                let p = (i - 1) / 2;
                if p == ki {
                    if i != ci {
                        assert(i == l || i == r);
                        assert(s[ci].0 <= s[i].0);
                    }
                } else if i == ki {
                    assert(s[(ki - 1) / 2].0 <= s[ci].0);
                } else {
                    assert(s[p].0 <= s[i].0);
                }
            }
            assert forall|i: int| 0 < i < t.len() && (i - 1) / 2 == ci && ci > 0 implies t[(ci - 1)
                / 2].0 <= #[trigger] t[i].0 by {
                assert((ci - 1) / 2 == ki);
                assert(i != ki && i != ci);
                assert(s[ci].0 <= s[i].0);
            }
            lemma_sift_down_heap_ordered(t, c);
        } else {
            assert forall|i: int| 0 < i < s.len() implies s[(i - 1) / 2].0 <= #[trigger] s[i].0 by {
                if (i - 1) / 2 == ki {
                    assert(i == l || i == r);
                }
            }
        }
    }
}

/// A heap-ordered queue hands out an event with the earliest key, and what is
/// left after `advance` is heap-ordered again: draining it gives the events in
/// time order.
pub proof fn law_advance_keeps_heap_order<E>(s: Seq<(u32, E)>)
    requires
        heap_ordered(s),
        s.len() > 0,
    ensures
        front_is_earliest(s),
        heap_ordered(sift_down(s.update(0, s.last()).drop_last(), 0)),
{
    lemma_heap_ordered_front_earliest(s);
    let t = s.update(0, s.last()).drop_last();
    assert forall|i: int| 0 < i < t.len() && (i - 1) / 2 != 0 implies t[(i - 1) / 2].0
        <= #[trigger] t[i].0 by {
        assert(s[(i - 1) / 2].0 <= s[i].0);
    }
    lemma_sift_down_heap_ordered(t, 0);
}

/// Heap order everywhere but between the entry at `k` and its parent, and
/// `k`'s children have keys no earlier than that of `k`'s parent.
pub open spec fn heap_ordered_but_above<E>(s: Seq<(u32, E)>, k: int) -> bool {
    &&& forall|i: int| 0 < i < s.len() && i != k ==> s[(i - 1) / 2].0 <= #[trigger] s[i].0
    &&& forall|i: int|
        0 < i < s.len() && (i - 1) / 2 == k && k > 0 ==> s[(k - 1) / 2].0 <= #[trigger] s[i].0
}

/// Raising the one entry out of order restores heap order.
pub proof fn lemma_sift_up_heap_ordered<E>(s: Seq<(u32, E)>, k: nat)
    requires
        k < s.len(),
        heap_ordered_but_above(s, k as int),
    ensures
        heap_ordered(sift_up(s, k)),
    decreases k,
{
    let ki = k as int;
    if k == 0 {
    } else {
        let p = parent(k) as int;
        assert(p == (ki - 1) / 2);
        if s[p].0 > s[ki].0 {
            let t = swapped(s, p, ki);
            assert forall|i: int| 0 < i < t.len() && i != p implies t[(i - 1) / 2].0
                <= #[trigger] t[i].0 by {
                let q = (i - 1) / 2;
                if i == ki {
                } else if q == p {
                    assert(s[p].0 <= s[i].0);
                } else if q == ki {
                    assert(s[p].0 <= s[i].0);
                } else {
                    assert(s[q].0 <= s[i].0);
                }
            }
            assert forall|i: int| 0 < i < t.len() && (i - 1) / 2 == p && p > 0 implies t[(p
                - 1) / 2].0 <= #[trigger] t[i].0 by {
                assert(s[(p - 1) / 2].0 <= s[p].0);
                if i != ki {
                    assert(s[p].0 <= s[i].0);
                }
            }
            lemma_sift_up_heap_ordered(t, parent(k));
        } else {
            assert forall|i: int| 0 < i < s.len() implies s[(i - 1) / 2].0 <= #[trigger] s[i].0 by {
                if i == ki {
                }
            }
        }
    }
}

/// Inserting into a heap-ordered array keeps it heap-ordered, whatever the
/// new key.
pub proof fn law_insert_keeps_heap_order<E>(s: Seq<(u32, E)>, t: u32, e: E)
    requires
        heap_ordered(s),
    ensures
        heap_ordered(sift_up(s.push((t, e)), s.len())),
{
    let s1 = s.push((t, e));
    let n = s.len() as int;
    assert forall|i: int| 0 < i < s1.len() && i != n implies s1[(i - 1) / 2].0 <= #[trigger] s1[i].0 by {
        assert(s[(i - 1) / 2].0 <= s[i].0);
    }
    lemma_sift_up_heap_ordered(s1, s.len());
}

/// The array after the front entry is handed out: the last entry takes the
/// front's place and sinks.
pub open spec fn after_advance<E>(s: Seq<(u32, E)>) -> Seq<(u32, E)> {
    sift_down(s.update(0, s.last()).drop_last(), 0)
}

/// What advancing at `t` until nothing is handed out gives from the array `s`:
/// the entries handed out, in turn, and the array left.
pub open spec fn drain<E>(s: Seq<(u32, E)>, t: u32) -> (Seq<(u32, E)>, Seq<(u32, E)>)
    decreases s.len(),
{
    if s.len() == 0 || t < s[0].0 {
        (Seq::empty(), s)
    } else {
        proof {
            lemma_sift_down_multiset(s.update(0, s.last()).drop_last(), 0);
        }
        let (out, rest) = drain(after_advance(s), t);
        (seq![s[0]] + out, rest)
    }
}

/// Handing out the front entry of a non-empty array keeps every other entry.
pub proof fn lemma_after_advance_multiset<E>(s: Seq<(u32, E)>)
    requires
        s.len() > 0,
    ensures
        s.to_multiset() == after_advance(s).to_multiset().insert(s[0]),
        after_advance(s).len() + 1 == s.len(),
{
    broadcast use vstd::multiset::group_multiset_axioms;

    let s1 = s.update(0, s.last()).drop_last();
    lemma_sift_down_multiset(s1, 0);
    assert(s.update(0, s.last()).to_multiset() == s.to_multiset().insert(s.last()).remove(s[0]));
    assert(s.update(0, s.last()) =~= s1.push(s.last()));
    assert(s.to_multiset().contains(s[0]));
    assert(s1.push(s.last()).to_multiset() == s1.to_multiset().insert(s.last()));
    let m0 = s.to_multiset();
    let m1 = s1.to_multiset();
    assert forall|x| m0.count(x) == #[trigger] m1.insert(s[0]).count(x) by {
        assert(m1.insert(s.last()).count(x) == m0.insert(s.last()).remove(s[0]).count(x));
    }
    assert(m0 =~= m1.insert(s[0]));
}

/// Draining a queue at `t` hands out exactly the events due by `t`, in time
/// order, and leaves exactly the later ones.
pub proof fn law_drain_hands_out_due_events_in_time_order<E>(s: Seq<(u32, E)>, t: u32)
    requires
        heap_ordered(s),
    ensures
        forall|i: int, j: int|
            0 <= i <= j < drain(s, t).0.len() ==> #[trigger] drain(s, t).0[i].0 <= #[trigger] drain(
                s,
                t,
            ).0[j].0,
        forall|i: int| 0 <= i < drain(s, t).0.len() ==> #[trigger] drain(s, t).0[i].0 <= t,
        forall|j: int| 0 <= j < drain(s, t).1.len() ==> t < #[trigger] drain(s, t).1[j].0,
        drain(s, t).0.to_multiset().add(drain(s, t).1.to_multiset()) == s.to_multiset(),
    decreases s.len(),
{
    broadcast use vstd::multiset::group_multiset_axioms;

    lemma_heap_ordered_front_earliest(s);
    if s.len() == 0 || t < s[0].0 {
        assert(drain(s, t).0.to_multiset() =~= vstd::multiset::Multiset::empty());
        assert forall|j: int| 0 <= j < s.len() implies t < #[trigger] s[j].0 by {
            assert(s[0].0 <= s[j].0);
        }
    } else {
        let a = after_advance(s);
        lemma_after_advance_multiset(s);
        law_advance_keeps_heap_order(s);
        law_drain_hands_out_due_events_in_time_order(a, t);
        let (out, rest) = drain(a, t);
        let full = seq![s[0]] + out;
        assert(drain(s, t).0 == full);
        assert(drain(s, t).1 == rest);
        // Every entry handed out later comes from `a`, so from `s`.
        assert forall|k: int| 0 <= k < out.len() implies s[0].0 <= #[trigger] out[k].0 by {
            assert(out.to_multiset().contains(out[k]));
            assert(a.to_multiset().contains(out[k]));
            assert(s.to_multiset().contains(out[k]));
            assert(s.contains(out[k]));
            let m = choose|m: int| 0 <= m < s.len() && s[m] == out[k];
            assert(s[0].0 <= s[m].0);
        }
        assert forall|i: int, j: int| 0 <= i <= j < full.len() implies #[trigger] full[i].0
            <= #[trigger] full[j].0 by {
            if i == 0 {
                if j > 0 {
                    assert(full[j] == out[j - 1]);
                }
            } else {
                assert(full[i] == out[i - 1]);
                assert(full[j] == out[j - 1]);
                assert(out[i - 1].0 <= out[j - 1].0);
            }
        }
        assert forall|i: int| 0 <= i < full.len() implies #[trigger] full[i].0 <= t by {
            if i > 0 {
                assert(full[i] == out[i - 1]);
                assert(out[i - 1].0 <= t);
            }
        }
        assert(full =~= out.insert(0, s[0]));
        assert(full.to_multiset() == out.to_multiset().insert(s[0]));
        assert(full.to_multiset().add(rest.to_multiset()) =~= s.to_multiset());
    }
}

/// Exchanges the entries at `i` and `j` of `v`.
fn swap_entries<T>(v: &mut Vec<T>, i: usize, j: usize)
    requires
        i < j < old(v).len(),
    ensures
        final(v)@ == swapped(old(v)@, i as int, j as int),
{
    let s = v.as_mut_slice();
    let (a, b) = s.split_at_mut(j);
    let (_, a2) = a.split_at_mut(i);
    match (a2.first_mut(), b.first_mut()) {
        (Some(x), Some(y)) => std::mem::swap(x, y),
        _ => {},
    }
}

/// Raises the entry at `i` towards the front (see `sift_up`).
fn upheap<E>(v: &mut Vec<(u32, E)>, i: usize)
    requires
        i < old(v)@.len(),
    ensures
        final(v)@ == sift_up(old(v)@, i as nat),
{
    let mut k = i;
    while k > 0
        invariant
            k < v@.len(),
            sift_up(v@, k as nat) == sift_up(old(v)@, i as nat),
        decreases k,
    {
        let p = (k - 1) / 2;
        if v[p].0 > v[k].0 {
            swap_entries(v, p, k);
            k = p;
        } else {
            return;
        }
    }
}

/// Sinks the entry at `i` away from the front (see `sift_down`).
fn downheap<E>(v: &mut Vec<(u32, E)>, i: usize)
    requires
        i < old(v)@.len() || i == 0,
    ensures
        final(v)@ == sift_down(old(v)@, i as nat),
{
    let mut k = i;
    loop
        invariant
            k < v@.len() || k == 0,
            sift_down(v@, k as nat) == sift_down(old(v)@, i as nat),
        decreases v@.len() - k,
    {
        // No children: 2k + 1 >= len, written so that it cannot overflow.
        if k >= v.len() / 2 {
            return;
        }
        let l = k * 2 + 1;
        let r = k * 2 + 2;
        // No right child: just try the left child.
        if r >= v.len() {
            if v[k].0 > v[l].0 {
                swap_entries(v, k, l);
                k = l;
                continue;
            } else {
                return;
            }
        }
        // Both children.
        let left_greatest = v[l].0 >= v[r].0;
        let greater_than_left = v[k].0 > v[l].0;
        let greater_than_right = v[k].0 > v[r].0;

        let swap_left = (greater_than_left && greater_than_right && !left_greatest) || (
        greater_than_left && !greater_than_right);
        if swap_left {
            swap_entries(v, k, l);
            k = l;
            continue;
        }
        let swap_right = (greater_than_left && greater_than_right && left_greatest) || (
        greater_than_right && !greater_than_left);
        if swap_right {
            swap_entries(v, k, r);
            k = r;
            continue;
        }
        return;
    }
}

/// Events keyed by time, kept in an array in heap order, so that the front
/// entry holds the earliest key and is the next one handed out. A key is an
/// integer that orders times (see `time_key`).
pub struct TimeQueue<E> {
    elems: Vec<(u32, E)>,
}

impl<E> View for TimeQueue<E> {
    type V = Seq<(u32, E)>;

    closed spec fn view(&self) -> Seq<(u32, E)> {
        self.elems@
    }
}

impl<E> TimeQueue<E> {
    /// The array is always in heap order.
    #[verifier::type_invariant]
    spec fn is_heap(self) -> bool {
        heap_ordered(self.elems@)
    }

    /// An empty queue.
    pub fn new() -> (q: TimeQueue<E>)
        ensures
            q@ == Seq::<(u32, E)>::empty(),
    {
        TimeQueue { elems: Vec::new() }
    }

    /// Adds `elem` at time key `t`: it goes to the back and rises past each
    /// parent with a later key.
    pub fn insert(&mut self, t: u32, elem: E)
        ensures
            final(self)@ == sift_up(old(self)@.push((t, elem)), old(self)@.len()),
            final(self)@.len() == old(self)@.len() + 1,
            final(self)@.to_multiset() == old(self)@.to_multiset().insert((t, elem)),
            heap_ordered(old(self)@),
            heap_ordered(final(self)@),
    {
        proof {
            use_type_invariant(&*self);
        }
        let mut elems = Vec::new();
        std::mem::swap(&mut elems, &mut self.elems);
        let ghost s1 = elems@.push((t, elem));
        proof {
            lemma_sift_up_multiset(s1, elems@.len());
            law_insert_keeps_heap_order(elems@, t, elem);
        }
        elems.push((t, elem));
        let n = elems.len() - 1;
        upheap(&mut elems, n);
        self.elems = elems;
    }

    /// Hands out the event with the earliest key if that key is no later than
    /// `t`, and nothing otherwise: the last entry takes the front's place and
    /// sinks.
    pub fn advance(&mut self, t: u32) -> (r: Option<E>)
        ensures
            heap_ordered(old(self)@),
            heap_ordered(final(self)@),
            r is None <==> forall|j: int| 0 <= j < old(self)@.len() ==> t < #[trigger] old(self)@[j].0,
            r is None ==> final(self)@ == old(self)@,
            r is Some ==> {
                &&& r == Some(old(self)@[0].1)
                &&& old(self)@[0].0 <= t
                &&& forall|j: int| 0 <= j < old(self)@.len() ==> old(self)@[0].0 <= #[trigger] old(self)@[j].0
                &&& final(self)@ == after_advance(old(self)@)
                &&& old(self)@.to_multiset() == final(self)@.to_multiset().insert(old(self)@[0])
                &&& final(self)@.len() + 1 == old(self)@.len()
            },
    {
        proof {
            use_type_invariant(&*self);
            lemma_heap_ordered_front_earliest(self.elems@);
        }
        if self.elems.len() == 0 || t < self.elems[0].0 {
            return None;
        }
        let mut elems = Vec::new();
        std::mem::swap(&mut elems, &mut self.elems);
        let ghost s0 = elems@;
        let (_, ret) = elems.swap_remove(0);
        proof {
            lemma_after_advance_multiset(s0);
            law_advance_keeps_heap_order(s0);
        }
        downheap(&mut elems, 0);
        self.elems = elems;
        Some(ret)
    }
}

} // verus!
