//! A binary heap that hands out the cheapest node first.
use vstd::multiset::Multiset;
use vstd::prelude::*;
use vstd::seq_lib::*;

verus! {

/// A cost and the node it was found for. The cheaper entry comes first, the
/// lower node among equal costs.
pub type Entry = (u64, u32);

/// Whether an entry comes no later than another.
pub open spec fn no_later(a: Entry, b: Entry) -> bool {
    a.0 < b.0 || (a.0 == b.0 && a.1 <= b.1)
}

fn is_no_later(a: Entry, b: Entry) -> (r: bool)
    ensures
        r == no_later(a, b),
{
    a.0 < b.0 || (a.0 == b.0 && a.1 <= b.1)
}

/// Entries in heap order: each comes no earlier than the one it hangs under.
pub struct MinHeap {
    items: Vec<Entry>,
}

/// Where the entry at `i` hangs.
spec fn parent(i: int) -> int {
    (i - 1) / 2
}

/// Heap order but for the entry at `hole`, which may come before what it hangs
/// under.
spec fn ordered_above(s: Seq<Entry>, hole: int) -> bool {
    &&& forall|i: int|
        0 < i < s.len() && i != hole ==> no_later(s[parent(i)], #[trigger] s[i])
    &&& forall|i: int|
        0 < i < s.len() && parent(i) == hole && hole > 0 ==> no_later(
            s[parent(hole)],
            #[trigger] s[i],
        )
}

/// Heap order but for the entry at `hole`, which may come after what hangs under
/// it.
spec fn ordered_below(s: Seq<Entry>, hole: int) -> bool {
    &&& forall|i: int|
        0 < i < s.len() && parent(i) != hole ==> no_later(s[parent(i)], #[trigger] s[i])
    &&& forall|i: int|
        0 < i < s.len() && parent(i) == hole && hole > 0 ==> no_later(
            s[parent(hole)],
            #[trigger] s[i],
        )
}

impl View for MinHeap {
    type V = Multiset<Entry>;

    closed spec fn view(&self) -> Multiset<Entry> {
        self.items@.to_multiset()
    }
}

impl MinHeap {
    /// The entries are in heap order.
    pub closed spec fn wf(&self) -> bool {
        forall|i: int|
            0 < i < self.items@.len() ==> no_later(self.items@[parent(i)], #[trigger] self.items@[i])
    }

    /// A heap without entries.
    pub fn new() -> (h: Self)
        ensures
            h.wf(),
            h@ == Multiset::<Entry>::empty(),
    {
        let h = MinHeap { items: Vec::new() };
        proof {
            h.items@.to_multiset_ensures();
            assert(h@ =~= Multiset::empty());
        }
        h
    }

    /// Adds an entry.
    pub fn push(&mut self, e: Entry)
        requires
            old(self).wf(),
        ensures
            final(self).wf(),
            final(self)@ == old(self)@.insert(e),
    {
        let ghost before = self.items@;
        self.items.push(e);
        proof {
            before.to_multiset_ensures();
        }
        let mut k: usize = self.items.len() - 1;
        while k > 0
            invariant_except_break
                k < self.items@.len(),
                ordered_above(self.items@, k as int),
                self.items@.to_multiset() == before.to_multiset().insert(e),
            ensures
                self.wf(),
                self.items@.to_multiset() == before.to_multiset().insert(e),
            decreases k,
        {
            let up: usize = (k - 1) / 2;
            let here: Entry = self.items[k];
            let above: Entry = self.items[up];
            if is_no_later(above, here) {
                assert(self.wf());
                break;
            }
            let ghost s = self.items@;
            self.items[k] = above;
            self.items[up] = here;
            proof {
                lemma_swap(s, k as int, up as int);
                lemma_up(s, k as int);
            }
            k = up;
        }
    }

    /// Takes the first entry out, if there is one.
    pub fn pop(&mut self) -> (r: Option<Entry>)
        requires
            old(self).wf(),
        ensures
            final(self).wf(),
            r is None <==> old(self)@.len() == 0,
            r is None ==> final(self)@ == old(self)@,
            r matches Some(e) ==> {
                &&& old(self)@.contains(e)
                &&& forall|x: Entry| #[trigger] old(self)@.contains(x) ==> no_later(e, x)
                &&& final(self)@ == old(self)@.remove(e)
                &&& final(self)@.len() + 1 == old(self)@.len()
            },
    {
        let ghost before = self.items@;
        proof {
            before.to_multiset_ensures();
        }
        let n: usize = self.items.len();
        if n == 0 {
            return None;
        }
        let first: Entry = self.items[0];
        let last: Entry = self.items[n - 1];
        proof {
            assert forall|x: Entry| #[trigger] self@.contains(x) implies no_later(first, x) by {
                assert(before.contains(x));
                let i = before.index_of(x);
                lemma_first(before, i);
            }
            assert(before.contains(first));
        }
        self.items.pop();
        proof {
            assert(before.subrange(0, n - 1) =~= before.remove(n - 1));
        }
        if n == 1 {
            assert(self.items@.to_multiset() =~= before.to_multiset().remove(first));
            return Some(first);
        }
        let ghost cut = self.items@;
        self.items[0] = last;
        proof {
            cut.to_multiset_ensures();
            self.items@.to_multiset_ensures();
            to_multiset_update(cut, 0, last);
            assert(self.items@.to_multiset() =~= before.to_multiset().remove(first));
            assert forall|i: int|
                0 < i < self.items@.len() && parent(i) != 0 implies no_later(
                self.items@[parent(i)],
                #[trigger] self.items@[i],
            ) by {
                assert(self.items@[i] == before[i]);
                assert(self.items@[parent(i)] == before[parent(i)]);
            }
        }
        let mut k: usize = 0;
        loop
            invariant_except_break
                k < self.items@.len(),
                ordered_below(self.items@, k as int),
                self.items@.to_multiset() == before.to_multiset().remove(first),
                self.items@.len() == n - 1,
            ensures
                self.wf(),
                self.items@.to_multiset() == before.to_multiset().remove(first),
            decreases n - k,
        {
            let len: usize = self.items.len();
            if k >= len / 2 {
                assert forall|i: int| 0 < i < self.items@.len() implies no_later(
                    self.items@[parent(i)],
                    #[trigger] self.items@[i],
                ) by {
                    assert(parent(i) != k);
                }
                assert(self.wf());
                break;
            }
            let left: usize = 2 * k + 1;
            let mut child: usize = left;
            if left + 1 < len {
                if !is_no_later(self.items[left], self.items[left + 1]) {
                    child = left + 1;
                }
            }
            let here: Entry = self.items[k];
            let below: Entry = self.items[child];
            let ghost s = self.items@;
            assert forall|i: int| 0 < i < s.len() && parent(i) == k implies i == left || i == left
                + 1 by {}
            assert(parent(child as int) == k);
            assert(parent(left as int) == k);
            if left + 1 < len {
                assert(parent(left + 1) == k);
            }
            assert forall|i: int| 0 < i < s.len() && parent(i) == k implies no_later(
                below,
                #[trigger] s[i],
            ) by {
                assert(i == left || i == left + 1);
            }
            if is_no_later(here, below) {
                assert forall|i: int| 0 < i < s.len() implies no_later(
                    s[parent(i)],
                    #[trigger] s[i],
                ) by {
                    if parent(i) == k {
                        assert(no_later(below, s[i]));
                    }
                }
                assert(self.wf());
                break;
            }
            self.items[k] = below;
            self.items[child] = here;
            proof {
                lemma_swap(s, k as int, child as int);
                lemma_down(s, k as int, child as int);
            }
            k = child;
        }
        Some(first)
    }
}

/// Exchanging two entries keeps what there is.
proof fn lemma_swap(s: Seq<Entry>, i: int, j: int)
    requires
        0 <= i < s.len(),
        0 <= j < s.len(),
    ensures
        s.update(i, s[j]).update(j, s[i]).to_multiset() == s.to_multiset(),
{
    let mid = s.update(i, s[j]);
    s.to_multiset_ensures();
    to_multiset_update(s, i, s[j]);
    to_multiset_update(mid, j, s[i]);
    assert(mid.update(j, s[i]).to_multiset() =~= s.to_multiset());
}

/// Moving an entry up restores the order where it was.
proof fn lemma_up(s: Seq<Entry>, k: int)
    requires
        0 < k < s.len(),
        ordered_above(s, k),
        !no_later(s[parent(k)], s[k]),
    ensures
        ordered_above(s.update(k, s[parent(k)]).update(parent(k), s[k]), parent(k)),
{
    let up = parent(k);
    let t = s.update(k, s[up]).update(up, s[k]);
    assert forall|i: int| 0 < i < t.len() && i != up implies no_later(
        t[parent(i)],
        #[trigger] t[i],
    ) by {
        if i == k {
        } else if parent(i) == k {
            assert(no_later(s[up], s[i]));
        } else if parent(i) == up {
            assert(no_later(s[up], s[i]));
        } else {
            assert(no_later(s[parent(i)], s[i]));
        }
    }
    if up > 0 {
        assert(no_later(s[parent(up)], s[up]));
        assert forall|i: int| 0 < i < t.len() && parent(i) == up implies no_later(
            t[parent(up)],
            #[trigger] t[i],
        ) by {
            if i != k {
                assert(no_later(s[up], s[i]));
            }
        }
    }
}

/// Moving an entry down restores the order where it was.
proof fn lemma_down(s: Seq<Entry>, k: int, child: int)
    requires
        0 <= k < s.len(),
        0 < child < s.len(),
        parent(child) == k,
        ordered_below(s, k),
        !no_later(s[k], s[child]),
        forall|i: int| 0 < i < s.len() && parent(i) == k ==> no_later(s[child], #[trigger] s[i]),
    ensures
        ordered_below(s.update(k, s[child]).update(child, s[k]), child),
{
    let t = s.update(k, s[child]).update(child, s[k]);
    assert forall|i: int| 0 < i < t.len() && parent(i) != child implies no_later(
        t[parent(i)],
        #[trigger] t[i],
    ) by {
        if i == child {
        } else if i == k {
            assert(no_later(s[parent(k)], s[child]));
        } else if parent(i) == k {
            assert(no_later(s[child], s[i]));
        } else {
            assert(no_later(s[parent(i)], s[i]));
        }
    }
    assert forall|i: int| 0 < i < t.len() && parent(i) == child implies no_later(
        t[parent(child)],
        #[trigger] t[i],
    ) by {
        assert(no_later(s[parent(i)], s[i]));
    }
}

/// Nothing in a heap comes before its first entry.
proof fn lemma_first(s: Seq<Entry>, i: int)
    requires
        0 <= i < s.len(),
        forall|j: int| 0 < j < s.len() ==> no_later(s[parent(j)], #[trigger] s[j]),
    ensures
        no_later(s[0], s[i]),
    decreases i,
{
    if i > 0 {
        lemma_first(s, parent(i));
        assert(no_later(s[parent(i)], s[i]));
    }
}

/// The entry of lesser cost comes first, and among equal costs that of the lesser
/// node; of two entries one is always no later than the other.
pub proof fn law_the_lesser_cost_comes_first(a: Entry, b: Entry)
    ensures
        a.0 < b.0 ==> no_later(a, b) && !no_later(b, a),
        a.0 == b.0 && a.1 < b.1 ==> no_later(a, b) && !no_later(b, a),
        no_later(a, a),
        no_later(a, b) || no_later(b, a),
        no_later(a, b) && no_later(b, a) ==> a == b,
{
}

} // verus!
