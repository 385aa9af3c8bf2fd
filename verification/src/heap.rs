use vstd::prelude::*;
use vstd::multiset::Multiset;

verus! {

broadcast use vstd::seq_lib::group_to_multiset_ensures, vstd::multiset::group_multiset_axioms;

/// Entries `(priority, vertex)` are ordered lexicographically; this is their rank.
pub open spec fn rank(e: (u16, u16)) -> int {
    e.0 as int * 65536 + e.1 as int
}

pub open spec fn parent(i: int) -> int {
    (i - 1) / 2
}

/// Every entry ranks no lower than its parent.
pub open spec fn heap_ordered(s: Seq<(u16, u16)>) -> bool {
    forall|j: int| 0 < j < s.len() ==> rank(s[parent(j)]) <= rank(#[trigger] s[j])
}

/// A binary min-heap of `(priority, vertex)` entries, popped in lexicographic order.
pub struct MinHeap {
    data: Vec<(u16, u16)>,
}

fn rank_of(e: (u16, u16)) -> (r: u32)
    ensures
        r as int == rank(e),
{
    (e.0 as u32) * 65536 + (e.1 as u32)
}

proof fn lemma_root_first(s: Seq<(u16, u16)>, i: int)
    requires
        heap_ordered(s),
        0 <= i < s.len(),
    ensures
        rank(s[0]) <= rank(s[i]),
    decreases i,
{
    if i > 0 {
        lemma_root_first(s, parent(i));
    }
}

proof fn lemma_swap_multiset(s: Seq<(u16, u16)>, i: int, m: int)
    requires
        0 <= i < s.len(),
        0 <= m < s.len(),
    ensures
        s.update(i, s[m]).update(m, s[i]).to_multiset() =~= s.to_multiset(),
{
    let s1 = s.update(i, s[m]);
    assert(s1.to_multiset() == s.to_multiset().insert(s[m]).remove(s[i]));
    if i == m {
        assert(s.update(i, s[m]).update(m, s[i]) =~= s);
    } else {
        assert(s1[m] == s[m]);
        assert(s1.update(m, s[i]).to_multiset() == s1.to_multiset().insert(s[i]).remove(s[m]));
        assert(s.to_multiset().count(s[i]) > 0);
        assert(s.to_multiset().count(s[m]) > 0);
    }
}

impl MinHeap {
    /// The entries in the heap.
    pub closed spec fn view(&self) -> Multiset<(u16, u16)> {
        self.data@.to_multiset()
    }

    pub closed spec fn wf(&self) -> bool {
        heap_ordered(self.data@)
    }

    pub fn new() -> (h: MinHeap)
        ensures
            h.wf(),
            h@ =~= Multiset::empty(),
    {
        MinHeap { data: Vec::new() }
    }

    pub fn is_empty(&self) -> (b: bool)
        ensures
            b == (self@.len() == 0),
    {
        self.data.len() == 0
    }

    pub fn push(&mut self, e: (u16, u16))
        requires
            old(self).wf(),
        ensures
            final(self).wf(),
            final(self)@ =~= old(self)@.insert(e),
    {
        self.data.push(e);
        let mut i = self.data.len() - 1;
        while i > 0
            invariant
                0 <= i < self.data@.len(),
                self.data@.to_multiset() =~= old(self)@.insert(e),
                forall|j: int|
                    0 < j < self.data@.len() && j != i ==> rank(self.data@[parent(j)]) <= rank(#[trigger] self.data@[j]),
                forall|j: int|
                    0 < j < self.data@.len() && parent(j) == i && i > 0 ==> rank(self.data@[parent(i as int)]) <= rank(
                        #[trigger] self.data@[j],
                    ),
            ensures
                heap_ordered(self.data@),
                self.data@.to_multiset() =~= old(self)@.insert(e),
            decreases i,
        {
            let p = (i - 1) / 2;
            let ci = self.data[i];
            let cp = self.data[p];
            if rank_of(ci) < rank_of(cp) {
                let ghost s = self.data@;
                self.data.set(i, cp);
                self.data.set(p, ci);
                proof {
                    lemma_swap_multiset(s, i as int, p as int);
                    assert(self.data@ == s.update(i as int, s[p as int]).update(p as int, s[i as int]));
                    let t = self.data@;
                    assert forall|j: int| 0 < j < t.len() && j != p implies rank(t[parent(j)]) <= rank(#[trigger] t[j]) by {
                        if j == i {
                        } else if parent(j) == i {
                            assert(rank(s[parent(i as int)]) <= rank(s[j]));
                        } else if parent(j) == p {
                            assert(rank(s[parent(j)]) <= rank(s[j]));
                        } else {
                            assert(rank(s[parent(j)]) <= rank(s[j]));
                        }
                    }
                    assert forall|j: int| 0 < j < t.len() && parent(j) == p && p > 0 implies rank(t[parent(p as int)]) <= rank(
                        #[trigger] t[j],
                    ) by {
                        assert(rank(s[parent(p as int)]) <= rank(s[p as int]));
                        if j != i {
                            assert(rank(s[parent(j)]) <= rank(s[j]));
                        }
                    }
                }
                i = p;
            } else {
                proof {
                    let t = self.data@;
                    assert forall|j: int| 0 < j < t.len() implies rank(t[parent(j)]) <= rank(#[trigger] t[j]) by {
                        if j == i {
                            assert(parent(j) == p);
                        }
                    }
                }
                break;
            }
        }
    }

    pub fn pop(&mut self) -> (r: Option<(u16, u16)>)
        requires
            old(self).wf(),
        ensures
            final(self).wf(),
            old(self)@.len() == 0 ==> r is None && final(self)@ == old(self)@,
            old(self)@.len() > 0 ==> (r matches Some(e) && old(self)@.contains(e) && final(self)@ =~= old(self)@.remove(e)
                && forall|x: (u16, u16)| #[trigger] old(self)@.contains(x) ==> rank(e) <= rank(x)),
    {
        if self.data.len() == 0 {
            return None;
        }
        let ghost s0 = self.data@;
        let top = self.data[0];
        proof {
            assert forall|x: (u16, u16)| #[trigger] s0.to_multiset().contains(x) implies rank(top) <= rank(x) by {
                assert(s0.contains(x));
                let k = choose|k: int| 0 <= k < s0.len() && s0[k] == x;
                lemma_root_first(s0, k);
            }
        }
        let last = self.data.pop().unwrap();
        proof {
            assert(s0 =~= self.data@.push(last));
        }
        if self.data.len() == 0 {
            proof {
                assert(s0 =~= seq![top]);
                assert(self.data@.to_multiset() =~= s0.to_multiset().remove(top));
            }
            return Some(top);
        }
        self.data.set(0, last);
        proof {
            assert(self.data@ == s0.update(0, last).drop_last());
            assert(s0.update(0, last) =~= self.data@.push(last));
            assert(s0.update(0, last).to_multiset() == s0.to_multiset().insert(last).remove(top));
            assert(self.data@.to_multiset().insert(last) == s0.update(0, last).to_multiset());
            assert(self.data@.to_multiset() =~= s0.to_multiset().remove(top));
        }
        let len = self.data.len();
        let mut i: usize = 0;
        while i < len
            invariant
                len == self.data@.len(),
                0 <= i < len,
                self.data@.to_multiset() =~= s0.to_multiset().remove(top),
                forall|j: int|
                    0 < j < self.data@.len() && parent(j) != i ==> rank(self.data@[parent(j)]) <= rank(#[trigger] self.data@[j]),
                forall|j: int|
                    0 < j < self.data@.len() && parent(j) == i && i > 0 ==> rank(self.data@[parent(i as int)]) <= rank(
                        #[trigger] self.data@[j],
                    ),
            ensures
                heap_ordered(self.data@),
                self.data@.to_multiset() =~= s0.to_multiset().remove(top),
            decreases len - i,
        {
            let mut m = i;
            if i < len / 2 {
                let l = 2 * i + 1;
                if rank_of(self.data[l]) < rank_of(self.data[m]) {
                    m = l;
                }
            }
            if i < (len - 1) / 2 {
                let r = 2 * i + 2;
                if rank_of(self.data[r]) < rank_of(self.data[m]) {
                    m = r;
                }
            }
            if m == i {
                proof {
                    let t = self.data@;
                    assert forall|j: int| 0 < j < t.len() implies rank(t[parent(j)]) <= rank(#[trigger] t[j]) by {
                        if parent(j) == i {
                            assert(j == 2 * i + 1 || j == 2 * i + 2);
                        }
                    }
                }
                break;
            }
            let ci = self.data[i];
            let cm = self.data[m];
            let ghost s = self.data@;
            self.data.set(i, cm);
            self.data.set(m, ci);
            proof {
                lemma_swap_multiset(s, i as int, m as int);
                assert(self.data@ == s.update(i as int, s[m as int]).update(m as int, s[i as int]));
                let t = self.data@;
                assert(parent(m as int) == i);
                assert forall|j: int| 0 < j < t.len() && parent(j) != m implies rank(t[parent(j)]) <= rank(#[trigger] t[j]) by {
                    if parent(j) == i {
                        assert(j == 2 * i + 1 || j == 2 * i + 2);
                    } else if j == i {
                        assert(rank(s[parent(i as int)]) <= rank(s[m as int]));
                    } else {
                        assert(rank(s[parent(j)]) <= rank(s[j]));
                    }
                }
                assert forall|j: int| 0 < j < t.len() && parent(j) == m && m > 0 implies rank(t[parent(m as int)]) <= rank(
                    #[trigger] t[j],
                ) by {
                    assert(rank(s[parent(j)]) <= rank(s[j]));
                }
            }
            i = m;
        }
        Some(top)
    }
}

}
