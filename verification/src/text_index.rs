//! A list of texts that can be searched by halving.

use crate::bytes::{keys_ascend, lemma_found_at_lower_bound, lower_bound, KeyTable};
use crate::order::{bytes_before, bytes_less, lemma_bytes_total, TextTable};
use crate::segment::lists_text;
use crate::sort::{is_sorted_order, sorted_order, sorts_before};
use crate::text::same_text;
use vstd::prelude::*;
use vstd::string::*;
use vstd::utf8::*;

verus! {

/// A list of texts with its sorted order.
pub struct TextIndex {
    pub items: Vec<String>,
    pub order: Vec<usize>,
}

impl KeyTable for TextIndex {
    open spec fn size(&self) -> nat {
        self.order@.len()
    }

    open spec fn key_at(&self, i: int) -> Seq<u8> {
        encode_utf8(self.items@[self.order@[i] as int]@)
    }

    open spec fn readable(&self) -> bool {
        forall|i: int|
            0 <= i < self.order@.len() ==> (#[trigger] self.order@[i]) < self.items@.len()
    }

    fn count(&self) -> (n: usize) {
        self.order.len()
    }

    fn key_below(&self, i: usize, target: &[u8]) -> (r: bool) {
        let at: usize = self.order[i];
        bytes_less(self.items[at].as_str().as_bytes(), target)
    }
}

/// Whether `i` is the last item that is `t`.
pub open spec fn is_last(items: Seq<String>, t: Seq<char>, i: int) -> bool {
    &&& 0 <= i < items.len()
    &&& items[i]@ == t
    &&& forall|j: int| i < j < items.len() ==> (#[trigger] items[j])@ != t
}

impl TextIndex {
    /// The order is the sorted order of the items.
    pub open spec fn wf(&self) -> bool {
        is_sorted_order(&(TextTable { items: &self.items }), self.order@)
    }

    /// Indexes a list.
    pub fn new(items: Vec<String>) -> (x: TextIndex)
        ensures
            x.wf(),
            x.items@ == items@,
    {
        let order = sorted_order(&TextTable { items: &items });
        TextIndex { items, order }
    }

    proof fn lemma_ascends(&self)
        requires
            self.wf(),
        ensures
            keys_ascend(self),
            self.readable(),
    {
        let table = TextTable { items: &self.items };
        assert forall|i: int, j: int|
            #![trigger self.key_at(i), self.key_at(j)]
            0 <= i < j < self.size() implies !bytes_before(self.key_at(j), self.key_at(i)) by {
            assert(sorts_before(&table, self.order@[i] as int, self.order@[j] as int));
            lemma_bytes_total(self.key_at(i), self.key_at(j));
        }
    }

    /// The stretch of the sorted order that holds the items that are `t`.
    fn run_of(&self, t: &str) -> (r: (usize, usize))
        requires
            self.wf(),
        ensures
            r.0 <= r.1 <= self.order@.len(),
            forall|a: int|
                r.0 <= a < r.1 ==> self.items@[#[trigger] self.order@[a] as int]@ == t@,
            forall|i: int|
                0 <= i < self.items@.len() && (#[trigger] self.items@[i])@ == t@ ==> exists|a: int|
                    r.0 <= a < r.1 && self.order@[a] == i,
    {
        proof {
            self.lemma_ascends();
        }
        let n: usize = self.order.len();
        let p: usize = lower_bound(self, t.as_bytes());
        let ghost key = encode_utf8(t@);
        let mut k: usize = p;
        while k < n && same_text(self.items[self.order[k]].as_str(), t)
            invariant
                self.wf(),
                self.readable(),
                n == self.order@.len(),
                p <= k <= n,
                forall|a: int|
                    p <= a < k ==> self.items@[#[trigger] self.order@[a] as int]@ == t@,
            decreases n - k,
        {
            k += 1;
        }
        proof {
            assert forall|i: int| 0 <= i < self.items@.len() && (#[trigger] self.items@[i])@
                == t@ implies exists|a: int| p <= a < k && self.order@[a] == i by {
                assert(self.order@.contains(i as usize));
                let a = choose|a: int| 0 <= a < n && self.order@[a] == i as usize;
                assert(self.key_at(a) == key);
                lemma_found_at_lower_bound(self, key, p as int, a);
                if a >= k {
                    assert(self.key_at(k as int) == key) by {
                        lemma_bytes_total(self.key_at(k as int), key);
                        assert(!bytes_before(self.key_at(k as int), key));
                        if a > k {
                            assert(!bytes_before(self.key_at(a), self.key_at(k as int)));
                        }
                    }
                    encode_utf8_decode_utf8(self.items@[self.order@[k as int] as int]@);
                    encode_utf8_decode_utf8(t@);
                }
            }
        }
        (p, k)
    }

    /// Finds the last item that is `t`.
    pub fn find_last(&self, t: &str) -> (r: Option<usize>)
        requires
            self.wf(),
        ensures
            (match r {
                Some(i) => is_last(self.items@, t@, i as int),
                None => !lists_text(self.items@, t@),
            }),
    {
        let (p, k) = self.run_of(t);
        let ghost table = TextTable { items: &self.items };
        if k == p {
            assert(!lists_text(self.items@, t@));
            return None;
        }
        let last: usize = self.order[k - 1];
        proof {
            assert(self.items@[self.order@[k - 1] as int]@ == t@);
            assert forall|j: int| last < j < self.items@.len() implies (#[trigger] self.items@[j])@
                != t@ by {
                if self.items@[j]@ == t@ {
                    let a = choose|a: int| p <= a < k && self.order@[a] == j;
                    if a < k - 1 {
                        assert(sorts_before(&table, self.order@[a] as int, self.order@[k - 1] as int));
                        crate::order::lemma_text_total(t@, t@);
                    }
                }
            }
        }
        Some(last)
    }

    /// Whether the list holds a text.
    pub fn holds(&self, t: &str) -> (r: bool)
        requires
            self.wf(),
        ensures
            r == lists_text(self.items@, t@),
    {
        self.find_last(t).is_some()
    }
}


/// How many of the first `n` items are `t`.
pub open spec fn count_among(items: Seq<String>, t: Seq<char>, n: int) -> nat
    decreases n,
{
    if n <= 0 {
        0
    } else {
        count_among(items, t, n - 1) + if items[n - 1]@ == t {
            1nat
        } else {
            0nat
        }
    }
}

/// The positions below `n` of the items that are `t`.
spec fn positions_among(items: Seq<String>, t: Seq<char>, n: int) -> Set<int> {
    Set::new(|i: int| 0 <= i < n && items[i]@ == t)
}

proof fn lemma_count_is_size(items: Seq<String>, t: Seq<char>, n: int)
    requires
        0 <= n <= items.len(),
    ensures
        positions_among(items, t, n).finite(),
        positions_among(items, t, n).len() == count_among(items, t, n),
    decreases n,
{
    if n <= 0 {
        assert(positions_among(items, t, n) =~= Set::empty());
    } else {
        lemma_count_is_size(items, t, n - 1);
        let before = positions_among(items, t, n - 1);
        let now = positions_among(items, t, n);
        if items[n - 1]@ == t {
            assert(now =~= before.insert(n - 1));
        } else {
            assert(now =~= before);
        }
    }
}

impl TextIndex {
    /// How many items are `t`.
    pub fn count_of(&self, t: &str) -> (n: usize)
        requires
            self.wf(),
        ensures
            n == count_among(self.items@, t@, self.items@.len() as int),
    {
        let (p, k) = self.run_of(t);
        proof {
            let run = Seq::new((k - p) as nat, |b: int| self.order@[p + b] as int);
            let all = positions_among(self.items@, t@, self.items@.len() as int);
            crate::sort::lemma_sorted_order_distinct(
                &(TextTable { items: &self.items }),
                self.order@,
            );
            assert(run.no_duplicates());
            run.unique_seq_to_set();
            assert forall|i: int| run.to_set().contains(i) == all.contains(i) by {
                if run.to_set().contains(i) {
                    let b = choose|b: int| 0 <= b < run.len() && run[b] == i;
                    assert(self.items@[self.order@[p + b] as int]@ == t@);
                }
                if all.contains(i) {
                    assert(self.items@[i]@ == t@);
                    let a = choose|a: int| p <= a < k && self.order@[a] == i;
                    assert(run[a - p] == i);
                }
            }
            assert(run.to_set() =~= all);
            lemma_count_is_size(self.items@, t@, self.items@.len() as int);
        }
        k - p
    }
}


/// Whether `i` is the first item that is `t`.
pub open spec fn is_first_item(items: Seq<String>, t: Seq<char>, i: int) -> bool {
    &&& 0 <= i < items.len()
    &&& items[i]@ == t
    &&& forall|j: int| 0 <= j < i ==> (#[trigger] items[j])@ != t
}

impl TextIndex {
    /// Finds the first item that is `t`.
    pub fn find_first(&self, t: &str) -> (r: Option<usize>)
        requires
            self.wf(),
        ensures
            (match r {
                Some(i) => is_first_item(self.items@, t@, i as int),
                None => !lists_text(self.items@, t@),
            }),
    {
        let (p, k) = self.run_of(t);
        let ghost table = TextTable { items: &self.items };
        if k == p {
            assert(!lists_text(self.items@, t@));
            return None;
        }
        let head: usize = self.order[p];
        proof {
            assert(self.items@[self.order@[p as int] as int]@ == t@);
            assert forall|j: int| 0 <= j < head implies (#[trigger] self.items@[j])@ != t@ by {
                if self.items@[j]@ == t@ {
                    let a = choose|a: int| p <= a < k && self.order@[a] == j;
                    if a > p {
                        assert(sorts_before(&table, self.order@[p as int] as int, self.order@[a] as int));
                        crate::order::lemma_text_total(t@, t@);
                    }
                }
            }
        }
        Some(head)
    }
}

} // verus!
