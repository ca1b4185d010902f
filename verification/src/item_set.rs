use vstd::prelude::*;
use crate::lr1_item::{
    ItemView, LR1Item, item_lt, lemma_item_lt_irreflexive, lemma_item_lt_total,
    lemma_item_lt_transitive,
};
use crate::production::Order;

verus! {

/// The items of a row, each as a plain value.
pub open spec fn item_views(v: Seq<LR1Item>) -> Seq<ItemView> {
    Seq::new(v.len(), |i: int| v[i]@)
}

/// Each item of the row comes before all that stand after it.
pub open spec fn rising(s: Seq<ItemView>) -> bool {
    forall|i: int, j: int| 0 <= i < j < s.len() ==> item_lt(#[trigger] s[i], #[trigger] s[j])
}

/// A rising row holds no item twice.
pub proof fn lemma_rising_no_duplicates(s: Seq<ItemView>)
    requires
        rising(s),
    ensures
        s.no_duplicates(),
{
    assert forall|i: int, j: int| 0 <= i < s.len() && 0 <= j < s.len() && i != j implies s[i]
        != s[j] by {
        lemma_item_lt_irreflexive(s[i]);
        if i < j {
            assert(item_lt(s[i], s[j]));
        } else {
            assert(item_lt(s[j], s[i]));
        }
    }
}

/// Two rising rows with the same members are the same row.
pub proof fn lemma_rising_unique(a: Seq<ItemView>, b: Seq<ItemView>)
    requires
        rising(a),
        rising(b),
        a.to_set() == b.to_set(),
    ensures
        a == b,
{
    lemma_rising_no_duplicates(a);
    lemma_rising_no_duplicates(b);
    a.unique_seq_to_set();
    b.unique_seq_to_set();
    assert(a.len() == b.len());
    assert forall|k: int| 0 <= k < a.len() implies a[k] == b[k] by {
        lemma_rising_agree(a, b, k);
    }
    assert(a =~= b);
}

/// Two rising rows with the same members agree up to every place.
proof fn lemma_rising_agree(a: Seq<ItemView>, b: Seq<ItemView>, k: int)
    requires
        rising(a),
        rising(b),
        a.to_set() == b.to_set(),
        a.len() == b.len(),
        0 <= k < a.len(),
    ensures
        a[k] == b[k],
    decreases k,
{
    if k > 0 {
        lemma_rising_agree(a, b, k - 1);
    }
    assert forall|i: int| 0 <= i < k implies a[i] == b[i] by {
        lemma_rising_agree(a, b, i);
    }
    lemma_item_lt_total(a[k], b[k]);
    if item_lt(a[k], b[k]) {
        lemma_not_member(b, a, k);
        assert(a.to_set().contains(a[k]));
        assert(b.contains(a[k]));
    } else if item_lt(b[k], a[k]) {
        lemma_not_member(a, b, k);
        assert(b.to_set().contains(b[k]));
        assert(a.contains(b[k]));
    }
}

/// Where two rising rows agree before place `k` and the item of `other` at `k` comes before
/// that of `s`, `s` does not hold it.
proof fn lemma_not_member(s: Seq<ItemView>, other: Seq<ItemView>, k: int)
    requires
        rising(s),
        rising(other),
        0 <= k < other.len(),
        k <= s.len(),
        forall|i: int| 0 <= i < k ==> s[i] == other[i],
        k < s.len() ==> item_lt(other[k], s[k]),
    ensures
        !s.contains(other[k]),
{
    let x = other[k];
    assert forall|i: int| 0 <= i < s.len() implies s[i] != x by {
        lemma_item_lt_irreflexive(x);
        if i < k {
            assert(item_lt(other[i], other[k]));
        } else if i == k {
        } else {
            assert(item_lt(s[k], s[i]));
            lemma_item_lt_transitive(x, s[k], s[i]);
        }
    }
}

/// A set of items, kept in the order of items, so that two equal sets are walked alike.
#[derive(Debug, PartialEq, Eq)]
pub struct ItemSet {
    items: Vec<LR1Item>,
}

impl View for ItemSet {
    type V = Set<ItemView>;

    closed spec fn view(&self) -> Set<ItemView> {
        item_views(self.items@).to_set()
    }
}

impl Clone for ItemSet {
    fn clone(&self) -> (r: Self)
        ensures
            r.seq() == self.seq(),
            r@ == self@,
            r.wf() == self.wf(),
    {
        let mut items: Vec<LR1Item> = Vec::new();
        let mut i: usize = 0;
        while i < self.items.len()
            invariant
                i <= self.items@.len(),
                items@.len() == i,
                forall|j: int| 0 <= j < i ==> (#[trigger] items@[j])@ == self.items@[j]@,
            decreases self.items@.len() - i,
        {
            items.push(self.items[i].clone());
            i += 1;
        }
        assert(item_views(items@) =~= item_views(self.items@));
        ItemSet { items }
    }
}

impl ItemSet {
    /// The items in their order.
    pub closed spec fn seq(&self) -> Seq<ItemView> {
        item_views(self.items@)
    }

    /// The items stand in rising order.
    pub closed spec fn wf(&self) -> bool {
        rising(item_views(self.items@))
    }

    /// The set holds what the row holds, the row is rising, and the set is finite.
    pub proof fn lemma_seq(&self)
        requires
            self.wf(),
        ensures
            self@ == self.seq().to_set(),
            rising(self.seq()),
            self.seq().no_duplicates(),
            self@.finite(),
            self@.len() == self.seq().len(),
            forall|x: ItemView| #[trigger] self@.contains(x) <==> self.seq().contains(x),
    {
        lemma_rising_no_duplicates(self.seq());
        self.seq().unique_seq_to_set();
        vstd::seq_lib::seq_to_set_is_finite(self.seq());
    }

    /// Well-formed sets with the same members hold them in the same row.
    pub proof fn lemma_same_seq(&self, other: &ItemSet)
        requires
            self.wf(),
            other.wf(),
            self@ == other@,
        ensures
            self.seq() == other.seq(),
    {
        lemma_rising_unique(self.seq(), other.seq());
    }

    /// The empty set.
    pub fn new() -> (s: ItemSet)
        ensures
            s.wf(),
            s@ == Set::<ItemView>::empty(),
            s.seq().len() == 0,
    {
        let s = ItemSet { items: Vec::new() };
        assert(s@ =~= Set::<ItemView>::empty());
        s
    }

    /// The number of items.
    pub fn len(&self) -> (n: usize)
        ensures
            n == self.seq().len(),
            self.wf() ==> n == self@.len(),
    {
        proof {
            if self.wf() {
                self.lemma_seq();
            }
        }
        self.items.len()
    }

    /// The items, in their order.
    pub fn items(&self) -> (v: &Vec<LR1Item>)
        ensures
            item_views(v@) == self.seq(),
    {
        &self.items
    }

    /// The item at place `i` of the order.
    pub fn get(&self, i: usize) -> (it: &LR1Item)
        requires
            i < self.seq().len(),
        ensures
            it@ == self.seq()[i as int],
    {
        &self.items[i]
    }

    /// The place where `item` stands or would stand, and whether it stands there.
    fn position(&self, item: &LR1Item) -> (r: (usize, bool))
        requires
            self.wf(),
        ensures
            r.0 <= self.seq().len(),
            forall|i: int| 0 <= i < r.0 ==> item_lt(#[trigger] self.seq()[i], item@),
            r.1 ==> r.0 < self.seq().len() && self.seq()[r.0 as int] == item@,
            !r.1 ==> forall|i: int| r.0 <= i < self.seq().len() ==> item_lt(item@, #[trigger] self.seq()[i]),
            r.1 == self@.contains(item@),
    {
        let ghost s = self.seq();
        let mut k: usize = 0;
        let mut present = false;
        let mut stop = false;
        while k < self.items.len() && !stop
            invariant
                k <= self.items@.len(),
                s == self.seq(),
                rising(s),
                forall|i: int| 0 <= i < k ==> item_lt(#[trigger] s[i], item@),
                stop ==> k < s.len(),
                stop && present ==> s[k as int] == item@,
                stop && !present ==> item_lt(item@, s[k as int]),
                !stop ==> !present,
            decreases self.items@.len() - k + if stop { 0int } else { 1int },
        {
            assert(s[k as int] == self.items@[k as int]@);
            match self.items[k].order(item) {
                Order::Less => {
                    k += 1;
                },
                Order::Equal => {
                    present = true;
                    stop = true;
                },
                Order::Greater => {
                    stop = true;
                },
            }
        }
        proof {
            lemma_item_lt_irreflexive(item@);
            if !present {
                assert forall|i: int| k <= i < s.len() implies item_lt(item@, #[trigger] s[i]) by {
                    if i > k {
                        assert(item_lt(s[k as int], s[i]));
                        lemma_item_lt_transitive(item@, s[k as int], s[i]);
                    }
                }
                assert forall|i: int| 0 <= i < s.len() implies s[i] != item@ by {
                    if i < k {
                        assert(item_lt(s[i], item@));
                    } else {
                        assert(item_lt(item@, s[i]));
                    }
                }
                assert(!s.contains(item@));
            } else {
                assert(s.contains(item@));
            }
        }
        (k, present)
    }

    /// Whether `item` is in the set.
    pub fn contains(&self, item: &LR1Item) -> (b: bool)
        requires
            self.wf(),
        ensures
            b == self@.contains(item@),
    {
        self.position(item).1
    }

    /// Puts `item` into the set, and says whether it was new.
    pub fn insert(&mut self, item: LR1Item) -> (added: bool)
        requires
            old(self).wf(),
        ensures
            final(self).wf(),
            final(self)@ == old(self)@.insert(item@),
            added == !old(self)@.contains(item@),
            !added ==> final(self).seq() == old(self).seq(),
    {
        let (k, present) = self.position(&item);
        if present {
            assert(self@.insert(item@) =~= self@);
            return false;
        }
        let ghost s = self.seq();
        let ghost x = item@;
        self.items.insert(k, item);
        proof {
            let t = self.seq();
            assert(t =~= s.insert(k as int, x));
            assert forall|i: int, j: int| 0 <= i < j < t.len() implies item_lt(
                #[trigger] t[i],
                #[trigger] t[j],
            ) by {
                if j < k {
                    assert(item_lt(s[i], s[j]));
                } else if j == k {
                    assert(item_lt(s[i], x));
                } else if i < k {
                    assert(item_lt(s[i], s[j - 1]));
                } else if i == k {
                    assert(item_lt(x, s[j - 1]));
                } else {
                    assert(item_lt(s[i - 1], s[j - 1]));
                }
            }
            assert forall|y: ItemView| t.to_set().contains(y) <==> s.to_set().insert(x).contains(
                y,
            ) by {
                if t.contains(y) {
                    let i = choose|i: int| 0 <= i < t.len() && t[i] == y;
                    if i < k {
                        assert(s[i] == y);
                    } else if i > k {
                        assert(s[i - 1] == y);
                    }
                }
                if s.contains(y) {
                    let i = choose|i: int| 0 <= i < s.len() && s[i] == y;
                    if i < k {
                        assert(t[i] == y);
                    } else {
                        assert(t[i + 1] == y);
                    }
                }
                if y == x {
                    assert(t[k as int] == y);
                }
            }
            assert(self@ =~= old(self)@.insert(x));
        }
        true
    }

    /// Adds the items of `other`, and says whether the set grew.
    pub fn absorb(&mut self, other: &ItemSet) -> (grew: bool)
        requires
            old(self).wf(),
            other.wf(),
        ensures
            final(self).wf(),
            final(self)@ == old(self)@.union(other@),
            grew == !other@.subset_of(old(self)@),
    {
        let mut grew = false;
        let mut i: usize = 0;
        proof {
            other.lemma_seq();
        }
        while i < other.items.len()
            invariant
                i <= other.items@.len(),
                self.wf(),
                other.wf(),
                self@ == old(self)@.union(other.seq().take(i as int).to_set()),
                grew == !other.seq().take(i as int).to_set().subset_of(old(self)@),
            decreases other.items@.len() - i,
        {
            let ghost x = other.seq()[i as int];
            assert(x == other.items@[i as int]@);
            let added = self.insert(other.items[i].clone());
            proof {
                let a = other.seq().take(i as int);
                let b = other.seq().take(i + 1);
                assert(b =~= a.push(x));
                assert(b.to_set() =~= a.to_set().insert(x)) by {
                    a.lemma_push_to_set_commute(x);
                }
                assert(self@ =~= old(self)@.union(b.to_set()));
                if added {
                    assert(b.to_set().contains(x));
                    assert(!old(self)@.contains(x));
                }
            }
            if added {
                grew = true;
            }
            i += 1;
        }
        proof {
            assert(other.seq().take(i as int) =~= other.seq());
        }
        grew
    }

    /// Whether the two sets hold the same items.
    pub fn same_as(&self, other: &ItemSet) -> (b: bool)
        requires
            self.wf(),
            other.wf(),
        ensures
            b == (self@ == other@),
    {
        proof {
            self.lemma_seq();
            other.lemma_seq();
        }
        if self.items.len() != other.items.len() {
            return false;
        }
        let mut i: usize = 0;
        while i < self.items.len()
            invariant
                i <= self.items@.len(),
                self.items@.len() == other.items@.len(),
                self.wf(),
                other.wf(),
                forall|j: int| 0 <= j < i ==> self.seq()[j] == other.seq()[j],
            decreases self.items@.len() - i,
        {
            assert(self.seq()[i as int] == self.items@[i as int]@);
            assert(other.seq()[i as int] == other.items@[i as int]@);
            match self.items[i].order(&other.items[i]) {
                Order::Equal => {},
                _ => {
                    proof {
                        if self@ == other@ {
                            self.lemma_same_seq(other);
                        }
                    }
                    return false;
                },
            }
            i += 1;
        }
        assert(self.seq() =~= other.seq());
        true
    }
}

} // verus!
