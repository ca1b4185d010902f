use vstd::prelude::*;
use crate::symbol::Symbol;

verus! {

/// How many entries of `s` are true.
pub open spec fn count_true(s: Seq<bool>) -> nat
    decreases s.len(),
{
    if s.len() == 0 {
        0
    } else {
        count_true(s.drop_last()) + if s.last() {
            1nat
        } else {
            0nat
        }
    }
}

/// No more entries are true than there are entries.
pub proof fn lemma_count_bound(s: Seq<bool>)
    ensures
        count_true(s) <= s.len(),
    decreases s.len(),
{
    if s.len() > 0 {
        lemma_count_bound(s.drop_last());
    }
}

/// Where every true entry of `a` is true in `b`, `b` has at least as many.
pub proof fn lemma_count_monotone(a: Seq<bool>, b: Seq<bool>)
    requires
        a.len() == b.len(),
        forall|i: int| 0 <= i < a.len() && a[i] ==> b[i],
    ensures
        count_true(a) <= count_true(b),
    decreases a.len(),
{
    if a.len() > 0 {
        lemma_count_monotone(a.drop_last(), b.drop_last());
    }
}

/// Where moreover `b` is true at a place where `a` is not, `b` has more.
pub proof fn lemma_count_strict(a: Seq<bool>, b: Seq<bool>, j: int)
    requires
        a.len() == b.len(),
        forall|i: int| 0 <= i < a.len() && a[i] ==> b[i],
        0 <= j < a.len(),
        !a[j],
        b[j],
    ensures
        count_true(a) < count_true(b),
    decreases a.len(),
{
    if j == a.len() - 1 {
        lemma_count_monotone(a.drop_last(), b.drop_last());
    } else {
        lemma_count_strict(a.drop_last(), b.drop_last(), j);
    }
}

/// How many entries of a table of rows are true.
pub open spec fn grid_count(g: Seq<Seq<bool>>) -> nat
    decreases g.len(),
{
    if g.len() == 0 {
        0
    } else {
        grid_count(g.drop_last()) + count_true(g.last())
    }
}

/// How many entries a table of rows has.
pub open spec fn grid_size(g: Seq<Seq<bool>>) -> nat
    decreases g.len(),
{
    if g.len() == 0 {
        0
    } else {
        grid_size(g.drop_last()) + g.last().len()
    }
}

/// Two tables have the same rows and row lengths.
pub open spec fn same_shape(a: Seq<Seq<bool>>, b: Seq<Seq<bool>>) -> bool {
    &&& a.len() == b.len()
    &&& forall|r: int| 0 <= r < a.len() ==> (#[trigger] a[r]).len() == (#[trigger] b[r]).len()
}

/// Every true entry of `a` is true in `b`.
pub open spec fn grid_below(a: Seq<Seq<bool>>, b: Seq<Seq<bool>>) -> bool {
    &&& same_shape(a, b)
    &&& forall|r: int, i: int|
        0 <= r < a.len() && 0 <= i < a[r].len() && #[trigger] a[r][i] ==> #[trigger] b[r][i]
}

/// No more entries of a table are true than it has entries.
pub proof fn lemma_grid_bound(g: Seq<Seq<bool>>)
    ensures
        grid_count(g) <= grid_size(g),
    decreases g.len(),
{
    if g.len() > 0 {
        lemma_grid_bound(g.drop_last());
        lemma_count_bound(g.last());
    }
}

/// Tables of the same shape have the same number of entries.
pub proof fn lemma_grid_same_size(a: Seq<Seq<bool>>, b: Seq<Seq<bool>>)
    requires
        same_shape(a, b),
    ensures
        grid_size(a) == grid_size(b),
    decreases a.len(),
{
    if a.len() > 0 {
        assert(a.last().len() == b.last().len());
        lemma_grid_same_size(a.drop_last(), b.drop_last());
    }
}

/// A table has at least as many true entries as every table below it.
pub proof fn lemma_grid_monotone(a: Seq<Seq<bool>>, b: Seq<Seq<bool>>)
    requires
        grid_below(a, b),
    ensures
        grid_count(a) <= grid_count(b),
    decreases a.len(),
{
    if a.len() > 0 {
        let r = a.len() - 1;
        assert(a[r].len() == b[r].len());
        assert forall|i: int| 0 <= i < a[r].len() && a[r][i] implies b[r][i] by {}
        lemma_count_monotone(a.last(), b.last());
        assert(grid_below(a.drop_last(), b.drop_last())) by {
            assert forall|q: int| 0 <= q < a.drop_last().len() implies (#[trigger] a.drop_last()[q]).len()
                == (#[trigger] b.drop_last()[q]).len() by {
                assert(a[q].len() == b[q].len());
            }
            assert forall|q: int, i: int|
                0 <= q < a.drop_last().len() && 0 <= i < a.drop_last()[q].len()
                    && #[trigger] a.drop_last()[q][i] implies #[trigger] b.drop_last()[q][i] by {
                assert(a[q][i]);
                assert(b[q][i]);
            }
        }
        lemma_grid_monotone(a.drop_last(), b.drop_last());
    }
}

/// A table that gains a true entry and loses none has a larger count.
pub proof fn lemma_grid_strict(a: Seq<Seq<bool>>, b: Seq<Seq<bool>>, r: int, j: int)
    requires
        grid_below(a, b),
        0 <= r < a.len(),
        0 <= j < a[r].len(),
        !a[r][j],
        b[r][j],
    ensures
        grid_count(a) < grid_count(b),
        grid_size(a) == grid_size(b),
        grid_count(b) <= grid_size(b),
    decreases a.len(),
{
    lemma_grid_same_size(a, b);
    lemma_grid_bound(b);
    let last = a.len() - 1;
    assert(a[last].len() == b[last].len());
    assert(grid_below(a.drop_last(), b.drop_last())) by {
        assert forall|q: int| 0 <= q < a.drop_last().len() implies (#[trigger] a.drop_last()[q]).len()
            == (#[trigger] b.drop_last()[q]).len() by {
            assert(a[q].len() == b[q].len());
        }
        assert forall|q: int, i: int|
            0 <= q < a.drop_last().len() && 0 <= i < a.drop_last()[q].len()
                && #[trigger] a.drop_last()[q][i] implies #[trigger] b.drop_last()[q][i] by {
            assert(a[q][i]);
            assert(b[q][i]);
        }
    }
    assert forall|i: int| 0 <= i < a[last].len() && a[last][i] implies b[last][i] by {}
    if r == last {
        lemma_count_strict(a.last(), b.last(), j);
        lemma_grid_monotone(a.drop_last(), b.drop_last());
    } else {
        lemma_count_monotone(a.last(), b.last());
        assert(a.drop_last()[r] == a[r]);
        assert(b.drop_last()[r] == b[r]);
        lemma_grid_strict(a.drop_last(), b.drop_last(), r, j);
    }
}

/// Every table is below itself.
pub proof fn lemma_grid_refl(a: Seq<Seq<bool>>)
    ensures
        grid_below(a, a),
{
}

/// Being below is transitive.
pub proof fn lemma_grid_trans(a: Seq<Seq<bool>>, b: Seq<Seq<bool>>, c: Seq<Seq<bool>>)
    requires
        grid_below(a, b),
        grid_below(b, c),
    ensures
        grid_below(a, c),
        grid_count(a) <= grid_count(b),
        grid_count(b) <= grid_count(c),
{
    lemma_grid_monotone(a, b);
    lemma_grid_monotone(b, c);
    assert forall|r: int| 0 <= r < a.len() implies (#[trigger] a[r]).len() == (#[trigger] c[r]).len() by {
        assert(a[r].len() == b[r].len());
        assert(b[r].len() == c[r].len());
    }
    assert forall|r: int, i: int|
        0 <= r < a.len() && 0 <= i < a[r].len() && #[trigger] a[r][i] implies #[trigger] c[r][i] by {
        assert(a[r].len() == b[r].len());
        assert(b[r][i]);
    }
}

/// A set of symbols, drawn from the symbols numbered below its capacity.
#[derive(Debug)]
pub struct SymbolSet {
    bits: Vec<bool>,
}

impl View for SymbolSet {
    type V = Set<Symbol>;

    closed spec fn view(&self) -> Set<Symbol> {
        Set::new(|s: Symbol| s.id() < self.bits@.len() && self.bits@[s.id() as int])
    }
}

/// The symbols numbered below `k` that `bits` marks.
spec fn marked_below(bits: Seq<bool>, k: nat) -> Set<Symbol> {
    Set::new(|s: Symbol| s.id() < k && s.id() < bits.len() && bits[s.id() as int])
}

/// The symbols numbered below `k` that `bits` marks are as many as the first `k` marks that are true.
proof fn lemma_marked_below(bits: Seq<bool>, k: nat)
    requires
        k <= bits.len(),
        bits.len() <= usize::MAX,
    ensures
        marked_below(bits, k).finite(),
        marked_below(bits, k).len() == count_true(bits.take(k as int)),
    decreases k,
{
    if k == 0 {
        assert(marked_below(bits, 0) =~= Set::<Symbol>::empty());
        assert(bits.take(0).len() == 0);
    } else {
        let j = (k - 1) as nat;
        lemma_marked_below(bits, j);
        assert(bits.take(k as int).drop_last() =~= bits.take(j as int));
        assert(bits.take(k as int).last() == bits[j as int]);
        if bits[j as int] {
            let s = Symbol::at(j);
            Symbol::lemma_at_id(j);
            assert(marked_below(bits, k) =~= marked_below(bits, j).insert(s)) by {
                assert forall|x: Symbol| marked_below(bits, k).contains(x) implies marked_below(
                    bits,
                    j,
                ).insert(s).contains(x) by {
                    if x.id() == j {
                        Symbol::lemma_id_injective(x, s);
                    }
                }
            }
            assert(!marked_below(bits, j).contains(s));
        } else {
            assert(marked_below(bits, k) =~= marked_below(bits, j));
        }
    }
}

impl Clone for SymbolSet {
    fn clone(&self) -> (r: Self)
        ensures
            r@ == self@,
            r.capacity() == self.capacity(),
            r.marks() == self.marks(),
    {
        let mut bits: Vec<bool> = Vec::new();
        let mut i: usize = 0;
        while i < self.bits.len()
            invariant
                i <= self.bits@.len(),
                bits@ == self.bits@.take(i as int),
            decreases self.bits@.len() - i,
        {
            bits.push(self.bits[i]);
            assert(bits@ =~= self.bits@.take(i + 1));
            i += 1;
        }
        assert(bits@ =~= self.bits@);
        SymbolSet { bits }
    }
}

impl SymbolSet {
    /// The number of symbols the set can tell apart: it holds symbols numbered below this.
    pub closed spec fn capacity(&self) -> nat {
        self.bits@.len()
    }

    /// The set as a row of marks, one for each symbol number below the capacity.
    pub closed spec fn marks(&self) -> Seq<bool> {
        self.bits@
    }

    /// The marks and the set say the same.
    pub proof fn lemma_marks(&self)
        ensures
            self.marks().len() == self.capacity(),
            forall|s: Symbol|
                #[trigger] self@.contains(s) <==> (s.id() < self.capacity() && self.marks()[s.id() as int]),
    {
    }

    /// Every member is numbered below the capacity, so the set is finite.
    pub proof fn lemma_members(&self)
        ensures
            forall|s: Symbol| #[trigger] self@.contains(s) ==> s.id() < self.capacity(),
            self@.finite(),
            self@.len() == count_true(self.marks()),
            self@.len() <= self.capacity(),
    {
        assert(self.bits.len() == self.bits@.len());
        lemma_marked_below(self.bits@, self.bits@.len());
        assert(self@ =~= marked_below(self.bits@, self.bits@.len()));
        assert(self.bits@.take(self.bits@.len() as int) =~= self.bits@);
        lemma_count_bound(self.bits@);
    }

    /// The empty set over the symbols numbered below `capacity`.
    pub fn new(capacity: usize) -> (r: SymbolSet)
        ensures
            r@ == Set::<Symbol>::empty(),
            r.capacity() == capacity,
    {
        let mut bits: Vec<bool> = Vec::new();
        let mut i: usize = 0;
        while i < capacity
            invariant
                i <= capacity,
                bits@.len() == i,
                forall|k: int| 0 <= k < i ==> !bits@[k],
            decreases capacity - i,
        {
            bits.push(false);
            i += 1;
        }
        let r = SymbolSet { bits };
        assert(r@ =~= Set::<Symbol>::empty());
        r
    }

    /// Whether `s` is in the set.
    pub fn contains(&self, s: &Symbol) -> (b: bool)
        ensures
            b == self@.contains(*s),
    {
        let i = s.index();
        i < self.bits.len() && self.bits[i]
    }

    /// Puts `s` into the set, and says whether it was new.
    pub fn insert(&mut self, s: Symbol) -> (added: bool)
        requires
            s.id() < old(self).capacity(),
        ensures
            final(self)@ == old(self)@.insert(s),
            final(self).capacity() == old(self).capacity(),
            added == !old(self)@.contains(s),
            final(self).marks() == old(self).marks().update(s.id() as int, true),
    {
        let i = s.index();
        let added = !self.bits[i];
        self.bits.set(i, true);
        proof {
            assert forall|x: Symbol| self@.contains(x) <==> old(self)@.insert(s).contains(x) by {
                if x.id() == s.id() {
                    Symbol::lemma_id_injective(x, s);
                }
            }
            assert(self@ =~= old(self)@.insert(s));
        }
        added
    }

    /// Takes `s` out of the set.
    pub fn remove(&mut self, s: Symbol)
        ensures
            final(self)@ == old(self)@.remove(s),
            final(self).capacity() == old(self).capacity(),
    {
        let i = s.index();
        if i < self.bits.len() {
            self.bits.set(i, false);
        }
        proof {
            assert forall|x: Symbol| self@.contains(x) <==> old(self)@.remove(s).contains(x) by {
                if x.id() == s.id() {
                    Symbol::lemma_id_injective(x, s);
                }
            }
            assert(self@ =~= old(self)@.remove(s));
        }
    }

    /// Empties the set.
    pub fn clear(&mut self)
        ensures
            final(self)@ == Set::<Symbol>::empty(),
            final(self).capacity() == old(self).capacity(),
    {
        let n = self.bits.len();
        let mut i: usize = 0;
        while i < n
            invariant
                i <= n,
                self.bits@.len() == n,
                forall|k: int| 0 <= k < i ==> !self.bits@[k],
            decreases n - i,
        {
            self.bits.set(i, false);
            i += 1;
        }
        assert(self@ =~= Set::<Symbol>::empty());
    }

    /// Adds the members of `other`, but for `skip`, and says whether the set grew.
    pub fn absorb_except(&mut self, other: &SymbolSet, skip: Option<Symbol>) -> (grew: bool)
        requires
            other.capacity() == old(self).capacity(),
        ensures
            final(self)@ == old(self)@.union(
                match skip {
                    Some(x) => other@.remove(x),
                    None => other@,
                },
            ),
            final(self).capacity() == old(self).capacity(),
            !grew ==> *final(self) == *old(self),
            forall|i: int|
                0 <= i < old(self).capacity() && old(self).marks()[i] ==> final(self).marks()[i],
            grew ==> exists|j: int|
                0 <= j < old(self).capacity() && !old(self).marks()[j] && final(self).marks()[j],
    {
        let n = self.bits.len();
        let mut grew = false;
        let mut i: usize = 0;
        let ghost skipped: int = match skip {
            Some(x) => x.id() as int,
            None => -1,
        };
        while i < n
            invariant
                i <= n,
                n == self.bits@.len(),
                n == other.bits@.len(),
                n == old(self).bits@.len(),
                skipped == match skip {
                    Some(x) => x.id() as int,
                    None => -1,
                },
                !grew ==> *self == *old(self),
                forall|k: int|
                    0 <= k < n ==> (#[trigger] self.bits@[k] <==> (old(self).bits@[k] || (k < i
                        && other.bits@[k] && k != skipped))),
                grew ==> exists|j: int| 0 <= j < n && !old(self).bits@[j] && self.bits@[j],
            decreases n - i,
        {
            let take = match skip {
                Some(x) => x.index() != i,
                None => true,
            };
            if other.bits[i] && take && !self.bits[i] {
                self.bits.set(i, true);
                grew = true;
                assert(!old(self).bits@[i as int] && self.bits@[i as int]);
            }
            i += 1;
        }
        proof {
            let added = match skip {
                Some(x) => other@.remove(x),
                None => other@,
            };
            assert forall|x: Symbol| self@.contains(x) <==> old(self)@.union(added).contains(
                x,
            ) by {
                match skip {
                    Some(y) => {
                        Symbol::lemma_id_injective(x, y);
                    },
                    None => {},
                }
            }
            assert(self@ =~= old(self)@.union(added));
            if grew {
                let j = choose|j: int| 0 <= j < n && !old(self).bits@[j] && self.bits@[j];
                assert(!old(self).marks()[j] && self.marks()[j]);
            }
        }
        grew
    }

    /// Adds the members of `other`, and says whether the set grew.
    pub fn absorb(&mut self, other: &SymbolSet) -> (grew: bool)
        requires
            other.capacity() == old(self).capacity(),
        ensures
            final(self)@ == old(self)@.union(other@),
            final(self).capacity() == old(self).capacity(),
            !grew ==> *final(self) == *old(self),
            forall|i: int|
                0 <= i < old(self).capacity() && old(self).marks()[i] ==> final(self).marks()[i],
            grew ==> exists|j: int|
                0 <= j < old(self).capacity() && !old(self).marks()[j] && final(self).marks()[j],
    {
        self.absorb_except(other, None)
    }

    /// The number of symbols in the set.
    pub fn len(&self) -> (n: usize)
        ensures
            self@.finite(),
            n == self@.len(),
    {
        let mut n: usize = 0;
        let mut i: usize = 0;
        while i < self.bits.len()
            invariant
                i <= self.bits@.len(),
                n == count_true(self.bits@.take(i as int)),
                n <= i,
            decreases self.bits@.len() - i,
        {
            proof {
                assert(self.bits@.take(i + 1).drop_last() =~= self.bits@.take(i as int));
            }
            if self.bits[i] {
                n += 1;
            }
            i += 1;
        }
        proof {
            assert(self.bits@.take(i as int) =~= self.bits@);
            self.lemma_members();
        }
        n
    }

    /// The members, by rising number.
    pub fn members(&self) -> (v: Vec<Symbol>)
        ensures
            forall|s: Symbol| #[trigger] v@.contains(s) <==> self@.contains(s),
            forall|i: int, j: int| 0 <= i < j < v@.len() ==> v@[i].id() < v@[j].id(),
    {
        let mut v: Vec<Symbol> = Vec::new();
        let mut i: usize = 0;
        while i < self.bits.len()
            invariant
                i <= self.bits@.len(),
                forall|k: int| 0 <= k < v@.len() ==> (#[trigger] v@[k]).id() < i,
                forall|k: int| 0 <= k < v@.len() ==> self.bits@[(#[trigger] v@[k]).id() as int],
                forall|s: Symbol|
                    s.id() < i && self.bits@[s.id() as int] ==> #[trigger] v@.contains(s),
                forall|a: int, b: int| 0 <= a < b < v@.len() ==> v@[a].id() < v@[b].id(),
            decreases self.bits@.len() - i,
        {
            if self.bits[i] {
                let ghost before = v@;
                let sym = Symbol::from_index(i);
                v.push(sym);
                assert(v@[before.len() as int] == sym);
                assert forall|s: Symbol|
                    s.id() < i + 1 && self.bits@[s.id() as int] implies #[trigger] v@.contains(
                    s,
                ) by {
                    if s.id() < i {
                        assert(before.contains(s));
                        let w = choose|w: int| 0 <= w < before.len() && before[w] == s;
                        assert(v@[w] == s);
                    } else {
                        Symbol::lemma_id_injective(s, sym);
                    }
                }
            }
            i += 1;
        }
        proof {
            assert forall|s: Symbol| #[trigger] v@.contains(s) implies self@.contains(s) by {
                let w = choose|w: int| 0 <= w < v@.len() && v@[w] == s;
                assert(v@[w].id() < i);
            }
        }
        v
    }
}

} // verus!
