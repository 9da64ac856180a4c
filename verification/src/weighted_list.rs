use vstd::prelude::*;

verus! {

/// Sum of the weights of a sequence of `(weight, value)` entries.
pub open spec fn total_weight<T>(entries: Seq<(usize, T)>) -> nat
    decreases entries.len(),
{
    if entries.len() == 0 {
        0
    } else {
        total_weight(entries.drop_last()) + entries.last().0 as nat
    }
}

/// The lower end of the range that entry `k` occupies: the sum of the
/// weights of the entries before it.
pub open spec fn range_start<T>(entries: Seq<(usize, T)>, k: int) -> nat
    recommends
        0 <= k <= entries.len(),
{
    total_weight(entries.take(k))
}

/// Whether `index` falls into the half-open range of entry `k`.
pub open spec fn in_range_of<T>(entries: Seq<(usize, T)>, k: int, index: nat) -> bool {
    &&& 0 <= k < entries.len()
    &&& range_start(entries, k) <= index < range_start(entries, k) + entries[k].0
}

/// The value selected by `index`: the value of the first entry whose
/// cumulative weight exceeds `index`, if there is one.
pub open spec fn pick<T>(entries: Seq<(usize, T)>, index: nat) -> Option<T>
    decreases entries.len(),
{
    if entries.len() == 0 {
        None
    } else if index < entries[0].0 {
        Some(entries[0].1)
    } else {
        pick(entries.drop_first(), (index - entries[0].0) as nat)
    }
}

/// A list whose elements carry weights. An index below the total weight
/// selects the element whose cumulative range holds it.
#[derive(Debug)]
pub struct WeightedVec<T> {
    elements: Vec<T>,
    ranges: Vec<(usize, usize)>,
    next: usize,
}

impl<T> View for WeightedVec<T> {
    type V = Seq<(usize, T)>;

    /// The entries as `(weight, value)` pairs, in the order they were pushed.
    closed spec fn view(&self) -> Seq<(usize, T)> {
        Seq::new(
            self.elements@.len(),
            |k: int| ((self.ranges@[k].1 - self.ranges@[k].0) as usize, self.elements@[k]),
        )
    }
}

impl<T: Clone> Clone for WeightedVec<T> {
    /// The copy holds as many entries, with the same weights and with
    /// clones of the elements.
    fn clone(&self) -> (copy: Self)
        ensures
            copy@.len() == self@.len(),
            forall|k: int|
                0 <= k < self@.len() ==> (#[trigger] copy@[k]).0 == self@[k].0 && cloned(
                    self@[k].1,
                    copy@[k].1,
                ),
    {
        proof {
            use_type_invariant(self);
        }
        let elements = self.elements.clone();
        let mut ranges: Vec<(usize, usize)> = Vec::new();
        let mut i: usize = 0;
        while i < self.ranges.len()
            invariant
                i <= self.ranges@.len(),
                ranges@ == self.ranges@.take(i as int),
            decreases self.ranges@.len() - i,
        {
            ranges.push(self.ranges[i]);
            i += 1;
        }
        WeightedVec { elements, ranges, next: self.next }
    }
}

impl<T> WeightedVec<T> {
    #[verifier::type_invariant]
    spec fn well_formed(&self) -> bool {
        &&& self.elements@.len() == self.ranges@.len()
        &&& forall|k: int|
            0 <= k < self.ranges@.len() ==> (#[trigger] self.ranges@[k]).0 <= self.ranges@[k].1
        &&& self.ranges@.len() > 0 ==> self.ranges@[0].0 == 0
        &&& forall|j: int, k: int|
            0 <= j && k == j + 1 && k < self.ranges@.len() ==> (#[trigger] self.ranges@[j]).1 == (
            #[trigger] self.ranges@[k]).0
        &&& self.next == (if self.ranges@.len() == 0 {
            0
        } else {
            self.ranges@.last().1
        })
    }

    /// A list without elements.
    pub fn new() -> (list: Self)
        ensures
            list@ == Seq::<(usize, T)>::empty(),
    {
        Self { elements: Vec::new(), ranges: Vec::new(), next: 0 }
    }

    /// Returns count of collection's elements
    pub fn len(&self) -> (n: usize)
        ensures
            n == self@.len(),
    {
        self.elements.len()
    }

    /// The sum of the weights pushed so far: the exclusive upper bound of
    /// the indices that select an element.
    pub fn total_weight(&self) -> (total: usize)
        ensures
            total == total_weight(self@),
    {
        proof {
            use_type_invariant(self);
            self.lemma_bounds(self.ranges@.len() as int);
            assert(self@.take(self@.len() as int) == self@);
        }
        self.next
    }

    /// Appends an element and his weight
    pub fn push(&mut self, weight: usize, element: T)
        requires
            total_weight(old(self)@) + weight <= usize::MAX,
        ensures
            final(self)@ == old(self)@.push((weight, element)),
    {
        proof {
            use_type_invariant(&*self);
            self.lemma_bounds(self.ranges@.len() as int);
            assert(self@.take(self@.len() as int) == self@);
        }
        let mut taken = Self::new();
        core::mem::swap(self, &mut taken);
        let WeightedVec { mut elements, mut ranges, next } = taken;
        let end = next + weight;
        elements.push(element);
        ranges.push((next, end));
        *self = WeightedVec { elements, ranges, next: end };
    }

    /// Chooses an element from collections depends on weights of elements.
    ///
    /// An index `num` below the total weight selects the element whose range
    /// holds it; any other index selects nothing.
    pub fn choose_at(&self, num: usize) -> (chosen: Option<&T>)
        ensures
            match chosen {
                Some(element) => pick(self@, num as nat) == Some(*element),
                None => pick(self@, num as nat) is None,
            },
    {
        proof {
            use_type_invariant(self);
        }
        let mut i: usize = 0;
        while i < self.ranges.len()
            invariant
                i <= self.ranges@.len(),
                self.elements@.len() == self.ranges@.len(),
                forall|k: int|
                    0 <= k < i ==> !((#[trigger] self.ranges@[k]).0 <= num < self.ranges@[k].1),
            decreases self.ranges@.len() - i,
        {
            let range = self.ranges[i];
            if range.0 <= num && num < range.1 {
                proof {
                    use_type_invariant(self);
                    self.lemma_recorded_range(i as int, num as nat);
                    lemma_pick_in_range(self@, i as int, num as nat);
                }
                return Some(&self.elements[i]);
            }
            i += 1;
        }
        proof {
            assert forall|k: int| 0 <= k < self@.len() implies !in_range_of(
                self@,
                k,
                num as nat,
            ) by {
                self.lemma_recorded_range(k, num as nat);
            }
            lemma_pick_none(self@, num as nat);
        }
        None
    }

    /// An index lies in the range of entry `k` exactly if it lies between
    /// the bounds recorded for that entry.
    proof fn lemma_recorded_range(&self, k: int, index: nat)
        requires
            self.well_formed(),
            0 <= k < self.ranges@.len(),
        ensures
            in_range_of(self@, k, index) <==> self.ranges@[k].0 <= index < self.ranges@[k].1,
    {
        self.lemma_bounds(k);
        self.lemma_bounds(k + 1);
    }

    /// The recorded range bounds are the running sums of the weights.
    proof fn lemma_bounds(&self, k: int)
        requires
            self.well_formed(),
            0 <= k <= self.ranges@.len(),
        ensures
            range_start(self@, k) == (if k == 0 {
                0
            } else {
                self.ranges@[k - 1].1
            }),
        decreases k,
    {
        if k > 0 {
            self.lemma_bounds(k - 1);
            assert(self@.take(k).drop_last() == self@.take(k - 1));
        }
    }
}

/// The total weight of a non-empty sequence is the weight of its first
/// entry plus the total weight of the rest.
pub proof fn lemma_total_weight_first<T>(entries: Seq<(usize, T)>)
    requires
        entries.len() > 0,
    ensures
        total_weight(entries) == entries[0].0 + total_weight(entries.drop_first()),
    decreases entries.len(),
{
    if entries.len() == 1 {
        assert(entries.drop_last() == entries.drop_first());
    } else {
        lemma_total_weight_first(entries.drop_last());
        assert(entries.drop_last().drop_first() == entries.drop_first().drop_last());
    }
}

/// The range of entry `k` starts where the range of entry `k - 1` of the
/// sequence without its first entry starts, shifted by the first weight.
proof fn lemma_range_start_shift<T>(entries: Seq<(usize, T)>, k: int)
    requires
        0 < k <= entries.len(),
    ensures
        range_start(entries, k) == entries[0].0 + range_start(entries.drop_first(), k - 1),
{
    lemma_total_weight_first(entries.take(k));
    assert(entries.take(k).drop_first() == entries.drop_first().take(k - 1));
}

/// An index inside the range of entry `k` selects the value of entry `k`.
pub proof fn lemma_pick_in_range<T>(entries: Seq<(usize, T)>, k: int, index: nat)
    requires
        in_range_of(entries, k, index),
    ensures
        pick(entries, index) == Some(entries[k].1),
    decreases entries.len(),
{
    if k > 0 {
        lemma_range_start_shift(entries, k);
        let rest = entries.drop_first();
        let shifted = (index - entries[0].0) as nat;
        lemma_pick_in_range(rest, k - 1, shifted);
    }
}

/// An index outside every range selects nothing.
pub proof fn lemma_pick_none<T>(entries: Seq<(usize, T)>, index: nat)
    requires
        forall|k: int| 0 <= k < entries.len() ==> !in_range_of(entries, k, index),
    ensures
        pick(entries, index) is None,
    decreases entries.len(),
{
    if entries.len() > 0 {
        assert(!in_range_of(entries, 0, index));
        let rest = entries.drop_first();
        let shifted = (index - entries[0].0) as nat;
        assert forall|k: int| 0 <= k < rest.len() implies !in_range_of(rest, k, shifted) by {
            lemma_range_start_shift(entries, k + 1);
            assert(!in_range_of(entries, k + 1, index));
        }
        lemma_pick_none(rest, shifted);
    }
}

/// The ranges grow with the entry number: the range of a later entry starts
/// at or after the end of an earlier one.
pub proof fn lemma_range_start_monotonic<T>(entries: Seq<(usize, T)>, j: int, k: int)
    requires
        0 <= j <= k <= entries.len(),
    ensures
        range_start(entries, j) <= range_start(entries, k),
    decreases k - j,
{
    if j < k {
        lemma_range_start_monotonic(entries, j, k - 1);
        assert(entries.take(k).drop_last() == entries.take(k - 1));
    }
}

/// The ranges lie one after the other: each starts where the one before it
/// ends, the first at 0, and the last ends at the total weight. A new entry
/// takes the range that starts at the total weight so far and leaves the
/// ranges before it as they are.
pub proof fn lemma_ranges_contiguous<T>(entries: Seq<(usize, T)>, entry: (usize, T), k: int)
    requires
        0 <= k < entries.len(),
    ensures
        range_start(entries, 0) == 0,
        range_start(entries, k + 1) == range_start(entries, k) + entries[k].0,
        range_start(entries, entries.len() as int) == total_weight(entries),
        range_start(entries.push(entry), k) == range_start(entries, k),
        range_start(entries.push(entry), entries.len() as int) == total_weight(entries),
        total_weight(entries.push(entry)) == total_weight(entries) + entry.0,
{
    assert(entries.take(0) == Seq::<(usize, T)>::empty());
    assert(entries.take(k + 1).drop_last() == entries.take(k));
    assert(entries.take(entries.len() as int) == entries);
    assert(entries.push(entry).take(k) == entries.take(k));
    assert(entries.push(entry).take(entries.len() as int) == entries);
    assert(entries.push(entry).drop_last() == entries);
}

/// The ranges of a weighted list partition the indices below its total
/// weight: such an index lies in the range of exactly one entry, and the
/// value it selects is that entry's; an index at or above the total weight
/// lies in no range and selects nothing.
pub proof fn lemma_pick_partition<T>(entries: Seq<(usize, T)>, index: nat)
    ensures
        index < total_weight(entries) <==> pick(entries, index) is Some,
        index < total_weight(entries) ==> exists|k: int|
            in_range_of(entries, k, index) && pick(entries, index) == Some(entries[k].1),
        index >= total_weight(entries) ==> forall|k: int| !in_range_of(entries, k, index),
        forall|j: int, k: int|
            in_range_of(entries, j, index) && in_range_of(entries, k, index) ==> j == k,
{
    assert forall|j: int, k: int|
        in_range_of(entries, j, index) && in_range_of(entries, k, index) implies j == k by {
        if j < k {
            lemma_range_start_monotonic(entries, j + 1, k);
            assert(entries.take(j + 1).drop_last() == entries.take(j));
        }
        if k < j {
            lemma_range_start_monotonic(entries, k + 1, j);
            assert(entries.take(k + 1).drop_last() == entries.take(k));
        }
    }
    assert forall|k: int| in_range_of(entries, k, index) implies index < total_weight(
        entries,
    ) by {
        lemma_range_start_monotonic(entries, k + 1, entries.len() as int);
        assert(entries.take(k + 1).drop_last() == entries.take(k));
        assert(entries.take(entries.len() as int) == entries);
    }
    if exists|k: int| in_range_of(entries, k, index) {
        let k = choose|k: int| in_range_of(entries, k, index);
        lemma_pick_in_range(entries, k, index);
    } else {
        lemma_pick_none(entries, index);
        lemma_covered(entries, index);
    }
}

/// An index below the total weight lies in some range.
proof fn lemma_covered<T>(entries: Seq<(usize, T)>, index: nat)
    requires
        forall|k: int| 0 <= k < entries.len() ==> !in_range_of(entries, k, index),
    ensures
        index >= total_weight(entries),
    decreases entries.len(),
{
    if entries.len() > 0 {
        let front = entries.drop_last();
        assert forall|k: int| 0 <= k < front.len() implies !in_range_of(front, k, index) by {
            assert(front.take(k) == entries.take(k));
            assert(!in_range_of(entries, k, index));
        }
        lemma_covered(front, index);
        let last = entries.len() - 1;
        assert(!in_range_of(entries, last, index));
    }
}

} // verus!
