//! A table that counts terms.
//!
//! The table stands for a multiset of terms: each term is held once,
//! together with the number of times it was counted. A term whose count
//! drops to zero leaves the table.

use vstd::prelude::*;
use vstd::multiset::Multiset;

verus! {

broadcast use vstd::multiset::group_multiset_axioms;

/// One term of a table with its count.
#[derive(Debug)]
struct Entry {
    term: String,
    count: usize,
}

/// A count for each of finitely many terms.
#[derive(Debug)]
pub struct FreqTable {
    entries: Vec<Entry>,
}

/// The multiset that holds `t` exactly `n` times and nothing else.
pub open spec fn copies(t: Seq<char>, n: nat) -> Multiset<Seq<char>> {
    Multiset::from_map(Map::empty().insert(t, n))
}

/// `copies(t, n)` holds `n` items, all of them `t`.
pub proof fn lemma_copies(t: Seq<char>, n: nat)
    ensures
        copies(t, n).count(t) == n,
        forall|k: Seq<char>| k != t ==> copies(t, n).count(k) == 0,
        copies(t, n).len() == n,
        n > 0 ==> copies(t, n) == copies(t, (n - 1) as nat).insert(t),
    decreases n,
{
    let single = Map::<Seq<char>, nat>::empty().insert(t, n);
    assert(single.dom() =~= set![t]);
    assert(single.dom().finite());
    assert(copies(t, n).count(t) == n);
    assert forall|k: Seq<char>| k != t implies copies(t, n).count(k) == 0 by {}
    if n == 0 {
        assert(copies(t, n) =~= Multiset::empty());
    } else {
        let less = (n - 1) as nat;
        lemma_copies(t, less);
        assert(copies(t, n) =~= copies(t, less).insert(t));
    }
}

/// The multiset that a list of terms with counts stands for: each term as
/// often as its counts in the list say, taken together.
pub open spec fn bag_of(pairs: Seq<(String, usize)>) -> Multiset<Seq<char>>
    decreases pairs.len(),
{
    if pairs.len() == 0 {
        Multiset::empty()
    } else {
        bag_of(pairs.drop_last()).add(copies(pairs.last().0@, pairs.last().1 as nat))
    }
}

/// The terms that a list of terms with counts counts at least once, each
/// listed once, in the order in which the list first counts them.
pub open spec fn counted(pairs: Seq<(String, usize)>) -> Seq<Seq<char>>
    decreases pairs.len(),
{
    if pairs.len() == 0 {
        Seq::empty()
    } else {
        let before = counted(pairs.drop_last());
        if pairs.last().1 == 0 || before.contains(pairs.last().0@) {
            before
        } else {
            before.push(pairs.last().0@)
        }
    }
}

/// The terms of `words`, each listed once, in the order in which they first
/// occur.
pub open spec fn first_seen(words: Seq<Seq<char>>) -> Seq<Seq<char>>
    decreases words.len(),
{
    if words.len() == 0 {
        Seq::empty()
    } else {
        let before = first_seen(words.drop_last());
        if before.contains(words.last()) {
            before
        } else {
            before.push(words.last())
        }
    }
}

/// The sum of the counts in a list of terms with counts.
pub open spec fn sum_of(pairs: Seq<(String, usize)>) -> nat
    decreases pairs.len(),
{
    if pairs.len() == 0 {
        0
    } else {
        sum_of(pairs.drop_last()) + pairs.last().1 as nat
    }
}

/// The multiset that a list stands for holds as many terms as the counts of
/// the list add up to.
pub proof fn lemma_bag_of_len(pairs: Seq<(String, usize)>)
    ensures
        bag_of(pairs).len() == sum_of(pairs),
    decreases pairs.len(),
{
    if pairs.len() > 0 {
        lemma_bag_of_len(pairs.drop_last());
        lemma_copies(pairs.last().0@, pairs.last().1 as nat);
    }
}

/// A longer list stands for no fewer terms, and for no fewer of any term.
pub proof fn lemma_bag_of_grows(pairs: Seq<(String, usize)>, n: int)
    requires
        0 <= n <= pairs.len(),
    ensures
        bag_of(pairs.take(n)).len() <= bag_of(pairs).len(),
        forall|t: Seq<char>| bag_of(pairs.take(n)).count(t) <= bag_of(pairs).count(t),
    decreases pairs.len(),
{
    if n == pairs.len() {
        assert(pairs.take(n) =~= pairs);
    } else {
        lemma_bag_of_grows(pairs.drop_last(), n);
        assert(pairs.drop_last().take(n) =~= pairs.take(n));
    }
}

/// How often a list of terms with counts counts `t`: the sum of the counts
/// that stand beside `t`.
pub proof fn lemma_bag_of_count(pairs: Seq<(String, usize)>, t: Seq<char>)
    ensures
        (forall|i: int| 0 <= i < pairs.len() ==> (#[trigger] pairs[i]).0@ != t) ==> bag_of(pairs).count(t)
            == 0,
        forall|i: int|
            0 <= i < pairs.len() && (#[trigger] pairs[i]).0@ == t && (forall|j: int|
                0 <= j < pairs.len() && j != i ==> (#[trigger] pairs[j]).0@ != t) ==> bag_of(pairs).count(t)
                == pairs[i].1,
    decreases pairs.len(),
{
    if pairs.len() > 0 {
        let front = pairs.drop_last();
        let last = pairs.last();
        lemma_bag_of_count(front, t);
        lemma_copies(last.0@, last.1 as nat);
        assert forall|i: int|
            0 <= i < pairs.len() && (#[trigger] pairs[i]).0@ == t && (forall|j: int|
                0 <= j < pairs.len() && j != i ==> (#[trigger] pairs[j]).0@ != t) implies bag_of(
            pairs,
        ).count(t) == pairs[i].1 by {
            if i < front.len() {
                assert(front[i] == pairs[i]);
                assert forall|j: int| 0 <= j < front.len() && j != i implies (#[trigger] front[j]).0@
                    != t by {
                    assert(pairs[j].0@ != t);
                }
                assert(pairs[pairs.len() - 1].0@ != t);
            } else {
                assert forall|j: int| 0 <= j < front.len() implies (#[trigger] front[j]).0@ != t by {
                    assert(pairs[j].0@ != t);
                }
            }
        }
        if forall|i: int| 0 <= i < pairs.len() ==> (#[trigger] pairs[i]).0@ != t {
            assert forall|j: int| 0 <= j < front.len() implies (#[trigger] front[j]).0@ != t by {
                assert(pairs[j].0@ != t);
            }
            assert(pairs[pairs.len() - 1].0@ != t);
        }
    }
}

impl View for FreqTable {
    type V = Multiset<Seq<char>>;

    /// The multiset of terms that the table stands for.
    closed spec fn view(&self) -> Multiset<Seq<char>> {
        Multiset::from_map(self.as_map())
    }
}

impl FreqTable {
    /// The terms of the table, each once, in the order in which they came in.
    pub closed spec fn keys(&self) -> Seq<Seq<char>> {
        self.entries@.map_values(|e: Entry| e.term@)
    }

    /// The count of each term that is held.
    spec fn as_map(&self) -> Map<Seq<char>, nat> {
        Map::new(
            |t: Seq<char>| self.keys().contains(t),
            |t: Seq<char>| self.entries[self.keys().index_of(t)].count as nat,
        )
    }

    /// No term is held twice, and every term that is held has been counted
    /// at least once.
    pub closed spec fn wf(&self) -> bool {
        &&& self.keys().no_duplicates()
        &&& forall|i: int| 0 <= i < self.entries.len() ==> (#[trigger] self.entries[i]).count >= 1
    }

    /// The table counts each term that it holds as often as its entry says,
    /// and no other term.
    proof fn lemma_view(&self)
        requires
            self.wf(),
        ensures
            self.keys().len() == self.entries.len(),
            forall|i: int|
                0 <= i < self.entries.len() ==> self.keys()[i] == (#[trigger] self.entries[i]).term@,
            forall|i: int|
                0 <= i < self.entries.len() ==> self@.count(#[trigger] self.keys()[i])
                    == self.entries[i].count,
            forall|t: Seq<char>| !self.keys().contains(t) ==> self@.count(t) == 0,
    {
        let keys = self.keys();
        vstd::seq_lib::seq_to_set_is_finite(keys);
        assert(self.as_map().dom() =~= keys.to_set());
        assert forall|i: int| 0 <= i < self.entries.len() implies self@.count(#[trigger] self.keys()[i])
            == self.entries[i].count by {
            assert(keys.contains(keys[i]));
            assert(keys.index_of(keys[i]) == i);
        }
    }

    /// The keys are the terms that the table counts at least once, each
    /// listed a single time.
    pub proof fn lemma_keys(&self)
        requires
            self.wf(),
        ensures
            self.keys().no_duplicates(),
            forall|t: Seq<char>| self.keys().contains(t) <==> self@.count(t) > 0,
    {
        self.lemma_view();
        assert forall|t: Seq<char>| self.keys().contains(t) implies self@.count(t) > 0 by {
            let i = self.keys().index_of(t);
            assert(self.keys()[i] == t);
            assert(self.entries[i].count >= 1);
        }
    }

    /// A table that counts nothing.
    pub fn new() -> (table: Self)
        ensures
            table.wf(),
            table@ == Multiset::<Seq<char>>::empty(),
            table.keys() == Seq::<Seq<char>>::empty(),
    {
        let table = FreqTable { entries: Vec::new() };
        proof {
            table.lemma_view();
            assert(table@ =~= Multiset::<Seq<char>>::empty());
            assert(table.keys() =~= Seq::<Seq<char>>::empty());
        }
        table
    }

    /// The table that a list of terms with counts stands for. There is
    /// none where the counts of one term together go beyond what a `usize`
    /// holds.
    pub fn from_pairs(pairs: &Vec<(String, usize)>) -> (made: Option<FreqTable>)
        ensures
            match made {
                Some(table) => {
                    &&& table.wf()
                    &&& table@ == bag_of(pairs@)
                    &&& table.keys() == counted(pairs@)
                    &&& forall|t: Seq<char>| bag_of(pairs@).count(t) <= usize::MAX
                },
                None => exists|t: Seq<char>| bag_of(pairs@).count(t) > usize::MAX,
            },
    {
        let mut table = FreqTable::new();
        let mut i: usize = 0;
        while i < pairs.len()
            invariant
                i <= pairs.len(),
                table.wf(),
                table@ == bag_of(pairs@.take(i as int)),
                table.keys() == counted(pairs@.take(i as int)),
            decreases pairs.len() - i,
        {
            let times = pairs[i].1;
            let counted = table.get(pairs[i].0.as_str());
            proof {
                lemma_copies(pairs[i as int].0@, times as nat);
                assert(pairs@.take(i + 1).drop_last() =~= pairs@.take(i as int));
                lemma_bag_of_grows(pairs@, i + 1);
            }
            if times > usize::MAX - counted {
                assert(bag_of(pairs@).count(pairs[i as int].0@) > usize::MAX);
                return None;
            }
            table.add(pairs[i].0.clone(), times);
            i += 1;
        }
        proof {
            assert(pairs@.take(i as int) =~= pairs@);
            table.lemma_view();
            assert forall|t: Seq<char>| bag_of(pairs@).count(t) <= usize::MAX by {
                if table.keys().contains(t) {
                    let j = table.keys().index_of(t);
                    assert(table.keys()[j] == t);
                }
            }
        }
        Some(table)
    }

    /// The number of distinct terms.
    pub fn len(&self) -> (n: usize)
        requires
            self.wf(),
        ensures
            n == self.keys().len(),
    {
        self.entries.len()
    }

    /// The term at position `i`.
    pub fn term(&self, i: usize) -> (t: &String)
        requires
            self.wf(),
            i < self.keys().len(),
        ensures
            t@ == self.keys()[i as int],
    {
        &self.entries[i].term
    }

    /// Where `term` is held, if it is.
    fn find(&self, term: &str) -> (place: Option<usize>)
        requires
            self.wf(),
        ensures
            match place {
                Some(i) => i < self.keys().len() && self.keys()[i as int] == term@,
                None => !self.keys().contains(term@),
            },
    {
        let mut i: usize = 0;
        while i < self.entries.len()
            invariant
                i <= self.entries.len(),
                self.keys().len() == self.entries.len(),
                forall|j: int| 0 <= j < i ==> self.keys()[j] != term@,
            decreases self.entries.len() - i,
        {
            if self.entries[i].term.as_str().eq(term) {
                return Some(i);
            }
            i += 1;
        }
        None
    }

    /// How often `term` has been counted; zero if it is not held.
    pub fn get(&self, term: &str) -> (n: usize)
        requires
            self.wf(),
        ensures
            n == self@.count(term@),
    {
        proof {
            self.lemma_view();
        }
        match self.find(term) {
            Some(i) => self.entries[i].count,
            None => 0,
        }
    }

    /// Counts `term` another `times` times.
    pub fn add(&mut self, term: String, times: usize)
        requires
            old(self).wf(),
            old(self)@.count(term@) + times <= usize::MAX,
        ensures
            final(self).wf(),
            final(self)@ == old(self)@.add(copies(term@, times as nat)),
            final(self).keys() == if times == 0 || old(self).keys().contains(term@) {
                old(self).keys()
            } else {
                old(self).keys().push(term@)
            },
    {
        proof {
            self.lemma_view();
            lemma_copies(term@, times as nat);
        }
        if times == 0 {
            assert(self@ =~= old(self)@.add(copies(term@, times as nat)));
            return ;
        }
        match self.find(term.as_str()) {
            Some(i) => {
                let n = self.entries[i].count;
                self.entries[i].count = n + times;
                proof {
                    assert(self.keys() =~= old(self).keys());
                    self.lemma_view();
                    assert forall|t: Seq<char>|
                        self@.count(t) == old(self)@.add(copies(term@, times as nat)).count(t) by {
                        if self.keys().contains(t) {
                            let j = self.keys().index_of(t);
                            assert(self.keys()[j] == t);
                        }
                    }
                    assert(self@ =~= old(self)@.add(copies(term@, times as nat)));
                }
            },
            None => {
                self.entries.push(Entry { term, count: times });
                proof {
                    broadcast use vstd::seq_lib::lemma_seq_contains_after_push;

                    assert(self.keys() =~= old(self).keys().push(term@));
                    self.lemma_view();
                    assert forall|t: Seq<char>|
                        self@.count(t) == old(self)@.add(copies(term@, times as nat)).count(t) by {
                        if self.keys().contains(t) {
                            let j = self.keys().index_of(t);
                            assert(self.keys()[j] == t);
                            if j < old(self).keys().len() {
                                assert(old(self).keys()[j] == t);
                            }
                        } else {
                            assert(!old(self).keys().contains(t));
                        }
                    }
                    assert(self@ =~= old(self)@.add(copies(term@, times as nat)));
                }
            },
        }
    }

    /// Counts `term` once more.
    pub fn increment(&mut self, term: String)
        requires
            old(self).wf(),
            old(self)@.count(term@) < usize::MAX,
        ensures
            final(self).wf(),
            final(self)@ == old(self)@.insert(term@),
            final(self).keys() == if old(self).keys().contains(term@) {
                old(self).keys()
            } else {
                old(self).keys().push(term@)
            },
    {
        proof {
            lemma_copies(term@, 1);
            assert(old(self)@.add(copies(term@, 1)) =~= old(self)@.insert(term@));
        }
        self.add(term, 1);
    }

    /// Takes one count of `term` away. A term that is not held stays away.
    pub fn decrement(&mut self, term: &str)
        requires
            old(self).wf(),
        ensures
            final(self).wf(),
            final(self)@ == old(self)@.remove(term@),
            final(self).keys() == if old(self)@.count(term@) == 1 {
                old(self).keys().remove(old(self).keys().index_of(term@))
            } else {
                old(self).keys()
            },
    {
        proof {
            self.lemma_view();
        }
        match self.find(term) {
            Some(i) => {
                let n = self.entries[i].count;
                assert(old(self).keys().index_of(term@) == i);
                if n == 1 {
                    let _ = self.entries.remove(i);
                    proof {
                        assert(self.keys() =~= old(self).keys().remove(i as int));
                        self.lemma_view();
                        assert forall|t: Seq<char>|
                            self@.count(t) == old(self)@.remove(term@).count(t) by {
                            if self.keys().contains(t) {
                                let j = self.keys().index_of(t);
                                assert(self.keys()[j] == t);
                                if j < i {
                                    assert(old(self).keys()[j] == t);
                                } else {
                                    assert(old(self).keys()[j + 1] == t);
                                }
                            } else if old(self).keys().contains(t) {
                                let j = old(self).keys().index_of(t);
                                assert(old(self).keys()[j] == t);
                                if j < i {
                                    assert(self.keys()[j] == t);
                                } else if j > i {
                                    assert(self.keys()[j - 1] == t);
                                }
                            }
                        }
                        assert(self@ =~= old(self)@.remove(term@));
                    }
                } else {
                    self.entries[i].count = n - 1;
                    proof {
                        assert(self.keys() =~= old(self).keys());
                        self.lemma_view();
                        assert forall|t: Seq<char>|
                            self@.count(t) == old(self)@.remove(term@).count(t) by {
                            if self.keys().contains(t) {
                                let j = self.keys().index_of(t);
                                assert(self.keys()[j] == t);
                            }
                        }
                        assert(self@ =~= old(self)@.remove(term@));
                    }
                }
            },
            None => {
                assert(self@ =~= old(self)@.remove(term@));
            },
        }
    }

    /// The terms of the table with their counts, in the order of `keys`.
    pub fn pairs(&self) -> (list: Vec<(String, usize)>)
        requires
            self.wf(),
        ensures
            list.len() == self.keys().len(),
            forall|i: int|
                0 <= i < list.len() ==> (#[trigger] list[i]).0@ == self.keys()[i] && list[i].1
                    == self@.count(self.keys()[i]),
            bag_of(list@) == self@,
            sum_of(list@) == self@.len(),
    {
        proof {
            self.lemma_view();
        }
        let mut list: Vec<(String, usize)> = Vec::new();
        let mut i: usize = 0;
        while i < self.entries.len()
            invariant
                i <= self.entries.len(),
                list.len() == i,
                forall|j: int|
                    0 <= j < i ==> (#[trigger] list[j]).0@ == self.entries[j].term@ && list[j].1
                        == self.entries[j].count,
            decreases self.entries.len() - i,
        {
            list.push((self.entries[i].term.clone(), self.entries[i].count));
            i += 1;
        }
        proof {
            assert forall|t: Seq<char>| bag_of(list@).count(t) == self@.count(t) by {
                lemma_bag_of_count(list@, t);
                if self.keys().contains(t) {
                    let at = self.keys().index_of(t);
                    assert(self.keys()[at] == t);
                    assert(list[at].0@ == t);
                    assert forall|j: int| 0 <= j < list.len() && j != at implies (#[trigger] list[j]).0@
                        != t by {
                        assert(self.keys()[j] != self.keys()[at]);
                    }
                } else {
                    assert forall|j: int| 0 <= j < list.len() implies (#[trigger] list[j]).0@ != t by {
                        assert(self.keys()[j] == list[j].0@);
                    }
                }
            }
            assert(bag_of(list@) =~= self@);
            lemma_bag_of_len(list@);
        }
        list
    }

    /// Whether the two tables count every term the same number of times.
    pub fn same_as(&self, other: &FreqTable) -> (same: bool)
        requires
            self.wf(),
            other.wf(),
        ensures
            same == (self@ == other@),
    {
        proof {
            self.lemma_view();
            other.lemma_view();
            self.lemma_keys();
            other.lemma_keys();
            self.keys().unique_seq_to_set();
            other.keys().unique_seq_to_set();
            vstd::seq_lib::seq_to_set_is_finite(self.keys());
            vstd::seq_lib::seq_to_set_is_finite(other.keys());
        }
        if self.entries.len() != other.entries.len() {
            proof {
                if self@ == other@ {
                    assert(self.keys().to_set() =~= other.keys().to_set());
                }
            }
            return false;
        }
        let mut i: usize = 0;
        while i < self.entries.len()
            invariant
                i <= self.entries.len(),
                self.wf(),
                other.wf(),
                self.keys().len() == self.entries.len(),
                forall|j: int|
                    0 <= j < i ==> other@.count(#[trigger] self.keys()[j]) == self@.count(self.keys()[j]),
            decreases self.entries.len() - i,
        {
            proof {
                self.lemma_view();
            }
            if other.get(self.entries[i].term.as_str()) != self.entries[i].count {
                assert(other@.count(self.keys()[i as int]) != self@.count(self.keys()[i as int]));
                return false;
            }
            i += 1;
        }
        proof {
            let mine = self.keys().to_set();
            let theirs = other.keys().to_set();
            assert(mine.subset_of(theirs)) by {
                assert forall|t: Seq<char>| mine.contains(t) implies theirs.contains(t) by {
                    let j = self.keys().index_of(t);
                    assert(self.keys()[j] == t);
                    assert(other@.count(self.keys()[j]) == self@.count(self.keys()[j]));
                }
            }
            vstd::set_lib::lemma_subset_equality(mine, theirs);
            assert forall|t: Seq<char>| self@.count(t) == other@.count(t) by {
                if self.keys().contains(t) {
                    let j = self.keys().index_of(t);
                    assert(self.keys()[j] == t);
                    assert(other@.count(self.keys()[j]) == self@.count(self.keys()[j]));
                } else {
                    assert(!theirs.contains(t));
                    assert(!other.keys().contains(t));
                }
            }
            assert(self@ =~= other@);
        }
        true
    }
}

} // verus!
