use vstd::prelude::*;

use crate::model::{
    combine_entries, dict_inv, empty_dict, entry_inv, entry_or_zero, entry_zero, filter_model,
    insert_word, merge_model, DictModel, EntryModel,
};
use crate::model::{lemma_filter_extend, lemma_merge_empty, lemma_merge_extend};

verus! {

/// One word's aggregate statistics: its total occurrence count and the
/// distinct identifiers of the books it occurs in, without duplicates.
pub struct Entry {
    pub word_count: usize,
    pub book_ids: Vec<usize>,
}

impl Entry {
    /// The id list holds no duplicates, is no longer than the count, and is
    /// non-empty whenever the count is positive.
    pub open spec fn wf(self) -> bool {
        &&& self.book_ids@.no_duplicates()
        &&& self.book_ids@.len() <= self.word_count
        &&& self.word_count > 0 ==> self.book_ids@.len() > 0
    }
}

impl View for Entry {
    type V = EntryModel;

    open spec fn view(&self) -> EntryModel {
        EntryModel { count: self.word_count as nat, ids: self.book_ids@.to_set() }
    }
}

/// A word-occurrence dictionary: a mapping from case-folded word to `Entry`,
/// with unique keys. Its mathematical content is a `Map` from the word's
/// character sequence to the entry's model.
pub struct Dictionary {
    slots: Vec<(String, Entry)>,
}

spec fn keys_unique(slots: Seq<(String, Entry)>) -> bool {
    forall|i: int, j: int|
        0 <= i < j < slots.len() ==> (#[trigger] slots[i]).0@ != (#[trigger] slots[j]).0@
}

spec fn entries_wf(slots: Seq<(String, Entry)>) -> bool {
    forall|i: int| 0 <= i < slots.len() ==> (#[trigger] slots[i]).1.wf()
}

spec fn map_of(slots: Seq<(String, Entry)>) -> DictModel
    decreases slots.len(),
{
    if slots.len() == 0 {
        Map::empty()
    } else {
        map_of(slots.drop_last()).insert(slots.last().0@, slots.last().1@)
    }
}

impl View for Dictionary {
    type V = DictModel;

    closed spec fn view(&self) -> DictModel {
        map_of(self.slots@)
    }
}

proof fn lemma_map_of_contains(slots: Seq<(String, Entry)>)
    ensures
        forall|w: Seq<char>|
            #[trigger] map_of(slots).dom().contains(w) ==> exists|i: int|
                0 <= i < slots.len() && (#[trigger] slots[i]).0@ == w,
        forall|i: int|
            0 <= i < slots.len() ==> map_of(slots).dom().contains((#[trigger] slots[i]).0@),
    decreases slots.len(),
{
    if slots.len() > 0 {
        lemma_map_of_contains(slots.drop_last());
        assert forall|w: Seq<char>| #[trigger] map_of(slots).dom().contains(w) implies exists|
            i: int,
        | 0 <= i < slots.len() && (#[trigger] slots[i]).0@ == w by {
            if w == slots.last().0@ {
                assert(0 <= slots.len() - 1 < slots.len() && slots[slots.len() - 1].0@ == w);
            } else {
                assert(map_of(slots).dom() == map_of(slots.drop_last()).dom().insert(
                    slots.last().0@,
                ));
                assert(map_of(slots.drop_last()).dom().contains(w));
                let i = choose|i: int|
                    0 <= i < slots.drop_last().len() && (#[trigger] slots.drop_last()[i]).0@ == w;
                assert(slots.drop_last()[i] == slots[i]);
                assert(slots[i].0@ == w);
            }
        }
        assert forall|i: int| 0 <= i < slots.len() implies map_of(slots).dom().contains(
            (#[trigger] slots[i]).0@,
        ) by {
            if i < slots.len() - 1 {
                assert(slots.drop_last()[i] == slots[i]);
            }
        }
    }
}

proof fn lemma_map_of_at(slots: Seq<(String, Entry)>, i: int)
    requires
        keys_unique(slots),
        0 <= i < slots.len(),
    ensures
        map_of(slots).dom().contains(slots[i].0@),
        map_of(slots)[slots[i].0@] == slots[i].1@,
    decreases slots.len(),
{
    if i == slots.len() - 1 {
    } else {
        assert(keys_unique(slots.drop_last())) by {
            assert(forall|p: int|
                0 <= p < slots.len() - 1 ==> slots.drop_last()[p] == (#[trigger] slots[p]));
        }
        assert(slots.drop_last()[i] == slots[i]);
        lemma_map_of_at(slots.drop_last(), i);
        assert(slots.last().0@ != slots[i].0@);
    }
}

proof fn lemma_map_of_len(slots: Seq<(String, Entry)>)
    requires
        keys_unique(slots),
    ensures
        map_of(slots).dom().finite(),
        map_of(slots).dom().len() == slots.len(),
    decreases slots.len(),
{
    if slots.len() > 0 {
        let prev = slots.drop_last();
        assert(keys_unique(prev)) by {
            assert(forall|p: int| 0 <= p < prev.len() ==> prev[p] == (#[trigger] slots[p]));
        }
        lemma_map_of_len(prev);
        let w = slots.last().0@;
        assert(!map_of(prev).dom().contains(w)) by {
            lemma_map_of_contains(prev);
            if map_of(prev).dom().contains(w) {
                let i = choose|i: int| 0 <= i < prev.len() && (#[trigger] prev[i]).0@ == w;
                assert(slots[i].0@ == w);
            }
        }
        assert(map_of(slots).dom() =~= map_of(prev).dom().insert(w));
        vstd::set::axiom_set_insert_len(map_of(prev).dom(), w);
    }
}

proof fn lemma_map_of_push(slots: Seq<(String, Entry)>, s: (String, Entry))
    ensures
        map_of(slots.push(s)) == map_of(slots).insert(s.0@, s.1@),
{
    assert(slots.push(s).drop_last() =~= slots);
    assert(slots.push(s).last() == s);
}

proof fn lemma_map_of_update(slots: Seq<(String, Entry)>, i: int, v: (String, Entry))
    requires
        keys_unique(slots),
        0 <= i < slots.len(),
        v.0@ == slots[i].0@,
    ensures
        map_of(slots.update(i, v)) == map_of(slots).insert(v.0@, v.1@),
    decreases slots.len(),
{
    let s2 = slots.update(i, v);
    if i == slots.len() - 1 {
        assert(s2.drop_last() =~= slots.drop_last());
        assert(s2.last() == v);
        assert(map_of(slots.drop_last()).insert(slots.last().0@, slots.last().1@).insert(
            v.0@,
            v.1@,
        ) =~= map_of(slots.drop_last()).insert(v.0@, v.1@));
    } else {
        let prev = slots.drop_last();
        assert(keys_unique(prev)) by {
            assert(forall|p: int| 0 <= p < prev.len() ==> prev[p] == (#[trigger] slots[p]));
        }
        assert(prev[i] == slots[i]);
        lemma_map_of_update(prev, i, v);
        assert(s2.drop_last() =~= prev.update(i, v));
        assert(s2.last() == slots.last());
        assert(v.0@ != slots.last().0@);
        assert(map_of(prev).insert(v.0@, v.1@).insert(slots.last().0@, slots.last().1@)
            =~= map_of(prev).insert(slots.last().0@, slots.last().1@).insert(v.0@, v.1@));
    }
}

/// Character-by-character equality of two string slices.
fn str_eq(a: &str, b: &str) -> (r: bool)
    ensures
        r == (a@ == b@),
{
    let na = a.unicode_len();
    let nb = b.unicode_len();
    if na != nb {
        return false;
    }
    let mut j: usize = 0;
    while j < na
        invariant
            na == a@.len(),
            na == b@.len(),
            j <= na,
            forall|p: int| 0 <= p < j ==> a@[p] == b@[p],
        decreases na - j,
    {
        let ca = a.get_char(j);
        let cb = b.get_char(j);
        if ca != cb {
            return false;
        }
        j = j + 1;
    }
    proof {
        assert(a@ =~= b@);
    }
    true
}

/// Whether an id list holds the given id.
fn contains_id(v: &Vec<usize>, x: usize) -> (r: bool)
    ensures
        r == v@.contains(x),
{
    let n = v.len();
    let mut j: usize = 0;
    while j < n
        invariant
            n == v@.len(),
            j <= n,
            forall|p: int| 0 <= p < j ==> v@[p] != x,
        decreases n - j,
    {
        if v[j] == x {
            return true;
        }
        j = j + 1;
    }
    false
}

/// A fresh copy of an id list.
fn copy_ids(v: &Vec<usize>) -> (r: Vec<usize>)
    ensures
        r@ == v@,
{
    let n = v.len();
    let mut r: Vec<usize> = Vec::new();
    let mut j: usize = 0;
    while j < n
        invariant
            n == v@.len(),
            j <= n,
            r@ =~= v@.take(j as int),
        decreases n - j,
    {
        r.push(v[j]);
        proof {
            assert(r@ =~= v@.take(j + 1 as int));
        }
        j = j + 1;
    }
    proof {
        assert(v@.take(n as int) =~= v@);
    }
    r
}

/// The union of two duplicate-free id lists, keeping the first list's order
/// and appending the second list's new ids in order.
fn union_ids(a: &Vec<usize>, b: &Vec<usize>) -> (r: Vec<usize>)
    requires
        a@.no_duplicates(),
    ensures
        r@.no_duplicates(),
        r@.to_set() == a@.to_set().union(b@.to_set()),
        r@.len() <= a@.len() + b@.len(),
        a@.len() + b@.len() > 0 ==> r@.len() > 0,
{
    let mut r = copy_ids(a);
    let n = b.len();
    let mut j: usize = 0;
    while j < n
        invariant
            n == b@.len(),
            j <= n,
            r@.no_duplicates(),
            r@.to_set() =~= a@.to_set().union(b@.take(j as int).to_set()),
            r@.len() <= a@.len() + j,
            a@.len() + (j as int) > 0 ==> r@.len() > 0,
        decreases n - j,
    {
        let x = b[j];
        let present = contains_id(&r, x);
        proof {
            assert(b@.take(j + 1 as int) =~= b@.take(j as int).push(x));
            assert(b@.take(j as int).push(x).to_set() =~= b@.take(j as int).to_set().insert(x))
                by {
                assert forall|y: usize| b@.take(j as int).push(x).contains(y) implies b@.take(
                    j as int,
                ).to_set().insert(x).contains(y) by {
                    let i = choose|i: int|
                        0 <= i < b@.take(j as int).push(x).len() && b@.take(j as int).push(x)[i]
                            == y;
                    if i < j {
                        assert(b@.take(j as int)[i] == y);
                    }
                }
                assert forall|y: usize|
                    b@.take(j as int).to_set().insert(x).contains(y) implies b@.take(
                    j as int,
                ).push(x).contains(y) by {
                    if y == x {
                        assert(b@.take(j as int).push(x)[j as int] == y);
                    } else {
                        let i = choose|i: int|
                            0 <= i < b@.take(j as int).len() && b@.take(j as int)[i] == y;
                        assert(b@.take(j as int).push(x)[i] == y);
                    }
                }
            }
        }
        if !present {
            let ghost old_r = r@;
            r.push(x);
            proof {
                assert(forall|p: int| 0 <= p < old_r.len() ==> r@[p] == old_r[p]);
                assert(r@.to_set() =~= old_r.to_set().insert(x)) by {
                    assert forall|y: usize| r@.contains(y) implies old_r.to_set().insert(
                        x,
                    ).contains(y) by {
                        let i = choose|i: int| 0 <= i < r@.len() && r@[i] == y;
                        if i < old_r.len() {
                            assert(old_r[i] == y);
                        }
                    }
                    assert forall|y: usize| old_r.to_set().insert(x).contains(y) implies
                        r@.contains(y) by {
                        if y == x {
                            assert(r@[old_r.len() as int] == y);
                        } else {
                            let i = choose|i: int| 0 <= i < old_r.len() && old_r[i] == y;
                            assert(r@[i] == y);
                        }
                    }
                }
            }
        } else {
            proof {
                assert(r@.to_set().contains(x));
                assert(r@.to_set() =~= r@.to_set().insert(x));
            }
        }
        j = j + 1;
    }
    proof {
        assert(b@.take(n as int) =~= b@);
    }
    r
}

impl Dictionary {
    /// Keys are pairwise distinct and every entry is well formed.
    pub closed spec fn wf(self) -> bool {
        &&& keys_unique(self.slots@)
        &&& entries_wf(self.slots@)
    }

    /// The empty dictionary.
    pub fn new() -> (d: Dictionary)
        ensures
            d.wf(),
            d@ == empty_dict(),
    {
        Dictionary { slots: Vec::new() }
    }

    /// The index of the slot holding `word`, if any.
    fn find(&self, word: &str) -> (r: Option<usize>)
        requires
            self.wf(),
        ensures
            match r {
                Some(i) => i < self.slots@.len() && self.slots@[i as int].0@ == word@
                    && self@.dom().contains(word@),
                None => !self@.dom().contains(word@),
            },
    {
        let n = self.slots.len();
        let mut j: usize = 0;
        while j < n
            invariant
                self.wf(),
                n == self.slots@.len(),
                j <= n,
                forall|p: int| 0 <= p < j ==> (#[trigger] self.slots@[p]).0@ != word@,
            decreases n - j,
        {
            if str_eq(self.slots[j].0.as_str(), word) {
                proof {
                    lemma_map_of_contains(self.slots@);
                }
                return Some(j);
            }
            j = j + 1;
        }
        proof {
            lemma_map_of_contains(self.slots@);
            if self@.dom().contains(word@) {
                let i = choose|i: int|
                    0 <= i < self.slots@.len() && (#[trigger] self.slots@[i]).0@ == word@;
            }
        }
        None
    }

    /// Records one occurrence of `word` in book `book_id`: the word's count
    /// grows by one and the book joins its id set. Always succeeds; creates
    /// the entry if absent.
    pub fn insert(&mut self, word: &str, book_id: usize)
        requires
            old(self).wf(),
            entry_or_zero(old(self)@, word@).count < usize::MAX,
        ensures
            final(self).wf(),
            final(self)@ == insert_word(old(self)@, word@, book_id),
    {
        let found = self.find(word);
        match found {
            Some(i) => {
                proof {
                    lemma_map_of_at(self.slots@, i as int);
                }
                let key = self.slots[i].0.clone();
                let count = self.slots[i].1.word_count;
                let mut ids = copy_ids(&self.slots[i].1.book_ids);
                let present = contains_id(&ids, book_id);
                let ghost old_ids = ids@;
                if !present {
                    ids.push(book_id);
                    proof {
                        assert(forall|p: int| 0 <= p < old_ids.len() ==> ids@[p] == old_ids[p]);
                        assert(ids@.to_set() =~= old_ids.to_set().insert(book_id)) by {
                            assert forall|y: usize| ids@.contains(y) implies old_ids.to_set()
                                .insert(book_id).contains(y) by {
                                let p = choose|p: int| 0 <= p < ids@.len() && ids@[p] == y;
                                if p < old_ids.len() {
                                    assert(old_ids[p] == y);
                                }
                            }
                            assert forall|y: usize|
                                old_ids.to_set().insert(book_id).contains(y) implies ids@.contains(
                                y,
                            ) by {
                                if y == book_id {
                                    assert(ids@[old_ids.len() as int] == y);
                                } else {
                                    let p = choose|p: int| 0 <= p < old_ids.len() && old_ids[p] == y;
                                    assert(ids@[p] == y);
                                }
                            }
                        }
                    }
                } else {
                    proof {
                        assert(ids@.to_set().contains(book_id));
                        assert(ids@.to_set() =~= old_ids.to_set().insert(book_id));
                    }
                }
                let e = Entry { word_count: count + 1, book_ids: ids };
                proof {
                    assert(e@ =~~= EntryModel {
                        count: old(self)@[word@].count + 1,
                        ids: old(self)@[word@].ids.insert(book_id),
                    });
                }
                let ghost slots_before = self.slots@;
                self.slots[i] = (key, e);
                proof {
                    lemma_map_of_update(slots_before, i as int, (key, e));
                    assert(self@ =~~= insert_word(old(self)@, word@, book_id));
                    assert(forall|p: int|
                        0 <= p < self.slots@.len() && p != i ==> self.slots@[p] == (
                        #[trigger] slots_before[p]));
                }
            },
            None => {
                let mut ids: Vec<usize> = Vec::new();
                ids.push(book_id);
                let e = Entry { word_count: 1, book_ids: ids };
                let key = word.to_owned();
                let ghost slots_before = self.slots@;
                proof {
                    lemma_map_of_contains(slots_before);
                }
                self.slots.push((key, e));
                proof {
                    lemma_map_of_push(slots_before, (key, e));
                    assert(e.book_ids@.to_set() =~= Set::empty().insert(book_id)) by {
                        assert forall|y: usize| e.book_ids@.contains(y) implies y == book_id by {
                            let p = choose|p: int|
                                0 <= p < e.book_ids@.len() && e.book_ids@[p] == y;
                        }
                        assert(e.book_ids@[0] == book_id);
                    }
                    assert(self@ =~~= insert_word(old(self)@, word@, book_id));
                    assert(forall|p: int|
                        0 <= p < slots_before.len() ==> self.slots@[p] == (
                        #[trigger] slots_before[p]));
                }
            },
        }
    }

    /// Merges `other` into `self`: for every word of `other`, its count is
    /// added to this dictionary's count and its book ids join this
    /// dictionary's id set, entries being created where absent.
    pub fn merge(&mut self, other: &Dictionary)
        requires
            old(self).wf(),
            other.wf(),
            forall|w: Seq<char>|
                old(self)@.dom().contains(w) && other@.dom().contains(w) ==> (#[trigger] old(
                    self,
                )@[w]).count + other@[w].count <= usize::MAX,
        ensures
            final(self).wf(),
            final(self)@ == merge_model(old(self)@, other@),
    {
        let n = other.slots.len();
        let mut k: usize = 0;
        proof {
            assert(other.slots@.take(0) =~= Seq::<(String, Entry)>::empty());
            lemma_merge_empty(old(self)@);
            assert(self@ =~~= merge_model(old(self)@, map_of(other.slots@.take(0))));
        }
        while k < n
            invariant
                self.wf(),
                other.wf(),
                n == other.slots@.len(),
                k <= n,
                self@ == merge_model(old(self)@, map_of(other.slots@.take(k as int))),
                forall|w: Seq<char>|
                    old(self)@.dom().contains(w) && other@.dom().contains(w) ==> (#[trigger] old(
                        self,
                    )@[w]).count + other@[w].count <= usize::MAX,
            decreases n - k,
        {
            let ghost taken = other.slots@.take(k as int);
            let ghost ow = other.slots@[k as int].0@;
            let ghost oe = other.slots@[k as int].1@;
            proof {
                lemma_map_of_at(other.slots@, k as int);
                assert(other@[ow] == oe);
                assert(!map_of(taken).dom().contains(ow)) by {
                    lemma_map_of_contains(taken);
                    if map_of(taken).dom().contains(ow) {
                        let i = choose|i: int| 0 <= i < taken.len() && (#[trigger] taken[i]).0@ == ow;
                        assert(other.slots@[i].0@ == ow);
                    }
                }
                assert(other.slots@.take(k + 1 as int) =~= taken.push(other.slots@[k as int]));
                lemma_map_of_push(taken, other.slots@[k as int]);
                lemma_merge_extend(old(self)@, map_of(taken), ow, oe);
            }
            let found = self.find(other.slots[k].0.as_str());
            match found {
                Some(i) => {
                    proof {
                        lemma_map_of_at(self.slots@, i as int);
                        assert(self@[ow] == self.slots@[i as int].1@);
                        // since `ow` is absent from the processed prefix, the current
                        // entry is the old entry combined with zero
                        assert(self@[ow] == combine_entries(entry_or_zero(old(self)@, ow), entry_zero()));
                        assert(old(self)@.dom().contains(ow));
                        assert(self.slots@[i as int].1@.count == old(self)@[ow].count);
                        assert(self.slots@[i as int].1@.ids =~= old(self)@[ow].ids.union(
                            Set::empty(),
                        ));
                    }
                    let key = self.slots[i].0.clone();
                    let self_count = self.slots[i].1.word_count;
                    let other_count = other.slots[k].1.word_count;
                    proof {
                        assert(self_count + other_count <= usize::MAX);
                    }
                    let new_count = self_count + other_count;
                    let ids = union_ids(&self.slots[i].1.book_ids, &other.slots[k].1.book_ids);
                    let e = Entry { word_count: new_count, book_ids: ids };
                    proof {
                        assert(e@ =~~= combine_entries(entry_or_zero(old(self)@, ow), oe)) by {
                            assert(e@.ids =~= entry_or_zero(old(self)@, ow).ids.union(oe.ids));
                        }
                    }
                    let ghost slots_before = self.slots@;
                    self.slots[i] = (key, e);
                    proof {
                        lemma_map_of_update(slots_before, i as int, (key, e));
                        assert(self@ =~~= merge_model(
                            old(self)@,
                            map_of(other.slots@.take(k + 1 as int)),
                        ));
                        assert(forall|p: int|
                            0 <= p < self.slots@.len() && p != i ==> self.slots@[p] == (
                            #[trigger] slots_before[p]));
                    }
                },
                None => {
                    proof {
                        assert(!old(self)@.dom().contains(ow));
                        assert(entry_or_zero(old(self)@, ow) == entry_zero());
                    }
                    let key = other.slots[k].0.clone();
                    let e = Entry {
                        word_count: other.slots[k].1.word_count,
                        book_ids: copy_ids(&other.slots[k].1.book_ids),
                    };
                    proof {
                        assert(e@ =~~= combine_entries(entry_or_zero(old(self)@, ow), oe)) by {
                            assert(e@.ids =~= Set::empty().union(oe.ids));
                        }
                    }
                    let ghost slots_before = self.slots@;
                    proof {
                        lemma_map_of_contains(slots_before);
                    }
                    self.slots.push((key, e));
                    proof {
                        lemma_map_of_push(slots_before, (key, e));
                        assert(self@ =~~= merge_model(
                            old(self)@,
                            map_of(other.slots@.take(k + 1 as int)),
                        ));
                        assert(forall|p: int|
                            0 <= p < slots_before.len() ==> self.slots@[p] == (
                            #[trigger] slots_before[p]));
                    }
                },
            }
            k = k + 1;
        }
        proof {
            assert(other.slots@.take(n as int) =~= other.slots@);
        }
    }

    /// Deletes every entry whose total count is one or less; nothing else
    /// changes.
    pub fn remove_single_occurrences(&mut self)
        requires
            old(self).wf(),
        ensures
            final(self).wf(),
            final(self)@ == filter_model(old(self)@),
    {
        let n = self.slots.len();
        let mut kept: Vec<(String, Entry)> = Vec::new();
        let mut k: usize = 0;
        proof {
            assert(self.slots@.take(0) =~= Seq::<(String, Entry)>::empty());
            assert(map_of(kept@) =~~= filter_model(map_of(self.slots@.take(0))));
        }
        while k < n
            invariant
                self.wf(),
                self == old(self),
                n == self.slots@.len(),
                k <= n,
                keys_unique(kept@),
                entries_wf(kept@),
                map_of(kept@) == filter_model(map_of(self.slots@.take(k as int))),
                forall|p: int|
                    0 <= p < kept@.len() ==> map_of(self.slots@.take(k as int)).dom().contains(
                        (#[trigger] kept@[p]).0@,
                    ),
            decreases n - k,
        {
            let ghost taken = self.slots@.take(k as int);
            let ghost w = self.slots@[k as int].0@;
            let ghost e = self.slots@[k as int].1@;
            proof {
                assert(!map_of(taken).dom().contains(w)) by {
                    lemma_map_of_contains(taken);
                    if map_of(taken).dom().contains(w) {
                        let i = choose|i: int| 0 <= i < taken.len() && (#[trigger] taken[i]).0@ == w;
                        assert(self.slots@[i].0@ == w);
                    }
                }
                assert(self.slots@.take(k + 1 as int) =~= taken.push(self.slots@[k as int]));
                lemma_map_of_push(taken, self.slots@[k as int]);
                lemma_filter_extend(map_of(taken), w, e);
            }
            let cnt = self.slots[k].1.word_count;
            if cnt > 1 {
                let key = self.slots[k].0.clone();
                let entry = Entry { word_count: cnt, book_ids: copy_ids(&self.slots[k].1.book_ids) };
                let ghost kept_before = kept@;
                proof {
                    lemma_map_of_contains(kept_before);
                }
                kept.push((key, entry));
                proof {
                    lemma_map_of_push(kept_before, (key, entry));
                    assert(entry@ =~~= e);
                    assert(map_of(kept@) =~~= filter_model(
                        map_of(self.slots@.take(k + 1 as int)),
                    ));
                    assert(forall|p: int|
                        0 <= p < kept_before.len() ==> kept@[p] == (#[trigger] kept_before[p]));
                }
            } else {
                proof {
                    assert(map_of(kept@) =~~= filter_model(
                        map_of(self.slots@.take(k + 1 as int)),
                    ));
                }
            }
            k = k + 1;
        }
        proof {
            assert(self.slots@.take(n as int) =~= self.slots@);
        }
        self.slots = kept;
    }

    /// The number of distinct words in the dictionary.
    pub fn len(&self) -> (n: usize)
        requires
            self.wf(),
        ensures
            self@.dom().finite(),
            n == self@.dom().len(),
    {
        proof {
            lemma_map_of_len(self.slots@);
        }
        self.slots.len()
    }

    /// The total occurrence count recorded for `word`, if the word is
    /// present.
    pub fn count_of(&self, word: &str) -> (r: Option<usize>)
        requires
            self.wf(),
        ensures
            match r {
                Some(c) => self@.dom().contains(word@) && c == self@[word@].count,
                None => !self@.dom().contains(word@),
            },
    {
        let found = self.find(word);
        match found {
            Some(i) => {
                proof {
                    lemma_map_of_at(self.slots@, i as int);
                }
                Some(self.slots[i].1.word_count)
            },
            None => None,
        }
    }

    /// The distinct book ids recorded for `word`, if the word is present;
    /// the returned list holds no duplicates.
    pub fn book_ids_of(&self, word: &str) -> (r: Option<Vec<usize>>)
        requires
            self.wf(),
        ensures
            match r {
                Some(v) => self@.dom().contains(word@) && v@.to_set() == self@[word@].ids
                    && v@.no_duplicates(),
                None => !self@.dom().contains(word@),
            },
    {
        let found = self.find(word);
        match found {
            Some(i) => {
                proof {
                    lemma_map_of_at(self.slots@, i as int);
                }
                Some(copy_ids(&self.slots[i].1.book_ids))
            },
            None => None,
        }
    }

    /// The words of the dictionary, each exactly once.
    pub fn words(&self) -> (r: Vec<String>)
        requires
            self.wf(),
        ensures
            r.deep_view().no_duplicates(),
            r.deep_view().to_set() == self@.dom(),
            r@.len() == self@.dom().len(),
    {
        let n = self.slots.len();
        let mut r: Vec<String> = Vec::new();
        let mut j: usize = 0;
        while j < n
            invariant
                self.wf(),
                n == self.slots@.len(),
                j <= n,
                r.deep_view() =~= self.slots@.take(j as int).map_values(
                    |s: (String, Entry)| s.0@,
                ),
            decreases n - j,
        {
            let ghost old_dv = r.deep_view();
            r.push(self.slots[j].0.clone());
            proof {
                let f = |s: (String, Entry)| s.0@;
                assert(self.slots@.take(j + 1 as int) =~= self.slots@.take(j as int).push(
                    self.slots@[j as int],
                ));
                assert(r.deep_view() =~= old_dv.push(self.slots@[j as int].0@));
                assert(self.slots@.take(j + 1 as int).map_values(f) =~= self.slots@.take(
                    j as int,
                ).map_values(f).push(self.slots@[j as int].0@));
                assert(r.deep_view() =~= self.slots@.take(j + 1 as int).map_values(f));
            }
            j = j + 1;
        }
        proof {
            assert(self.slots@.take(n as int) =~= self.slots@);
            let keys = self.slots@.map_values(|s: (String, Entry)| s.0@);
            lemma_map_of_contains(self.slots@);
            assert(keys.to_set() =~= self@.dom()) by {
                assert forall|w: Seq<char>| keys.contains(w) implies self@.dom().contains(w) by {
                    let i = choose|i: int| 0 <= i < keys.len() && keys[i] == w;
                    assert(self.slots@[i].0@ == w);
                }
                assert forall|w: Seq<char>| self@.dom().contains(w) implies keys.contains(w) by {
                    let i = choose|i: int|
                        0 <= i < self.slots@.len() && (#[trigger] self.slots@[i]).0@ == w;
                    assert(keys[i] == w);
                }
            }
            assert(keys.no_duplicates());
            lemma_map_of_len(self.slots@);
        }
        r
    }
}

/// Every well-formed dictionary satisfies the model invariant: each entry's
/// id set is finite, no larger than its count, and non-empty whenever the
/// count is positive.
pub proof fn lemma_wf_dict_inv(d: &Dictionary)
    requires
        d.wf(),
    ensures
        dict_inv(d@),
{
    assert forall|w: Seq<char>| d@.dom().contains(w) implies entry_inv(#[trigger] d@[w]) by {
        lemma_map_of_contains(d.slots@);
        let i = choose|i: int| 0 <= i < d.slots@.len() && (#[trigger] d.slots@[i]).0@ == w;
        lemma_map_of_at(d.slots@, i);
        let ids = d.slots@[i].1.book_ids@;
        vstd::seq_lib::seq_to_set_is_finite::<usize>(ids);
        ids.lemma_cardinality_of_set();
        if d.slots@[i].1.word_count > 0 {
            ids.unique_seq_to_set();
        }
    }
}

} // verus!
