use vstd::prelude::*;

verus! {

/// The mathematical content of one dictionary entry: the total number of
/// occurrences of a word, and the set of identifiers of the books in which
/// it occurs.
#[verifier::ext_equal]
pub ghost struct EntryModel {
    pub count: nat,
    pub ids: Set<usize>,
}

/// The mathematical content of a dictionary: a finite map from word to entry.
pub type DictModel = Map<Seq<char>, EntryModel>;

/// The dictionary with no entries.
pub open spec fn empty_dict() -> DictModel {
    Map::empty()
}

/// The entry of a word that has never been seen.
pub open spec fn entry_zero() -> EntryModel {
    EntryModel { count: 0, ids: Set::empty() }
}

/// The entry of `w` in `m`, or the zero entry if `w` is absent.
pub open spec fn entry_or_zero(m: DictModel, w: Seq<char>) -> EntryModel {
    if m.dom().contains(w) {
        m[w]
    } else {
        entry_zero()
    }
}

/// One occurrence of `w` in book `id`: the word's count grows by one and the
/// book joins the word's id set. Total; creates the entry if absent.
pub open spec fn insert_word(m: DictModel, w: Seq<char>, id: usize) -> DictModel {
    let e = entry_or_zero(m, w);
    m.insert(w, EntryModel { count: e.count + 1, ids: e.ids.insert(id) })
}

/// Combining two entries for the same word: counts add, id sets union.
pub open spec fn combine_entries(a: EntryModel, b: EntryModel) -> EntryModel {
    EntryModel { count: a.count + b.count, ids: a.ids.union(b.ids) }
}

/// The merge of two dictionaries: the entry of each word is the combination
/// of its entries on either side, absent words counting as zero.
pub open spec fn merge_model(a: DictModel, b: DictModel) -> DictModel {
    Map::new(
        |w: Seq<char>| a.dom().contains(w) || b.dom().contains(w),
        |w: Seq<char>| combine_entries(entry_or_zero(a, w), entry_or_zero(b, w)),
    )
}

/// The dictionary restricted to the words occurring more than once.
pub open spec fn filter_model(m: DictModel) -> DictModel {
    Map::new(|w: Seq<char>| m.dom().contains(w) && m[w].count > 1, |w: Seq<char>| m[w])
}

/// The per-entry invariant: a word that occurs at all occurs in at least one
/// book, and in no more books than it has occurrences.
pub open spec fn entry_inv(e: EntryModel) -> bool {
    &&& e.ids.finite()
    &&& e.ids.len() <= e.count
    &&& e.count > 0 ==> e.ids.len() > 0
}

/// The per-dictionary invariant: every entry satisfies `entry_inv`.
pub open spec fn dict_inv(m: DictModel) -> bool {
    forall|w: Seq<char>| m.dom().contains(w) ==> entry_inv(#[trigger] m[w])
}

/// Merging with the empty dictionary changes nothing.
pub proof fn lemma_merge_empty(a: DictModel)
    ensures
        merge_model(a, empty_dict()) == a,
        merge_model(empty_dict(), a) == a,
{
    assert forall|w: Seq<char>| a.dom().contains(w) implies merge_model(a, empty_dict())[w]
        =~~= a[w] by {
        assert(a[w].ids.union(Set::empty()) =~= a[w].ids);
        assert(Set::empty().union(a[w].ids) =~= a[w].ids);
    }
    assert(merge_model(a, empty_dict()) =~~= a);
    assert forall|w: Seq<char>| a.dom().contains(w) implies merge_model(empty_dict(), a)[w]
        =~~= a[w] by {
        assert(Set::empty().union(a[w].ids) =~= a[w].ids);
    }
    assert(merge_model(empty_dict(), a) =~~= a);
}

/// Merging dictionaries is commutative: the order of the two partial
/// dictionaries does not matter.
pub proof fn lemma_merge_commutative(a: DictModel, b: DictModel)
    ensures
        merge_model(a, b) == merge_model(b, a),
{
    assert forall|w: Seq<char>| merge_model(a, b).dom().contains(w) implies merge_model(a, b)[w]
        =~~= merge_model(b, a)[w] by {
        assert(entry_or_zero(a, w).ids.union(entry_or_zero(b, w).ids) =~= entry_or_zero(
            b,
            w,
        ).ids.union(entry_or_zero(a, w).ids));
    }
    assert(merge_model(a, b) =~~= merge_model(b, a));
}

/// Merging dictionaries is associative: partial dictionaries may be folded
/// together in any grouping.
pub proof fn lemma_merge_associative(a: DictModel, b: DictModel, c: DictModel)
    ensures
        merge_model(merge_model(a, b), c) == merge_model(a, merge_model(b, c)),
{
    let l = merge_model(merge_model(a, b), c);
    let r = merge_model(a, merge_model(b, c));
    assert forall|w: Seq<char>| l.dom().contains(w) implies l[w] =~~= r[w] by {
        assert(entry_or_zero(merge_model(a, b), w) == combine_entries(
            entry_or_zero(a, w),
            entry_or_zero(b, w),
        ));
        assert(entry_or_zero(merge_model(b, c), w) == combine_entries(
            entry_or_zero(b, w),
            entry_or_zero(c, w),
        ));
        assert(entry_or_zero(a, w).ids.union(entry_or_zero(b, w).ids).union(
            entry_or_zero(c, w).ids,
        ) =~= entry_or_zero(a, w).ids.union(
            entry_or_zero(b, w).ids.union(entry_or_zero(c, w).ids),
        ));
    }
    assert(l.dom() =~= r.dom());
    assert(l =~~= r);
}

/// Recording an occurrence in one partial dictionary and then merging is the
/// same as merging first and recording the occurrence in the result: inserts
/// distribute over merge, so a stream of occurrences may be split across
/// workers in any way.
pub proof fn lemma_merge_insert(a: DictModel, b: DictModel, w: Seq<char>, id: usize)
    ensures
        merge_model(a, insert_word(b, w, id)) == insert_word(merge_model(a, b), w, id),
{
    let l = merge_model(a, insert_word(b, w, id));
    let r = insert_word(merge_model(a, b), w, id);
    assert forall|v: Seq<char>| l.dom().contains(v) implies l[v] =~~= r[v] by {
        if v == w {
            assert(entry_or_zero(a, w).ids.union(entry_or_zero(b, w).ids.insert(id))
                =~= entry_or_zero(a, w).ids.union(entry_or_zero(b, w).ids).insert(id));
        }
    }
    assert(l.dom() =~= r.dom());
    assert(l =~~= r);
}

/// Removing single occurrences is idempotent: a second application changes
/// nothing.
pub proof fn lemma_filter_idempotent(m: DictModel)
    ensures
        filter_model(filter_model(m)) == filter_model(m),
{
    assert(filter_model(filter_model(m)) =~~= filter_model(m));
}

/// Merging one further word-to-entry binding into the right-hand side of a
/// merge, for a word the right-hand side does not hold yet, combines that
/// entry into the merged dictionary.
pub proof fn lemma_merge_extend(m: DictModel, mo: DictModel, w: Seq<char>, e: EntryModel)
    requires
        !mo.dom().contains(w),
    ensures
        merge_model(m, mo.insert(w, e)) == merge_model(m, mo).insert(
            w,
            combine_entries(entry_or_zero(m, w), e),
        ),
{
    let l = merge_model(m, mo.insert(w, e));
    let r = merge_model(m, mo).insert(w, combine_entries(entry_or_zero(m, w), e));
    assert forall|v: Seq<char>| l.dom().contains(v) implies l[v] =~~= r[v] by {}
    assert(l.dom() =~= r.dom());
    assert(l =~~= r);
}

/// Filtering a dictionary extended by a fresh binding keeps the binding
/// exactly when its count is above one.
pub proof fn lemma_filter_extend(m: DictModel, w: Seq<char>, e: EntryModel)
    requires
        !m.dom().contains(w),
    ensures
        filter_model(m.insert(w, e)) == if e.count > 1 {
            filter_model(m).insert(w, e)
        } else {
            filter_model(m)
        },
{
    if e.count > 1 {
        assert(filter_model(m.insert(w, e)) =~~= filter_model(m).insert(w, e));
    } else {
        assert(filter_model(m.insert(w, e)) =~~= filter_model(m));
    }
}

} // verus!
