use vstd::prelude::*;

use crate::dictionary::Dictionary;
use crate::model::{
    empty_dict, entry_or_zero, filter_model, insert_word, lemma_merge_empty, lemma_merge_insert,
    merge_model, DictModel,
};
use crate::partition::{is_partition, lemma_chunks_ordered, partition, Chunk};
use crate::tokenizer::{split_to_words, split_words};

verus! {

/// What reading one book yielded: its decoded lines, a line that could not
/// be decoded standing as `None`, or the reason the book could not be read.
pub enum BookSource {
    Text { lines: Vec<Option<String>> },
    Unreadable { reason: String },
}

/// A per-book warning: the identifier of a book that could not be read, and
/// the reason.
pub struct Warning {
    pub book_id: usize,
    pub reason: String,
}

/// The occurrence stream of one line folded into a dictionary: each word of
/// the line inserted in order under book `id`.
pub open spec fn insert_words(m: DictModel, ws: Seq<Seq<char>>, id: usize) -> DictModel
    decreases ws.len(),
{
    if ws.len() == 0 {
        m
    } else {
        insert_words(insert_word(m, ws[0], id), ws.drop_first(), id)
    }
}

/// A book's lines folded into a dictionary: each decoded line tokenized and
/// inserted under book `id`; an undecodable line is skipped.
pub open spec fn insert_lines(m: DictModel, lines: Seq<Option<Seq<char>>>, id: usize) -> DictModel
    decreases lines.len(),
{
    if lines.len() == 0 {
        m
    } else {
        let m2 = match lines[0] {
            Some(l) => insert_words(m, split_words(l), id),
            None => m,
        };
        insert_lines(m2, lines.drop_first(), id)
    }
}

/// The lines a book contributes: its decoded lines if readable, nothing if
/// not.
pub open spec fn book_lines(b: BookSource) -> Seq<Option<Seq<char>>> {
    match b {
        BookSource::Text { lines } => lines.deep_view(),
        BookSource::Unreadable { .. } => Seq::empty(),
    }
}

/// One book folded into a dictionary under book `id`.
pub open spec fn insert_book(m: DictModel, b: BookSource, id: usize) -> DictModel {
    insert_lines(m, book_lines(b), id)
}

/// The books with indices `lo <= i < hi` folded into a dictionary, each
/// under its global index as book id.
pub open spec fn insert_books(m: DictModel, books: Seq<BookSource>, lo: int, hi: int) -> DictModel
    decreases hi - lo,
{
    if lo >= hi {
        m
    } else {
        insert_books(insert_book(m, books[lo], lo as usize), books, lo + 1, hi)
    }
}

/// The dictionary built from scratch over the books with indices
/// `lo <= i < hi`.
pub open spec fn build_range(books: Seq<BookSource>, lo: int, hi: int) -> DictModel {
    insert_books(empty_dict(), books, lo, hi)
}

/// The number of word occurrences one line contributes.
pub open spec fn line_occ(l: Option<Seq<char>>) -> nat {
    match l {
        Some(t) => split_words(t).len(),
        None => 0,
    }
}

/// The number of word occurrences a book's lines contribute.
pub open spec fn lines_occ(lines: Seq<Option<Seq<char>>>) -> nat
    decreases lines.len(),
{
    if lines.len() == 0 {
        0nat
    } else {
        line_occ(lines[0]) + lines_occ(lines.drop_first())
    }
}

/// The number of word occurrences one book contributes.
pub open spec fn book_occ(b: BookSource) -> nat {
    lines_occ(book_lines(b))
}

/// The number of word occurrences the books `lo <= i < hi` contribute.
pub open spec fn books_occ(books: Seq<BookSource>, lo: int, hi: int) -> nat
    decreases hi - lo,
{
    if lo >= hi {
        0nat
    } else {
        book_occ(books[lo]) + books_occ(books, lo + 1, hi)
    }
}

/// The warnings owed for the books `lo <= i < hi`: one `(id, reason)` pair
/// per unreadable book, in index order.
pub open spec fn warnings_of(books: Seq<BookSource>, lo: int, hi: int) -> Seq<(usize, Seq<char>)>
    decreases hi - lo,
{
    if lo >= hi {
        Seq::empty()
    } else {
        let rest = warnings_of(books, lo + 1, hi);
        match books[lo] {
            BookSource::Unreadable { reason } => seq![((lo as usize), reason@)] + rest,
            BookSource::Text { .. } => rest,
        }
    }
}

/// The mathematical content of a warning list.
pub open spec fn warnings_view(ws: Seq<Warning>) -> Seq<(usize, Seq<char>)> {
    ws.map_values(|w: Warning| (w.book_id, w.reason@))
}

/// The total count a dictionary records for a word, zero if absent.
pub open spec fn word_count_in(m: DictModel, w: Seq<char>) -> nat {
    entry_or_zero(m, w).count
}

/// Folding a line's words grows no word's count by more than the number of
/// words folded.
proof fn lemma_insert_words_bound(m: DictModel, ws: Seq<Seq<char>>, id: usize)
    ensures
        forall|v: Seq<char>|
            #[trigger] word_count_in(insert_words(m, ws, id), v) <= word_count_in(m, v)
                + ws.len(),
    decreases ws.len(),
{
    if ws.len() > 0 {
        let m1 = insert_word(m, ws[0], id);
        lemma_insert_words_bound(m1, ws.drop_first(), id);
        assert forall|v: Seq<char>|
            #[trigger] word_count_in(insert_words(m, ws, id), v) <= word_count_in(m, v)
                + ws.len() by {
            assert(word_count_in(insert_words(m1, ws.drop_first(), id), v) <= word_count_in(
                m1,
                v,
            ) + ws.drop_first().len());
            assert(word_count_in(m1, v) <= word_count_in(m, v) + 1);
        }
    }
}

/// Folding a book's lines grows no word's count by more than the lines'
/// total occurrence count.
proof fn lemma_insert_lines_bound(m: DictModel, lines: Seq<Option<Seq<char>>>, id: usize)
    ensures
        forall|v: Seq<char>|
            #[trigger] word_count_in(insert_lines(m, lines, id), v) <= word_count_in(m, v)
                + lines_occ(lines),
    decreases lines.len(),
{
    if lines.len() > 0 {
        let m2 = match lines[0] {
            Some(l) => insert_words(m, split_words(l), id),
            None => m,
        };
        match lines[0] {
            Some(l) => {
                lemma_insert_words_bound(m, split_words(l), id);
            },
            None => {},
        }
        lemma_insert_lines_bound(m2, lines.drop_first(), id);
        assert forall|v: Seq<char>|
            #[trigger] word_count_in(insert_lines(m, lines, id), v) <= word_count_in(m, v)
                + lines_occ(lines) by {
            assert(word_count_in(insert_lines(m2, lines.drop_first(), id), v) <= word_count_in(
                m2,
                v,
            ) + lines_occ(lines.drop_first()));
            assert(word_count_in(m2, v) <= word_count_in(m, v) + line_occ(lines[0]));
        }
    }
}

/// Folding a range of books grows no word's count by more than the range's
/// total occurrence count.
proof fn lemma_insert_books_bound(m: DictModel, books: Seq<BookSource>, lo: int, hi: int)
    ensures
        forall|v: Seq<char>|
            #[trigger] word_count_in(insert_books(m, books, lo, hi), v) <= word_count_in(m, v)
                + books_occ(books, lo, hi),
    decreases hi - lo,
{
    if lo < hi {
        let m1 = insert_book(m, books[lo], lo as usize);
        lemma_insert_lines_bound(m, book_lines(books[lo]), lo as usize);
        lemma_insert_books_bound(m1, books, lo + 1, hi);
        assert forall|v: Seq<char>|
            #[trigger] word_count_in(insert_books(m, books, lo, hi), v) <= word_count_in(m, v)
                + books_occ(books, lo, hi) by {
            assert(word_count_in(insert_books(m1, books, lo + 1, hi), v) <= word_count_in(m1, v)
                + books_occ(books, lo + 1, hi));
            assert(word_count_in(m1, v) <= word_count_in(m, v) + book_occ(books[lo]));
        }
    }
}

/// The occurrence count of a range of books splits at any midpoint.
proof fn lemma_books_occ_split(books: Seq<BookSource>, lo: int, mid: int, hi: int)
    requires
        lo <= mid <= hi,
    ensures
        books_occ(books, lo, hi) == books_occ(books, lo, mid) + books_occ(books, mid, hi),
    decreases mid - lo,
{
    if lo < mid {
        lemma_books_occ_split(books, lo + 1, mid, hi);
    }
}

/// The warnings owed for a range of books split at any midpoint.
proof fn lemma_warnings_split(books: Seq<BookSource>, lo: int, mid: int, hi: int)
    requires
        lo <= mid <= hi,
    ensures
        warnings_of(books, lo, hi) == warnings_of(books, lo, mid) + warnings_of(books, mid, hi),
    decreases mid - lo,
{
    if lo == mid {
        assert(Seq::<(usize, Seq<char>)>::empty() + warnings_of(books, mid, hi) =~= warnings_of(
            books,
            mid,
            hi,
        ));
    } else {
        lemma_warnings_split(books, lo + 1, mid, hi);
        match books[lo] {
            BookSource::Unreadable { reason } => {
                assert(seq![((lo as usize), reason@)] + (warnings_of(books, lo + 1, mid)
                    + warnings_of(books, mid, hi)) =~= (seq![((lo as usize), reason@)]
                    + warnings_of(books, lo + 1, mid)) + warnings_of(books, mid, hi));
            },
            BookSource::Text { .. } => {},
        }
    }
}

/// Folding a range of books splits at any midpoint: fold the first part,
/// then the second into the result.
proof fn lemma_insert_books_split(
    m: DictModel,
    books: Seq<BookSource>,
    lo: int,
    mid: int,
    hi: int,
)
    requires
        lo <= mid <= hi,
    ensures
        insert_books(m, books, lo, hi) == insert_books(
            insert_books(m, books, lo, mid),
            books,
            mid,
            hi,
        ),
    decreases mid - lo,
{
    if lo < mid {
        lemma_insert_books_split(insert_book(m, books[lo], lo as usize), books, lo + 1, mid, hi);
    }
}

/// Merge distributes over folding a line's words into the right-hand side.
proof fn lemma_merge_insert_words(a: DictModel, b: DictModel, ws: Seq<Seq<char>>, id: usize)
    ensures
        merge_model(a, insert_words(b, ws, id)) == insert_words(merge_model(a, b), ws, id),
    decreases ws.len(),
{
    if ws.len() > 0 {
        lemma_merge_insert(a, b, ws[0], id);
        lemma_merge_insert_words(a, insert_word(b, ws[0], id), ws.drop_first(), id);
    }
}

/// Merge distributes over folding a book's lines into the right-hand side.
proof fn lemma_merge_insert_lines(
    a: DictModel,
    b: DictModel,
    lines: Seq<Option<Seq<char>>>,
    id: usize,
)
    ensures
        merge_model(a, insert_lines(b, lines, id)) == insert_lines(merge_model(a, b), lines, id),
    decreases lines.len(),
{
    if lines.len() > 0 {
        let b2 = match lines[0] {
            Some(l) => insert_words(b, split_words(l), id),
            None => b,
        };
        match lines[0] {
            Some(l) => {
                lemma_merge_insert_words(a, b, split_words(l), id);
            },
            None => {},
        }
        lemma_merge_insert_lines(a, b2, lines.drop_first(), id);
    }
}

/// Merge distributes over folding a range of books into the right-hand side.
proof fn lemma_merge_insert_books(
    a: DictModel,
    b: DictModel,
    books: Seq<BookSource>,
    lo: int,
    hi: int,
)
    ensures
        merge_model(a, insert_books(b, books, lo, hi)) == insert_books(
            merge_model(a, b),
            books,
            lo,
            hi,
        ),
    decreases hi - lo,
{
    if lo < hi {
        lemma_merge_insert_lines(a, b, book_lines(books[lo]), lo as usize);
        lemma_merge_insert_books(a, insert_book(b, books[lo], lo as usize), books, lo + 1, hi);
    }
}

/// Building over a range of books directly equals building its two halves
/// separately and merging: a word-occurrence stream may be split across
/// workers at any point and re-merged without changing counts or id sets.
pub proof fn lemma_build_split(books: Seq<BookSource>, lo: int, mid: int, hi: int)
    requires
        0 <= lo <= mid <= hi <= books.len(),
    ensures
        build_range(books, lo, hi) == merge_model(
            build_range(books, lo, mid),
            build_range(books, mid, hi),
        ),
{
    lemma_insert_books_split(empty_dict(), books, lo, mid, hi);
    lemma_merge_insert_books(build_range(books, lo, mid), empty_dict(), books, mid, hi);
    lemma_merge_empty(build_range(books, lo, mid));
}

/// Failure isolation: an unreadable book contributes nothing, so the
/// dictionary over all books equals the dictionary over the books before it
/// merged with the dictionary over the books after it, ids unchanged.
pub proof fn lemma_failure_isolation(books: Seq<BookSource>, k: int)
    requires
        0 <= k < books.len(),
        books[k] is Unreadable,
    ensures
        build_range(books, 0, books.len() as int) == merge_model(
            build_range(books, 0, k),
            build_range(books, k + 1, books.len() as int),
        ),
{
    let n = books.len() as int;
    lemma_build_split(books, 0, k, n);
    lemma_build_split(books, k, k + 1, n);
    assert(book_lines(books[k]) =~= Seq::<Option<Seq<char>>>::empty());
    assert(insert_book(empty_dict(), books[k], k as usize) == empty_dict());
    assert(build_range(books, k, k + 1) == insert_books(
        insert_book(empty_dict(), books[k], k as usize),
        books,
        k + 1,
        k + 1,
    ));
    assert(build_range(books, k, k + 1) == empty_dict());
    lemma_merge_empty(build_range(books, k + 1, n));
}

/// The partial dictionaries of a chunk list folded together in order: what
/// the aggregation phase computes from one worker per chunk.
pub open spec fn fold_partials(books: Seq<BookSource>, chunks: Seq<Chunk>) -> DictModel
    decreases chunks.len(),
{
    if chunks.len() == 0 {
        empty_dict()
    } else {
        merge_model(
            fold_partials(books, chunks.drop_last()),
            build_range(books, chunks.last().start as int, chunks.last().end as int),
        )
    }
}

/// Folding the partials of a chunk list that partitions `0..t` yields the
/// dictionary built over the books `0..t` in one pass.
proof fn lemma_partition_fold_to(books: Seq<BookSource>, chunks: Seq<Chunk>, t: nat)
    requires
        is_partition(chunks, t),
        t <= books.len(),
    ensures
        fold_partials(books, chunks) == build_range(books, 0, t as int),
    decreases chunks.len(),
{
    if chunks.len() == 0 {
    } else {
        let prefix = chunks.drop_last();
        let s = chunks.last().start as int;
        assert(chunks.last().end == t);
        assert(is_partition(prefix, s as nat)) by {
            assert(forall|p: int|
                0 <= p < prefix.len() ==> prefix[p] == (#[trigger] chunks[p]));
            if prefix.len() > 0 {
                assert(prefix[prefix.len() - 1].end == chunks[chunks.len() - 2].end);
                assert(chunks[chunks.len() - 2].end == chunks[chunks.len() - 1].start);
                if s == 0 {
                    lemma_chunks_ordered(chunks, t, 0, chunks.len() - 1);
                    assert(chunks[0].end <= 0);
                }
            } else {
                assert(chunks[0].start == 0);
            }
        }
        lemma_partition_fold_to(books, prefix, s as nat);
        lemma_build_split(books, 0, s, t as int);
    }
}

/// Folding the partial dictionaries of any partition of the file list yields
/// the dictionary built over the whole list in one pass.
pub proof fn lemma_partition_fold(books: Seq<BookSource>, chunks: Seq<Chunk>)
    requires
        is_partition(chunks, books.len()),
    ensures
        fold_partials(books, chunks) == build_range(books, 0, books.len() as int),
{
    lemma_partition_fold_to(books, chunks, books.len());
}

/// Worker-count invariance: any two partitions of the same file list, such
/// as those for different worker counts, merge to the same dictionary.
pub proof fn lemma_worker_count_invariance(
    books: Seq<BookSource>,
    chunks1: Seq<Chunk>,
    chunks2: Seq<Chunk>,
)
    requires
        is_partition(chunks1, books.len()),
        is_partition(chunks2, books.len()),
    ensures
        fold_partials(books, chunks1) == fold_partials(books, chunks2),
{
    lemma_partition_fold(books, chunks1);
    lemma_partition_fold(books, chunks2);
}

/// Streams the books with indices `lo <= i < hi` into one partial
/// dictionary, each book under its global index: every decoded line is
/// tokenized and its words inserted; an undecodable line is skipped; an
/// unreadable book contributes nothing but a warning recording its id and
/// the reason. Per-book failures never abort the run.
#[verifier::loop_isolation(false)]
pub fn process_books(books: &Vec<BookSource>, lo: usize, hi: usize) -> (r: (Dictionary, Vec<
    Warning,
>))
    requires
        lo <= hi <= books@.len(),
        books_occ(books@, lo as int, hi as int) <= usize::MAX,
    ensures
        r.0.wf(),
        r.0@ == build_range(books@, lo as int, hi as int),
        warnings_view(r.1@) == warnings_of(books@, lo as int, hi as int),
{
    let ghost target = build_range(books@, lo as int, hi as int);
    let ghost wtarget = warnings_of(books@, lo as int, hi as int);
    let mut dict = Dictionary::new();
    let mut warnings: Vec<Warning> = Vec::new();
    let mut i: usize = lo;
    proof {
        assert(warnings_view(warnings@) + warnings_of(books@, lo as int, hi as int) =~= wtarget);
    }
    while i < hi
        invariant
            lo <= i <= hi,
            dict.wf(),
            insert_books(dict@, books@, i as int, hi as int) == target,
            forall|v: Seq<char>|
                #[trigger] word_count_in(dict@, v) + books_occ(books@, i as int, hi as int)
                    <= usize::MAX,
            warnings_view(warnings@) + warnings_of(books@, i as int, hi as int) == wtarget,
        decreases hi - i,
    {
        match &books[i] {
            BookSource::Text { lines } => {
                let ghost ldv = lines.deep_view();
                proof {
                    assert(book_lines(books@[i as int]) == ldv);
                    assert(ldv.skip(0) =~= ldv);
                }
                let m = lines.len();
                let mut j: usize = 0;
                while j < m
                    invariant
                        j <= m,
                        m == ldv.len(),
                        dict.wf(),
                        insert_books(
                            insert_lines(dict@, ldv.skip(j as int), i),
                            books@,
                            i as int + 1,
                            hi as int,
                        ) == target,
                        forall|v: Seq<char>|
                            #[trigger] word_count_in(dict@, v) + lines_occ(ldv.skip(j as int))
                                + books_occ(books@, i as int + 1, hi as int) <= usize::MAX,
                    decreases m - j,
                {
                    proof {
                        assert(ldv.skip(j as int)[0] == ldv[j as int]);
                        assert(ldv.skip(j as int).drop_first() =~= ldv.skip(j as int + 1));
                    }
                    match &lines[j] {
                        Some(line) => {
                            let words = split_to_words(line.as_str());
                            let ghost wdv = words.deep_view();
                            proof {
                                assert(ldv[j as int] == Some(line@));
                                assert(wdv == split_words(line@));
                                assert(wdv.skip(0) =~= wdv);
                                assert(insert_lines(dict@, ldv.skip(j as int), i) == insert_lines(
                                    insert_words(dict@, wdv, i),
                                    ldv.skip(j as int + 1),
                                    i,
                                ));
                            }
                            let n = words.len();
                            let mut k: usize = 0;
                            while k < n
                                invariant
                                    k <= n,
                                    n == wdv.len(),
                                    dict.wf(),
                                    insert_books(
                                        insert_lines(
                                            insert_words(dict@, wdv.skip(k as int), i),
                                            ldv.skip(j as int + 1),
                                            i,
                                        ),
                                        books@,
                                        i as int + 1,
                                        hi as int,
                                    ) == target,
                                    forall|v: Seq<char>|
                                        #[trigger] word_count_in(dict@, v) + (wdv.len() - k)
                                            + lines_occ(ldv.skip(j as int + 1)) + books_occ(
                                            books@,
                                            i as int + 1,
                                            hi as int,
                                        ) <= usize::MAX,
                                decreases n - k,
                            {
                                proof {
                                    assert(wdv.skip(k as int)[0] == wdv[k as int]);
                                    assert(wdv.skip(k as int).drop_first() =~= wdv.skip(
                                        k as int + 1,
                                    ));
                                    assert(word_count_in(dict@, wdv[k as int]) + 1
                                        <= usize::MAX);
                                }
                                let ghost before = dict@;
                                dict.insert(words[k].as_str(), i);
                                proof {
                                    assert(dict@ == insert_word(before, wdv[k as int], i));
                                    assert(insert_words(before, wdv.skip(k as int), i)
                                        == insert_words(dict@, wdv.skip(k as int + 1), i));
                                    assert forall|v: Seq<char>|
                                        #[trigger] word_count_in(dict@, v) + (wdv.len() - (k + 1))
                                            + lines_occ(ldv.skip(j as int + 1)) + books_occ(
                                            books@,
                                            i as int + 1,
                                            hi as int,
                                        ) <= usize::MAX by {
                                        if v == wdv[k as int] {
                                            assert(word_count_in(dict@, v) == word_count_in(
                                                before,
                                                v,
                                            ) + 1);
                                        } else {
                                            assert(word_count_in(dict@, v) == word_count_in(
                                                before,
                                                v,
                                            ));
                                        }
                                    }
                                }
                                k = k + 1;
                            }
                            proof {
                                assert(wdv.skip(n as int) =~= Seq::<Seq<char>>::empty());
                                assert(insert_words(dict@, wdv.skip(n as int), i) == dict@);
                            }
                        },
                        None => {
                            proof {
                                assert(ldv[j as int] is None);
                            }
                        },
                    }
                    j = j + 1;
                }
                proof {
                    assert(ldv.skip(m as int) =~= Seq::<Option<Seq<char>>>::empty());
                    assert(insert_lines(dict@, ldv.skip(m as int), i) == dict@);
                }
            },
            BookSource::Unreadable { reason } => {
                let ghost wbefore = warnings@;
                warnings.push(Warning { book_id: i, reason: reason.clone() });
                proof {
                    assert(book_lines(books@[i as int]) =~= Seq::<Option<Seq<char>>>::empty());
                    assert(insert_book(dict@, books@[i as int], i) == dict@);
                    assert(warnings_view(warnings@) =~= warnings_view(wbefore).push(
                        (i, reason@),
                    ));
                    assert(warnings_view(wbefore).push((i, reason@)) + warnings_of(
                        books@,
                        i as int + 1,
                        hi as int,
                    ) =~= warnings_view(wbefore) + (seq![(i, reason@)] + warnings_of(
                        books@,
                        i as int + 1,
                        hi as int,
                    )));
                }
            },
        }
        i = i + 1;
    }
    proof {
        assert(warnings_view(warnings@) + warnings_of(books@, hi as int, hi as int)
            =~= warnings_view(warnings@));
    }
    (dict, warnings)
}

/// Runs the whole pipeline over a file list: partitions the books into
/// near-equal contiguous chunks, one per worker, builds one partial
/// dictionary per chunk, merges the partial dictionaries, and removes the
/// words occurring at most once. The result does not depend on the worker
/// count; warnings record every unreadable book in index order.
#[verifier::loop_isolation(false)]
pub fn run_pipeline(books: &Vec<BookSource>, workers: usize) -> (r: (Dictionary, Vec<Warning>))
    requires
        workers >= 1,
        books_occ(books@, 0, books@.len() as int) <= usize::MAX,
    ensures
        r.0.wf(),
        r.0@ == filter_model(build_range(books@, 0, books@.len() as int)),
        warnings_view(r.1@) == warnings_of(books@, 0, books@.len() as int),
{
    let total = books.len();
    let chunks = partition(total, workers);
    let mut dict = Dictionary::new();
    let mut warnings: Vec<Warning> = Vec::new();
    let mut k: usize = 0;
    proof {
        assert(warnings_view(warnings@) =~= warnings_of(books@, 0, 0));
    }
    while k < chunks.len()
        invariant
            k <= chunks@.len(),
            dict.wf(),
            dict@ == build_range(
                books@,
                0,
                (if k == 0 {
                    0int
                } else {
                    chunks@[k as int - 1].end as int
                }),
            ),
            forall|v: Seq<char>|
                #[trigger] word_count_in(dict@, v) <= books_occ(
                    books@,
                    0,
                    (if k == 0 {
                        0int
                    } else {
                        chunks@[k as int - 1].end as int
                    }),
                ),
            warnings_view(warnings@) == warnings_of(
                books@,
                0,
                (if k == 0 {
                    0int
                } else {
                    chunks@[k as int - 1].end as int
                }),
            ),
        decreases chunks@.len() - k,
    {
        let ghost done: int = if k == 0 {
            0int
        } else {
            chunks@[k as int - 1].end as int
        };
        let c = chunks[k];
        proof {
            assert(c.start == done);
            assert(done <= c.end <= total);
            lemma_books_occ_split(books@, 0, done, c.end as int);
            lemma_books_occ_split(books@, 0, c.end as int, total as int);
        }
        let (part, mut w2) = process_books(books, c.start, c.end);
        proof {
            lemma_insert_books_bound(empty_dict(), books@, done, c.end as int);
            lemma_build_split(books@, 0, done, c.end as int);
            assert forall|w: Seq<char>|
                dict@.dom().contains(w) && part@.dom().contains(w) implies (#[trigger] dict@[
                w]).count + part@[w].count <= usize::MAX by {
                assert(word_count_in(dict@, w) <= books_occ(books@, 0, done));
                assert(word_count_in(part@, w) <= word_count_in(empty_dict(), w) + books_occ(
                    books@,
                    done,
                    c.end as int,
                ));
                assert(word_count_in(empty_dict(), w) == 0);
            }
        }
        dict.merge(&part);
        let ghost wbefore = warnings@;
        let ghost w2v = w2@;
        warnings.append(&mut w2);
        proof {
            lemma_warnings_split(books@, 0, done, c.end as int);
            assert(warnings_view(warnings@) =~= warnings_view(wbefore) + warnings_view(
                w2v,
            )) by {
                assert(warnings@ =~= wbefore + w2v);
            }
            lemma_insert_books_bound(empty_dict(), books@, 0, c.end as int);
            assert(dict@ == build_range(books@, 0, c.end as int));
            assert forall|v: Seq<char>| #[trigger] word_count_in(dict@, v) <= books_occ(
                books@,
                0,
                c.end as int,
            ) by {
                assert(word_count_in(build_range(books@, 0, c.end as int), v) <= word_count_in(
                    empty_dict(),
                    v,
                ) + books_occ(books@, 0, c.end as int));
                assert(word_count_in(empty_dict(), v) == 0);
            }
        }
        k = k + 1;
    }
    proof {
        if chunks@.len() == 0 {
            assert(total == 0);
        } else {
            assert(chunks@[chunks@.len() - 1].end == total);
        }
    }
    dict.remove_single_occurrences();
    (dict, warnings)
}

} // verus!
