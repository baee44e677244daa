use vstd::prelude::*;

verus! {

/// Whether a character counts as a letter for tokenization. Names the result
/// of `char::is_alphabetic` (the Unicode "Alphabetic" property), which depends
/// on the character alone.
pub uninterp spec fn is_letter(c: char) -> bool;

/// The lowercase form of a sequence of characters. Names the result of
/// `str::to_lowercase`, which depends on the characters alone.
pub uninterp spec fn lower_of(s: Seq<char>) -> Seq<char>;

/// Relies on `char::is_alphabetic`: true exactly for Unicode alphabetic
/// characters, a property of the character alone.
#[verifier::external_body]
fn char_is_alphabetic(c: char) -> (r: bool)
    ensures
        r == is_letter(c),
{
    c.is_alphabetic()
}

/// Relies on `str::to_lowercase`: the result depends on the input characters
/// alone, and an empty string lowercases to an empty string.
#[verifier::external_body]
fn lowercase(s: &str) -> (r: String)
    ensures
        r@ == lower_of(s@),
        s@.len() == 0 ==> r@.len() == 0,
{
    s.to_lowercase()
}

/// Scanning state after reading a whole text, left to right: the completed
/// maximal alphabetic runs, and the run still open at the end (empty if the
/// last character read was not a letter).
pub open spec fn scan_runs(t: Seq<char>) -> (Seq<Seq<char>>, Seq<char>)
    decreases t.len(),
{
    if t.len() == 0 {
        (Seq::empty(), Seq::empty())
    } else {
        let prev = scan_runs(t.drop_last());
        let c = t.last();
        if is_letter(c) {
            (prev.0, prev.1.push(c))
        } else if prev.1.len() > 0 {
            (prev.0.push(prev.1), Seq::empty())
        } else {
            (prev.0, Seq::empty())
        }
    }
}

/// The maximal alphabetic runs of a text, in order; a run still open at the
/// end of the text is closed at the text boundary.
pub open spec fn runs_of(t: Seq<char>) -> Seq<Seq<char>> {
    let p = scan_runs(t);
    if p.1.len() > 0 {
        p.0.push(p.1)
    } else {
        p.0
    }
}

/// The words of one line of text: its maximal alphabetic runs, each
/// case-folded to lowercase, in order of appearance.
pub open spec fn split_words(t: Seq<char>) -> Seq<Seq<char>> {
    runs_of(t).map_values(|w: Seq<char>| lower_of(w))
}

/// Splits a line into its lowercase alphabetic words: a maximal run of
/// alphabetic characters forms one word; every other character only
/// terminates the current run. Pure; the order of appearance is kept.
pub fn split_to_words(text: &str) -> (words: Vec<String>)
    ensures
        words.deep_view() == split_words(text@),
{
    let n = text.unicode_len();
    let mut words: Vec<String> = Vec::new();
    let mut i: usize = 0;
    let mut start: usize = 0;
    let mut in_run: bool = false;
    while i < n
        invariant
            n == text@.len(),
            i <= n,
            in_run <==> scan_runs(text@.take(i as int)).1.len() > 0,
            in_run ==> start < i && scan_runs(text@.take(i as int)).1 == text@.subrange(
                start as int,
                i as int,
            ),
            words.deep_view() == scan_runs(text@.take(i as int)).0.map_values(
                |w: Seq<char>| lower_of(w),
            ),
        decreases n - i,
    {
        let ghost prefix = text@.take(i as int);
        let ghost p = scan_runs(prefix);
        assert(text@.take(i + 1 as int).drop_last() =~= prefix);
        assert(text@.take(i + 1 as int).last() == text@[i as int]);
        let c = text.get_char(i);
        if char_is_alphabetic(c) {
            if !in_run {
                start = i;
                in_run = true;
            }
            proof {
                assert(scan_runs(text@.take(i + 1 as int)).1 =~= text@.subrange(
                    start as int,
                    i + 1 as int,
                ));
            }
        } else {
            if in_run {
                let raw = text.substring_char(start, i);
                let w = lowercase(raw);
                words.push(w);
                in_run = false;
                proof {
                    assert(scan_runs(text@.take(i + 1 as int)).0.map_values(
                        |w: Seq<char>| lower_of(w),
                    ) =~= p.0.map_values(|w: Seq<char>| lower_of(w)).push(lower_of(p.1)));
                    assert(words.deep_view() =~= p.0.map_values(|w: Seq<char>| lower_of(w)).push(
                        lower_of(p.1),
                    ));
                }
            }
        }
        i = i + 1;
    }
    assert(text@.take(n as int) =~= text@);
    if in_run {
        let raw = text.substring_char(start, n);
        let w = lowercase(raw);
        words.push(w);
        proof {
            let p = scan_runs(text@);
            assert(words.deep_view() =~= p.0.map_values(|w: Seq<char>| lower_of(w)).push(
                lower_of(p.1),
            ));
            assert(runs_of(text@).map_values(|w: Seq<char>| lower_of(w)) =~= p.0.map_values(
                |w: Seq<char>| lower_of(w),
            ).push(lower_of(p.1)));
        }
    }
    assert(words.deep_view() =~= split_words(text@));
    words
}

} // verus!
