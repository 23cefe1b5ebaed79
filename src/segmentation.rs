//! Extended grapheme clusters (UAX #29), the unit in which every width of
//! this crate is counted.
use unicode_segmentation::UnicodeSegmentation;
use vstd::prelude::*;

verus! {

/// The extended grapheme clusters of a text, in order.
pub uninterp spec fn grapheme_clusters(s: Seq<char>) -> Seq<Seq<char>>;

/// The characters of a sequence of string slices, concatenated.
pub open spec fn concat_strs(parts: Seq<&str>) -> Seq<char>
    decreases parts.len(),
{
    if parts.len() == 0 {
        Seq::empty()
    } else {
        concat_strs(parts.drop_last()) + parts.last()@
    }
}

/// The views of a sequence of string slices.
pub open spec fn str_views(parts: Seq<&str>) -> Seq<Seq<char>> {
    parts.map_values(|p: &str| p@)
}

/// The number of grapheme clusters in a text.
pub open spec fn grapheme_count(s: Seq<char>) -> nat {
    grapheme_clusters(s).len()
}

/// Relies on `UnicodeSegmentation::graphemes` (extended clusters): the
/// clusters of `s` in order; each is non-empty and together they make up `s`.
#[verifier::external_body]
pub(crate) fn graphemes<'a>(s: &'a str) -> (r: Vec<&'a str>)
    ensures
        str_views(r@) == grapheme_clusters(s@),
        concat_strs(r@) == s@,
        forall|i: int| 0 <= i < r@.len() ==> (#[trigger] r@[i])@.len() > 0,
{
    s.graphemes(true).collect()
}

/// Concatenation distributes over appending sequences of slices.
pub proof fn lemma_concat_strs_append(a: Seq<&str>, b: Seq<&str>)
    ensures
        concat_strs(a + b) == concat_strs(a) + concat_strs(b),
    decreases b.len(),
{
    if b.len() == 0 {
        assert(a + b =~= a);
        assert(concat_strs(b) =~= Seq::<char>::empty());
        assert(concat_strs(a) + concat_strs(b) =~= concat_strs(a));
    } else {
        lemma_concat_strs_append(a, b.drop_last());
        assert((a + b).drop_last() =~= a + b.drop_last());
        assert((a + b).last() == b.last());
        assert(concat_strs(a + b) =~= concat_strs(a) + concat_strs(b));
    }
}

/// Splitting a sequence of slices splits its concatenation at the length of
/// the first part.
pub proof fn lemma_concat_strs_split(parts: Seq<&str>, k: int)
    requires
        0 <= k <= parts.len(),
    ensures
        concat_strs(parts) == concat_strs(parts.take(k)) + concat_strs(parts.skip(k)),
        concat_strs(parts.take(k)).len() <= concat_strs(parts).len(),
{
    assert(parts =~= parts.take(k) + parts.skip(k));
    lemma_concat_strs_append(parts.take(k), parts.skip(k));
}

/// Counts the characters of the first `k` slices.
pub(crate) fn chars_in_first(parts: &Vec<&str>, k: usize, total: usize) -> (r: usize)
    requires
        k <= parts@.len(),
        concat_strs(parts@).len() == total,
    ensures
        r == concat_strs(parts@.take(k as int)).len(),
{
    let mut i: usize = 0;
    let mut n: usize = 0;
    while i < k
        invariant
            i <= k <= parts@.len(),
            concat_strs(parts@).len() == total,
            n == concat_strs(parts@.take(i as int)).len(),
        decreases k - i,
    {
        proof {
            assert(parts@.take(i + 1).drop_last() =~= parts@.take(i as int));
            lemma_concat_strs_split(parts@, i + 1);
        }
        let l = parts[i].unicode_len();
        n = n + l;
        i = i + 1;
    }
    n
}

} // verus!
