//! Wrapping of styled logical lines into physical lines of bounded width,
//! and of whole minus/plus and context blocks.
use crate::segmentation::{
    chars_in_first, concat_strs, grapheme_clusters, grapheme_count, graphemes,
    lemma_concat_strs_split, str_views,
};
use crate::minusplus::{MinusPlus, MinusPlusIndex};
use vstd::prelude::*;

verus! {

/// A styled line: its text is the concatenation of the segments' texts.
pub type LineSegments<'a, S> = Vec<(S, &'a str)>;

/// The symbols and limits that govern wrapping.
#[derive(Clone, Debug)]
pub struct WrapConfig {
    /// Placed at the end of a physical line that continues on the next one.
    pub left_symbol: String,
    /// Replaces `left_symbol` when the continuation is right-aligned.
    pub right_symbol: String,
    /// Placed before the content of a right-aligned continuation.
    pub right_prefix_symbol: String,
    /// Right-align a single continuation narrower than this, in parts per
    /// thousand of the available width.
    pub use_wrap_right_permille: usize,
    /// One more than the number of wrapped lines allowed; `0` is unlimited.
    pub max_lines: usize,
}

/// Grapheme count of a styled line.
pub open spec fn line_graphemes<S>(line: Seq<(S, &str)>) -> nat {
    line_clusters(line).len()
}

/// The style of inserted symbols: the hint style if there is one, else the
/// fill style.
pub open spec fn symbol_of<S>(fill: S, hint: Option<S>) -> S {
    match hint {
        Some(h) => h,
        None => fill,
    }
}

/// Does `row` end with a continuation symbol (`left`, or `right` where the
/// next line is right-aligned) in the style `sym`?
pub open spec fn continued<S>(row: Seq<(S, &str)>, sym: S, left: Seq<char>, right: Seq<char>) -> bool {
    row.len() > 0 && row.last().0 == sym && (row.last().1@ == left || row.last().1@ == right)
}

/// Does `row` end with one of the two continuation symbols?
pub open spec fn ends_with_continuation<S>(row: Seq<(S, &str)>, left: Seq<char>, right: Seq<char>) -> bool {
    row.len() > 0 && (row.last().1@ == left || row.last().1@ == right)
}

/// The number of physical lines that `wrap_line` may produce at most, where
/// `0` means no bound.
pub open spec fn line_cap(max_lines: usize, line_width: usize) -> nat {
    if line_width <= 1 {
        1
    } else {
        max_lines as nat
    }
}

/// A segment waiting to be placed, with its grapheme clusters.
struct Piece<'a, S> {
    style: S,
    text: &'a str,
    clusters: Vec<&'a str>,
}

impl<'a, S> Piece<'a, S> {
    spec fn wf(&self) -> bool {
        &&& concat_strs(self.clusters@) == self.text@
        &&& forall|i: int| 0 <= i < self.clusters@.len() ==> (#[trigger] self.clusters@[i])@.len() > 0
    }
}

/// Does the state have pieces left exactly when `left` says?
spec fn st_is<S>(st: WrapState<S>, left: bool) -> bool {
    (st.0.len() > 0) == left
}

/// The model's view of a piece.
spec fn piece_view<'a, S>(p: Piece<'a, S>) -> PieceView<S> {
    (p.style, p.text@, str_views(p.clusters@))
}

/// The model's view of a stack of pieces.
#[verifier::opaque]
spec fn stack_view<'a, S>(stack: Seq<Piece<'a, S>>) -> Seq<PieceView<S>> {
    stack.map_values(|p: Piece<'a, S>| piece_view(p))
}

proof fn lemma_seg_views_push<'a, S>(row: Seq<(S, &'a str)>, x: (S, &'a str))
    ensures
        seg_views(row.push(x)) == seg_views(row).push((x.0, x.1@)),
{
    reveal(seg_views);
    reveal(rows_view);
    reveal(stack_view);
    assert(seg_views(row.push(x)) =~= seg_views(row).push((x.0, x.1@)));
}

proof fn lemma_rows_view_push<'a, S>(rows: Seq<LineSegments<'a, S>>, r: LineSegments<'a, S>)
    ensures
        rows_view(rows.push(r)) == rows_view(rows).push(seg_views(r@)),
{
    reveal(seg_views);
    reveal(rows_view);
    reveal(stack_view);
    assert(rows_view(rows.push(r)) =~= rows_view(rows).push(seg_views(r@)));
}

proof fn lemma_stack_view_push<'a, S>(stack: Seq<Piece<'a, S>>, p: Piece<'a, S>)
    ensures
        stack_view(stack.push(p)) == stack_view(stack).push(piece_view(p)),
{
    reveal(seg_views);
    reveal(rows_view);
    reveal(stack_view);
    assert(stack_view(stack.push(p)) =~= stack_view(stack).push(piece_view(p)));
}

proof fn lemma_stack_view_pop<'a, S>(stack: Seq<Piece<'a, S>>)
    requires
        stack.len() > 0,
    ensures
        stack_view(stack.drop_last()) == stack_view(stack).drop_last(),
        stack_view(stack).last() == piece_view(stack.last()),
        stack_view(stack).len() == stack.len(),
{
    reveal(seg_views);
    reveal(rows_view);
    reveal(stack_view);
    assert(stack_view(stack.drop_last()) =~= stack_view(stack).drop_last());
}

/// Every piece of the stack is well formed.
#[verifier::opaque]
spec fn stack_ok<'a, S>(stack: Seq<Piece<'a, S>>) -> bool {
    forall|j: int| 0 <= j < stack.len() ==> (#[trigger] stack[j]).wf()
}

proof fn lemma_stack_ok_pop<'a, S>(stack: Seq<Piece<'a, S>>)
    requires
        stack_ok(stack),
        stack.len() > 0,
    ensures
        stack_ok(stack.drop_last()),
        stack.last().wf(),
{
    reveal(stack_ok);
    assert(stack.last() == stack[stack.len() - 1]);
    assert forall|j: int| 0 <= j < stack.drop_last().len() implies (#[trigger] stack.drop_last()[j]).wf() by {
        assert(stack.drop_last()[j] == stack[j]);
    }
}

proof fn lemma_stack_ok_push<'a, S>(stack: Seq<Piece<'a, S>>, p: Piece<'a, S>)
    requires
        stack_ok(stack),
        p.wf(),
    ensures
        stack_ok(stack.push(p)),
{
    reveal(stack_ok);
    assert forall|j: int| 0 <= j < stack.push(p).len() implies (#[trigger] stack.push(p)[j]).wf() by {
        if j < stack.len() {
            assert(stack.push(p)[j] == stack[j]);
        }
    }
}

/// The finished lines each end with the continuation symbol in `sym`.
#[verifier::opaque]
spec fn finished_ok<'a, S>(rows: Seq<LineSegments<'a, S>>, sym: S, left: &'a str) -> bool {
    forall|i: int| 0 <= i < rows.len() ==> (#[trigger] rows[i])@.len() > 0 && rows[i]@.last() == (sym, left)
}

proof fn lemma_finished_ok_push<'a, S>(rows: Seq<LineSegments<'a, S>>, r: LineSegments<'a, S>, sym: S, left: &'a str)
    requires
        finished_ok(rows, sym, left),
        r@.len() > 0,
        r@.last() == (sym, left),
    ensures
        finished_ok(rows.push(r), sym, left),
{
    reveal(finished_ok);
    assert forall|i: int| 0 <= i < rows.push(r).len() implies (#[trigger] rows.push(r)[i])@.len() > 0
        && rows.push(r)[i]@.last() == (sym, left) by {
        if i < rows.len() {
            assert(rows.push(r)[i] == rows[i]);
        }
    }
}

proof fn lemma_views_basic<'a, S>(
    rows: Seq<LineSegments<'a, S>>,
    row: Seq<(S, &'a str)>,
    stack: Seq<Piece<'a, S>>,
)
    ensures
        rows_view(rows).len() == rows.len(),
        seg_views(row).len() == row.len(),
        stack_view(stack).len() == stack.len(),
        rows.len() == 0 ==> rows_view(rows) == Seq::<Seq<SegView<S>>>::empty(),
        row.len() == 0 ==> seg_views(row) == Seq::<SegView<S>>::empty(),
        stack.len() == 0 ==> stack_view(stack) == Seq::<PieceView<S>>::empty(),
        forall|i: int| 0 <= i < rows.len() ==> #[trigger] rows_view(rows)[i] == seg_views(rows[i]@),
        forall|i: int| 0 <= i < stack.len() ==> #[trigger] stack_view(stack)[i] == piece_view(stack[i]),
{
    reveal(seg_views);
    reveal(rows_view);
    reveal(stack_view);
    if rows.len() == 0 {
        assert(rows_view(rows) =~= Seq::<Seq<SegView<S>>>::empty());
    }
    if row.len() == 0 {
        assert(seg_views(row) =~= Seq::<SegView<S>>::empty());
    }
    if stack.len() == 0 {
        assert(stack_view(stack) =~= Seq::<PieceView<S>>::empty());
    }
}

/// Graphemes still waiting on a stack of pieces.
spec fn pending<'a, S>(stack: Seq<Piece<'a, S>>) -> nat
    decreases stack.len(),
{
    if stack.len() == 0 {
        0
    } else {
        pending(stack.drop_last()) + stack.last().clusters@.len()
    }
}

/// A run of `n` spaces.
pub open spec fn spaces(n: nat) -> Seq<char> {
    Seq::new(n, |i: int| ' ')
}

/// The texts of a sequence of segments, concatenated.
pub open spec fn segments_text<S>(segs: Seq<(S, &str)>) -> Seq<char>
    decreases segs.len(),
{
    if segs.len() == 0 {
        Seq::empty()
    } else {
        segments_text(segs.drop_last()) + segs.last().1@
    }
}

/// Appends `n` spaces in `style`, as few segments as possible.
fn push_spaces<'a, S: Copy>(line: &mut LineSegments<'a, S>, n: usize, style: S)
    ensures
        final(line)@.len() >= old(line)@.len(),
        final(line)@.take(old(line)@.len() as int) == old(line)@,
        segments_text(final(line)@.skip(old(line)@.len() as int)) == spaces(n as nat),
        forall|i: int|
            old(line)@.len() <= i < final(line)@.len() ==> (#[trigger] final(line)@[i]).0 == style,
        seg_views(final(line)@) == seg_views(old(line)@) + space_chunks(n as int, style),
{
    proof {
        reveal(seg_views);
        reveal(rows_view);
    }
    let chunk: &'a str = "                                                                ";
    proof {
        reveal_strlit("                                                                ");
        assert(chunk@ =~= spaces(64));
    }
    let ghost start = line@.len() as int;
    let mut left: usize = n;
    while left > 0
        invariant
            line@.len() >= start,
            line@.take(start) == old(line)@,
            start == old(line)@.len(),
            chunk@ == spaces(64),
            segments_text(line@.skip(start)) + spaces(left as nat) == spaces(n as nat),
            forall|i: int| start <= i < line@.len() ==> (#[trigger] line@[i]).0 == style,
            seg_views(line@) + space_chunks(left as int, style) == seg_views(old(line)@) + space_chunks(
                n as int,
                style,
            ),
        decreases left,
    {
        let take: usize = if left < 64 { left } else { 64 };
        let part = chunk.substring_char(0, take);
        let ghost before = line@;
        line.push((style, part));
        proof {
            assert(line@.take(start) =~= before.take(start));
            assert(line@.skip(start).drop_last() =~= before.skip(start));
            assert(part@ =~= spaces(take as nat));
            assert(spaces(take as nat) + spaces((left - take) as nat) =~= spaces(left as nat));
            assert(segments_text(line@.skip(start)) == segments_text(before.skip(start)) + part@);
            lemma_seg_views_push(before, (style, part));
            if left <= 64 {
                assert(space_chunks(left as int, style) == seq![(style, spaces(left as nat))]);
                assert(space_chunks((left - take) as int, style) =~= Seq::<SegView<S>>::empty());
            } else {
                assert(space_chunks(left as int, style) == seq![(style, spaces(64))] + space_chunks(
                    left - 64,
                    style,
                ));
            }
            assert(seg_views(line@) + space_chunks((left - take) as int, style) =~= seg_views(before)
                + space_chunks(left as int, style));
        }
        left = left - take;
    }
    proof {
        assert(segments_text(line@.skip(start)) + spaces(0) =~= segments_text(line@.skip(start)));
        assert(seg_views(line@) + space_chunks(0, style) =~= seg_views(line@));
    }
}

/// Rebuild the continuation line `line` (whose first segment is the marker
/// column) so that its content stands at the right edge: the marker column,
/// `pad_len` spaces in `fill_style`, `right_prefix_symbol` in `symbol_style`,
/// then the content of `line` unchanged.
pub fn right_align_line<'a, S: Copy + Default>(
    line: &LineSegments<'a, S>,
    pad_len: usize,
    fill_style: S,
    symbol_style: S,
    right_prefix_symbol: &'a str,
    marker_style: S,
) -> (r: LineSegments<'a, S>)
    requires
        line@.len() >= 1,
    ensures
        seg_views(r@) == right_aligned(
            seg_views(line@),
            pad_len as int,
            fill_style,
            symbol_style,
            right_prefix_symbol@,
            marker_style,
        ),
        r@.len() >= line@.len() + 1,
        r@[0].1@ == seq!['_'],
        r@.skip(r@.len() - (line@.len() - 1)) == line@.skip(1),
        r@[r@.len() - line@.len()] == (symbol_style, right_prefix_symbol),
        segments_text(r@.subrange(1, r@.len() - line@.len())) == spaces(pad_len as nat),
        forall|i: int| 1 <= i < r@.len() - line@.len() ==> (#[trigger] r@[i]).0 == fill_style,
{
    proof {
        reveal(seg_views);
        reveal(rows_view);
    }
    let mut r: LineSegments<'a, S> = Vec::new();
    r.push((marker_style, "_"));
    proof {
        reveal_strlit("_");
    }
    let ghost r0 = r@;
    push_spaces(&mut r, pad_len, fill_style);
    let ghost pad_end = r@.len() as int;
    proof {
        assert(r@[0] == r@.take(1)[0]);
        assert(r@[0].1@ == seq!['_']);
    }
    let ghost r1 = r@;
    r.push((symbol_style, right_prefix_symbol));
    proof {
        assert(r@.subrange(1, pad_end) =~= r1.skip(1));
        assert(r@.skip(pad_end + 1) =~= line@.subrange(1, 1));
        assert(r@.take(pad_end) =~= r1);
        assert(seg_views(r0) =~= seq![(marker_style, seq!['_'])]);
    }
    let mut i: usize = 1;
    while i < line.len()
        invariant
            1 <= i <= line@.len(),
            r@.len() == pad_end + 1 + (i - 1),
            pad_end >= 1,
            r@[0].1@ == seq!['_'],
            r@[pad_end] == (symbol_style, right_prefix_symbol),
            r@.skip(pad_end + 1) == line@.subrange(1, i as int),
            r@.take(pad_end) == r1,
            segments_text(r@.subrange(1, pad_end)) == spaces(pad_len as nat),
            forall|j: int| 1 <= j < pad_end ==> (#[trigger] r@[j]).0 == fill_style,
        decreases line@.len() - i,
    {
        let ghost before = r@;
        r.push(line[i]);
        proof {
            assert(r@.subrange(1, pad_end) =~= before.subrange(1, pad_end));
            assert(r@.skip(pad_end + 1) =~= line@.subrange(1, i + 1));
            assert(r@.take(pad_end) =~= before.take(pad_end));
        }
        i = i + 1;
    }
    proof {
        assert(pad_end == r@.len() - line@.len());
        assert(line@.subrange(1, line@.len() as int) =~= line@.skip(1));
        assert(r@.skip(pad_end + 1) =~= r@.skip(r@.len() - (line@.len() - 1)));
        assert(segments_text(r@.subrange(1, pad_end)) == spaces(pad_len as nat));
        assert(r@ =~= r1 + seq![(symbol_style, right_prefix_symbol)] + line@.skip(1));
        assert(seg_views(r@) =~= seg_views(r1) + seq![(symbol_style, right_prefix_symbol@)] + seg_views(
            line@,
        ).skip(1));
    }
    r
}

/// Pushing a piece adds its clusters to what is pending.
proof fn lemma_pending_push<'a, S>(stack: Seq<Piece<'a, S>>, p: Piece<'a, S>)
    ensures
        pending(stack.push(p)) == pending(stack) + p.clusters@.len(),
{
    assert(stack.push(p).drop_last() =~= stack);
}

/// Is `s` exactly a line feed?
fn is_newline(s: &str) -> (r: bool)
    ensures
        r == (s@ == seq!['\n']),
{
    let n = s.unicode_len();
    if n != 1 {
        proof {
            if s@ == seq!['\n'] {
                assert(s@.len() == 1);
            }
        }
        false
    } else {
        let c = s.get_char(0);
        proof {
            if c == '\n' {
                assert(s@ =~= seq!['\n']);
            }
        }
        c == '\n'
    }
}

/// Does `s` end with a line feed?
fn ends_with_newline(s: &str) -> (r: bool)
    ensures
        r == (s@.len() > 0 && s@.last() == '\n'),
{
    let n = s.unicode_len();
    if n == 0 {
        false
    } else {
        s.get_char(n - 1) == '\n'
    }
}

/// The grapheme clusters of a styled line, segment after segment.
pub open spec fn line_clusters<S>(segs: Seq<(S, &str)>) -> Seq<Seq<char>>
    decreases segs.len(),
{
    if segs.len() == 0 {
        Seq::empty()
    } else {
        line_clusters(segs.drop_last()) + grapheme_clusters(segs.last().1@)
    }
}

/// The clusters waiting on a stack of pieces, in the order they are taken.
spec fn stack_views<'a, S>(stack: Seq<Piece<'a, S>>) -> Seq<Seq<char>>
    decreases stack.len(),
{
    if stack.len() == 0 {
        Seq::empty()
    } else {
        str_views(stack.last().clusters@) + stack_views(stack.drop_last())
    }
}

proof fn lemma_concat_strs_flatten(p: Seq<&str>)
    ensures
        concat_strs(p) == str_views(p).flatten(),
    decreases p.len(),
{
    broadcast use Seq::lemma_flatten_push;

    if p.len() == 0 {
        assert(str_views(p) =~= Seq::<Seq<char>>::empty());
    } else {
        lemma_concat_strs_flatten(p.drop_last());
        assert(str_views(p) =~= str_views(p.drop_last()).push(p.last()@));
    }
}


/// A segment of a styled line with the grapheme clusters of its text.
pub type ClusteredSegment<'a, S> = (S, &'a str, Vec<&'a str>);

/// Do the clusters given with each segment make up its text, none of them
/// empty?
pub open spec fn clusters_agree<'a, S>(segs: Seq<ClusteredSegment<'a, S>>) -> bool {
    forall|i: int|
        0 <= i < segs.len() ==> concat_strs((#[trigger] segs[i]).2@) == segs[i].1@ && forall|j: int|
            0 <= j < segs[i].2@.len() ==> (#[trigger] segs[i].2@[j])@.len() > 0
}

/// The clusters given with the segments, one segment after the other.
pub open spec fn given_clusters<'a, S>(segs: Seq<ClusteredSegment<'a, S>>) -> Seq<Seq<char>>
    decreases segs.len(),
{
    if segs.len() == 0 {
        Seq::empty()
    } else {
        given_clusters(segs.drop_last()) + str_views(segs.last().2@)
    }
}

/// A segment waiting to be placed, as the model of wrapping sees it: its
/// style, its text and its grapheme clusters.
pub type PieceView<S> = (S, Seq<char>, Seq<Seq<char>>);

/// A styled segment as the model sees it.
pub type SegView<S> = (S, Seq<char>);

/// The state of wrapping: the pieces still to be placed (the next one
/// last), the line being assembled, its length in graphemes, and the
/// finished lines.
pub type WrapState<S> = (Seq<PieceView<S>>, Seq<SegView<S>>, int, Seq<Seq<SegView<S>>>);

/// The view of a styled line.
#[verifier::opaque]
pub open spec fn seg_views<'a, S>(row: Seq<(S, &'a str)>) -> Seq<SegView<S>> {
    row.map_values(|x: (S, &'a str)| (x.0, x.1@))
}

/// The views of styled lines.
#[verifier::opaque]
pub open spec fn rows_view<'a, S>(rows: Seq<LineSegments<'a, S>>) -> Seq<Seq<SegView<S>>> {
    rows.map_values(|r: LineSegments<'a, S>| seg_views(r@))
}

/// The view of a line given with its clusters.
pub open spec fn pieces_view<'a, S>(line: Seq<ClusteredSegment<'a, S>>) -> Seq<PieceView<S>> {
    line.map_values(|x: ClusteredSegment<'a, S>| (x.0, x.1@, str_views(x.2@)))
}

/// The view of a styled line, each segment with its grapheme clusters.
pub open spec fn line_pieces<'a, S>(line: Seq<(S, &'a str)>) -> Seq<PieceView<S>> {
    line.map_values(|x: (S, &'a str)| (x.0, x.1@, grapheme_clusters(x.1@)))
}

/// Clusters still to be placed.
pub open spec fn pending_count<S>(stack: Seq<PieceView<S>>) -> nat
    decreases stack.len(),
{
    if stack.len() == 0 {
        0
    } else {
        pending_count(stack.drop_last()) + stack.last().2.len()
    }
}

/// Does wrapping go on from `st`: pieces are left, the line cap is not
/// reached, and more than the continuation symbol fits a line?
pub open spec fn wrap_continues<S>(st: WrapState<S>, max: int, cap: int) -> bool {
    &&& st.0.len() > 0
    &&& !(cap > 0 && st.3.len() + 1 >= cap)
    &&& max >= 3
    &&& 0 <= st.2 < max
}

/// One step of wrapping: take the next piece. It joins the line being
/// assembled if it fits (`max` graphemes, marker column included), or if it
/// fits exactly and is the last piece or only a line feed follows, or if it
/// is the last piece and only its final line feed overhangs. Otherwise the
/// line is filled up to one column short of `max` from the piece, ended with
/// `left` in `sym`, and a new line starts with the marker column `_` in
/// `marker`; the rest of the piece goes back.
#[verifier::opaque]
pub open spec fn wrap_step<S>(st: WrapState<S>, max: int, sym: S, left: Seq<char>, marker: S) -> WrapState<S> {
    let (stack, curr, len, rows) = st;
    let p = stack.last();
    let rest = stack.drop_last();
    let g = p.2.len() as int;
    let room = max - len;
    if g < room {
        (rest, curr.push((p.0, p.1)), len + g, rows)
    } else if g == room && rest.len() == 0 {
        (rest, curr.push((p.0, p.1)), max, rows)
    } else if g == room && rest.len() == 1 && rest[0].1 == seq!['\n'] {
        (Seq::empty(), curr.push((p.0, p.1)).push((rest[0].0, rest[0].1)), max, rows)
    } else if g == room + 1 && rest.len() == 0 && p.1.len() > 0 && p.1.last() == '\n' {
        (rest, curr.push((p.0, p.1)), max, rows)
    } else {
        let k = room - 1;
        let at = p.2.take(k).flatten().len() as int;
        let head = if k == 0 {
            curr
        } else {
            curr.push((p.0, p.1.take(at)))
        };
        let next = if k == 0 {
            p
        } else {
            (p.0, p.1.skip(at), p.2.skip(k))
        };
        (rest.push(next), seq![(marker, seq!['_'])], 1, rows.push(head.push((sym, left))))
    }
}

/// Wrapping steps until it stops.
#[verifier::opaque]
pub open spec fn wrap_loop<S>(
    st: WrapState<S>,
    max: int,
    cap: int,
    sym: S,
    left: Seq<char>,
    marker: S,
) -> WrapState<S>
    decreases (pending_count(st.0) + st.0.len()) * 2 + (if st.2 == 1 { 0int } else { 1int }),
    via wrap_loop_decreases::<S>
{
    if wrap_continues(st, max, cap) {
        wrap_loop(wrap_step(st, max, sym, left, marker), max, cap, sym, left, marker)
    } else {
        st
    }
}

#[via_fn]
proof fn wrap_loop_decreases<S>(
    st: WrapState<S>,
    max: int,
    cap: int,
    sym: S,
    left: Seq<char>,
    marker: S,
) {
    reveal(wrap_step);
    if wrap_continues(st, max, cap) {
        let stack = st.0;
        let p = stack.last();
        let rest = stack.drop_last();
        let g = p.2.len() as int;
        let room = max - st.2;
        assert(pending_count(stack) == pending_count(rest) + g);
        if g < room || (g == room && rest.len() == 0) || (g == room + 1 && rest.len() == 0 && p.1.len()
            > 0 && p.1.last() == '\n') {
        } else if g == room && rest.len() == 1 && rest[0].1 == seq!['\n'] {
        } else {
            let k = room - 1;
            let next = if k == 0 {
                p
            } else {
                (p.0, p.1.skip(p.2.take(k).flatten().len() as int), p.2.skip(k))
            };
            assert(rest.push(next).drop_last() =~= rest);
            assert(pending_count(rest.push(next)) == pending_count(rest) + next.2.len());
        }
    }
}

/// Wrapping goes on with one step, or stops where it is.
proof fn lemma_wrap_loop_unfold<S>(st: WrapState<S>, max: int, cap: int, sym: S, left: Seq<char>, marker: S)
    ensures
        wrap_continues(st, max, cap) ==> wrap_loop(st, max, cap, sym, left, marker) == wrap_loop(
            wrap_step(st, max, sym, left, marker),
            max,
            cap,
            sym,
            left,
            marker,
        ),
        !wrap_continues(st, max, cap) ==> wrap_loop(st, max, cap, sym, left, marker) == st,
{
    reveal(wrap_loop);
}

/// A step that takes the whole next piece into the line.
proof fn lemma_step_takes<S>(st: WrapState<S>, max: int, sym: S, left: Seq<char>, marker: S)
    requires
        st.0.len() > 0,
        ({
            let p = st.0.last();
            let g = p.2.len() as int;
            let room = max - st.2;
            g < room || (g == room && st.0.len() == 1) || (g == room + 1 && st.0.len() == 1
                && p.1.len() > 0 && p.1.last() == '\n')
        }),
    ensures
        wrap_step(st, max, sym, left, marker) == (
            st.0.drop_last(),
            st.1.push((st.0.last().0, st.0.last().1)),
            if st.0.last().2.len() < max - st.2 {
                st.2 + st.0.last().2.len()
            } else {
                max
            },
            st.3,
        ),
{
    reveal(wrap_step);
}

/// A step that takes the next piece and the line feed after it.
proof fn lemma_step_line_feed<S>(st: WrapState<S>, max: int, sym: S, left: Seq<char>, marker: S)
    requires
        st.0.len() == 2,
        st.0.last().2.len() == max - st.2,
        st.0[0].1 == seq!['\n'],
    ensures
        wrap_step(st, max, sym, left, marker) == (
            Seq::<PieceView<S>>::empty(),
            st.1.push((st.0.last().0, st.0.last().1)).push((st.0[0].0, st.0[0].1)),
            max,
            st.3,
        ),
{
    reveal(wrap_step);
    assert(st.0.drop_last()[0] == st.0[0]);
}

/// A step that ends the line.
proof fn lemma_step_splits<S>(st: WrapState<S>, max: int, sym: S, left: Seq<char>, marker: S)
    requires
        st.0.len() > 0,
        ({
            let p = st.0.last();
            let g = p.2.len() as int;
            let room = max - st.2;
            let rest = st.0.drop_last();
            !(g < room || (g == room && rest.len() == 0) || (g == room && rest.len() == 1 && rest[0].1
                == seq!['\n']) || (g == room + 1 && rest.len() == 0 && p.1.len() > 0 && p.1.last()
                == '\n'))
        }),
    ensures
        ({
            let p = st.0.last();
            let k = max - st.2 - 1;
            let at = p.2.take(k).flatten().len() as int;
            let head = if k == 0 {
                st.1
            } else {
                st.1.push((p.0, p.1.take(at)))
            };
            let next = if k == 0 {
                p
            } else {
                (p.0, p.1.skip(at), p.2.skip(k))
            };
            wrap_step(st, max, sym, left, marker) == (
                st.0.drop_last().push(next),
                seq![(marker, seq!['_'])],
                1int,
                st.3.push(head.push((sym, left))),
            )
        }),
{
    reveal(wrap_step);
}

/// Taking the whole next piece keeps where wrapping ends.
proof fn lemma_loop_takes<S>(
    vo: WrapState<S>,
    stack: Seq<PieceView<S>>,
    curr: Seq<SegView<S>>,
    len: int,
    rows: Seq<Seq<SegView<S>>>,
    max: int,
    cap: int,
    sym: S,
    left: Seq<char>,
    marker: S,
)
    requires
        wrap_continues(vo, max, cap),
        ({
            let p = vo.0.last();
            let g = p.2.len() as int;
            let room = max - vo.2;
            g < room || (g == room && vo.0.len() == 1) || (g == room + 1 && vo.0.len() == 1
                && p.1.len() > 0 && p.1.last() == '\n')
        }),
        stack == vo.0.drop_last(),
        curr == vo.1.push((vo.0.last().0, vo.0.last().1)),
        len == if vo.0.last().2.len() < max - vo.2 {
            vo.2 + vo.0.last().2.len()
        } else {
            max
        },
        rows == vo.3,
    ensures
        wrap_loop((stack, curr, len, rows), max, cap, sym, left, marker) == wrap_loop(
            vo,
            max,
            cap,
            sym,
            left,
            marker,
        ),
{
    lemma_wrap_loop_unfold(vo, max, cap, sym, left, marker);
    lemma_step_takes(vo, max, sym, left, marker);
}

/// Taking the next piece and the line feed after it keeps where wrapping
/// ends.
proof fn lemma_loop_line_feed<S>(
    vo: WrapState<S>,
    curr: Seq<SegView<S>>,
    len: int,
    rows: Seq<Seq<SegView<S>>>,
    max: int,
    cap: int,
    sym: S,
    left: Seq<char>,
    marker: S,
)
    requires
        wrap_continues(vo, max, cap),
        vo.0.len() == 2,
        vo.0.last().2.len() == max - vo.2,
        vo.0[0].1 == seq!['\n'],
        curr == vo.1.push((vo.0.last().0, vo.0.last().1)).push((vo.0[0].0, vo.0[0].1)),
        len == max,
        rows == vo.3,
    ensures
        wrap_loop((Seq::empty(), curr, len, rows), max, cap, sym, left, marker) == wrap_loop(
            vo,
            max,
            cap,
            sym,
            left,
            marker,
        ),
{
    lemma_wrap_loop_unfold(vo, max, cap, sym, left, marker);
    lemma_step_line_feed(vo, max, sym, left, marker);
}

/// Ending the line keeps where wrapping ends.
proof fn lemma_loop_splits<S>(
    vo: WrapState<S>,
    stack: Seq<PieceView<S>>,
    curr: Seq<SegView<S>>,
    rows: Seq<Seq<SegView<S>>>,
    max: int,
    cap: int,
    sym: S,
    left: Seq<char>,
    marker: S,
)
    requires
        wrap_continues(vo, max, cap),
        ({
            let p = vo.0.last();
            let g = p.2.len() as int;
            let room = max - vo.2;
            let rest = vo.0.drop_last();
            !(g < room || (g == room && rest.len() == 0) || (g == room && rest.len() == 1 && rest[0].1
                == seq!['\n']) || (g == room + 1 && rest.len() == 0 && p.1.len() > 0 && p.1.last()
                == '\n'))
        }),
        ({
            let p = vo.0.last();
            let k = max - vo.2 - 1;
            let at = p.2.take(k).flatten().len() as int;
            let head = if k == 0 {
                vo.1
            } else {
                vo.1.push((p.0, p.1.take(at)))
            };
            let next = if k == 0 {
                p
            } else {
                (p.0, p.1.skip(at), p.2.skip(k))
            };
            &&& stack == vo.0.drop_last().push(next)
            &&& rows == vo.3.push(head.push((sym, left)))
        }),
        curr == seq![(marker, seq!['_'])],
    ensures
        wrap_loop((stack, curr, 1, rows), max, cap, sym, left, marker) == wrap_loop(
            vo,
            max,
            cap,
            sym,
            left,
            marker,
        ),
{
    lemma_wrap_loop_unfold(vo, max, cap, sym, left, marker);
    lemma_step_splits(vo, max, sym, left, marker);
}

/// The measure that each step of wrapping lowers.
pub open spec fn wrap_measure<S>(st: WrapState<S>) -> int {
    (pending_count(st.0) + st.0.len()) * 2 + (if st.2 == 1 { 0int } else { 1int })
}

proof fn lemma_step_decreases<S>(st: WrapState<S>, max: int, cap: int, sym: S, left: Seq<char>, marker: S)
    requires
        wrap_continues(st, max, cap),
    ensures
        wrap_measure(wrap_step(st, max, sym, left, marker)) < wrap_measure(st),
        wrap_step(st, max, sym, left, marker).3.len() <= st.3.len() + 1,
{
    reveal(wrap_step);
    let stack = st.0;
    let p = stack.last();
    let rest = stack.drop_last();
    let g = p.2.len() as int;
    let room = max - st.2;
    assert(pending_count(stack) == pending_count(rest) + g);
    if g < room || (g == room && rest.len() == 0) || (g == room + 1 && rest.len() == 0 && p.1.len() > 0
        && p.1.last() == '\n') {
    } else if g == room && rest.len() == 1 && rest[0].1 == seq!['\n'] {
        assert(pending_count(rest) == pending_count(rest.drop_last()) + rest.last().2.len());
    } else {
        let k = room - 1;
        let next = if k == 0 {
            p
        } else {
            (p.0, p.1.skip(p.2.take(k).flatten().len() as int), p.2.skip(k))
        };
        assert(rest.push(next).drop_last() =~= rest);
        assert(pending_count(rest.push(next)) == pending_count(rest) + next.2.len());
    }
}

/// Wrapping stops with one line fewer than the cap at most.
proof fn lemma_loop_cap<S>(st: WrapState<S>, max: int, cap: int, sym: S, left: Seq<char>, marker: S)
    requires
        cap > 0,
        st.3.len() + 1 <= cap,
    ensures
        wrap_loop(st, max, cap, sym, left, marker).3.len() + 1 <= cap,
    decreases wrap_measure(st),
{
    lemma_wrap_loop_unfold(st, max, cap, sym, left, marker);
    if wrap_continues(st, max, cap) {
        lemma_step_decreases(st, max, cap, sym, left, marker);
        lemma_loop_cap(wrap_step(st, max, sym, left, marker), max, cap, sym, left, marker);
    }
}

/// Wrap-cap: the lines that wrapping gives are at most `max_lines` where that
/// is not 0, and one where no more than the continuation symbol fits a line
/// (`line_width <= 1`).
pub proof fn lemma_wrap_rows_cap<S>(
    line: Seq<PieceView<S>>,
    line_width: int,
    cfg: WrapConfig,
    fill: S,
    hint: Option<S>,
    marker: S,
)
    ensures
        line_width <= 1 ==> wrap_rows(line, line_width, cfg, fill, hint, marker).len() <= 1,
        cfg.max_lines > 0 ==> wrap_rows(line, line_width, cfg, fill, hint, marker).len()
            <= cfg.max_lines,
{
    let max = line_width + 1;
    let sym = match hint {
        Some(h) => h,
        None => fill,
    };
    let cap = if line_width <= 1 {
        1
    } else {
        cfg.max_lines as int
    };
    let init = (line.reverse(), Seq::<SegView<S>>::empty(), 0int, Seq::<Seq<SegView<S>>>::empty());
    if cap > 0 {
        lemma_loop_cap(init, max, cap, sym, cfg.left_symbol@, marker);
    }
    if line_width > 1 && cfg.max_lines == 0 {
    } else {
        assert(cap > 0);
    }
}

proof fn lemma_pending_count_append<S>(a: Seq<PieceView<S>>, b: Seq<PieceView<S>>)
    ensures
        pending_count(a + b) == pending_count(a) + pending_count(b),
    decreases b.len(),
{
    if b.len() == 0 {
        assert(a + b =~= a);
    } else {
        lemma_pending_count_append(a, b.drop_last());
        assert((a + b).drop_last() =~= a + b.drop_last());
    }
}

proof fn lemma_pending_count_reverse<S>(line: Seq<PieceView<S>>)
    ensures
        pending_count(line.reverse()) == pending_count(line),
    decreases line.len(),
{
    if line.len() > 0 {
        let pre = line.drop_last();
        lemma_pending_count_reverse(pre);
        assert(line.reverse() =~= seq![line.last()] + pre.reverse());
        lemma_pending_count_append(seq![line.last()], pre.reverse());
        assert(seq![line.last()].drop_last() =~= Seq::<PieceView<S>>::empty());
        assert(pending_count(Seq::<PieceView<S>>::empty()) == 0);
        assert(pending_count(seq![line.last()]) == line.last().2.len());
    }
}

/// Each step keeps the count of lines within what the clusters taken allow.
proof fn lemma_loop_ceiling<S>(
    st: WrapState<S>,
    max: int,
    cap: int,
    sym: S,
    left: Seq<char>,
    marker: S,
    total: int,
)
    requires
        max >= 3,
        0 <= st.2,
        st.3.len() > 0 ==> st.2 >= 1,
        pending_count(st.0) <= total,
        (max - 2) * st.3.len() + st.2 <= (total - pending_count(st.0)) + (if st.3.len() > 0 { 1int } else { 0int }),
    ensures
        ({
            let fin = wrap_loop(st, max, cap, sym, left, marker);
            (max - 2) * fin.3.len() <= total
        }),
    decreases wrap_measure(st),
{
    lemma_wrap_loop_unfold(st, max, cap, sym, left, marker);
    if wrap_continues(st, max, cap) {
        lemma_step_decreases(st, max, cap, sym, left, marker);
        let st2 = wrap_step(st, max, sym, left, marker);
        reveal(wrap_step);
        let stack = st.0;
        let p = stack.last();
        let rest = stack.drop_last();
        let g = p.2.len() as int;
        let room = max - st.2;
        let r = st.3.len() as int;
        assert(pending_count(stack) == pending_count(rest) + g);
        if g < room || (g == room && rest.len() == 0) || (g == room + 1 && rest.len() == 0 && p.1.len()
            > 0 && p.1.last() == '\n') {
        } else if g == room && rest.len() == 1 && rest[0].1 == seq!['\n'] {
            assert(pending_count(rest) == pending_count(rest.drop_last()) + rest.last().2.len());
        } else {
            let k = room - 1;
            let next = if k == 0 {
                p
            } else {
                (p.0, p.1.skip(p.2.take(k).flatten().len() as int), p.2.skip(k))
            };
            assert(rest.push(next).drop_last() =~= rest);
            assert(pending_count(rest.push(next)) == pending_count(rest) + next.2.len());
            assert(next.2.len() == g - k);
            assert((max - 2) * (r + 1) == (max - 2) * r + (max - 2)) by (nonlinear_arith);
        }
        lemma_loop_ceiling(st2, max, cap, sym, left, marker, total);
    } else {
        let r = st.3.len() as int;
        assert((max - 2) * r <= total) by (nonlinear_arith)
            requires
                (max - 2) * r + st.2 <= (total - pending_count(st.0)) + (if r > 0 { 1int } else { 0int }),
                r > 0 ==> st.2 >= 1,
                pending_count(st.0) >= 0,
                pending_count(st.0) <= total,
                r >= 0,
                max >= 3,
        ;
    }
}

/// Wrap-cap without a cap: where `max_lines` is 0, each line but the last
/// holds at least `line_width - 1` of the line's clusters, so there are at
/// most `ceil(clusters / (line_width - 1)) + 1` lines.
pub proof fn lemma_wrap_rows_ceiling<S>(
    line: Seq<PieceView<S>>,
    line_width: int,
    cfg: WrapConfig,
    fill: S,
    hint: Option<S>,
    marker: S,
)
    requires
        line_width >= 2,
    ensures
        ({
            let n = wrap_rows(line, line_width, cfg, fill, hint, marker).len() as int;
            n > 0 ==> (line_width - 1) * (n - 1) <= pending_count(line)
        }),
{
    let max = line_width + 1;
    let sym = match hint {
        Some(h) => h,
        None => fill,
    };
    let cap = cfg.max_lines as int;
    let init = (line.reverse(), Seq::<SegView<S>>::empty(), 0int, Seq::<Seq<SegView<S>>>::empty());
    lemma_pending_count_reverse(line);
    let total = pending_count(line) as int;
    assert((max - 2) * 0 == 0);
    lemma_loop_ceiling(init, max, cap, sym, cfg.left_symbol@, marker, total);
    let fin = wrap_loop(init, max, cap, sym, cfg.left_symbol@, marker);
    let n = wrap_rows(line, line_width, cfg, fill, hint, marker).len() as int;
    assert(n <= fin.3.len() + 1);
    if n > 0 {
        assert((line_width - 1) * (n - 1) <= (line_width - 1) * fin.3.len()) by (nonlinear_arith)
            requires
                n - 1 <= fin.3.len(),
                line_width >= 2,
                n >= 1,
        ;
    }
}

/// `n` spaces in `style`, in segments of at most 64.
pub open spec fn space_chunks<S>(n: int, style: S) -> Seq<SegView<S>>
    decreases n,
{
    if n <= 0 {
        Seq::empty()
    } else if n <= 64 {
        seq![(style, spaces(n as nat))]
    } else {
        seq![(style, spaces(64))] + space_chunks(n - 64, style)
    }
}

/// A continuation line set against the right edge: the marker column, `pad`
/// spaces in `fill`, `prefix` in `sym`, then the line's content.
pub open spec fn right_aligned<S>(
    curr: Seq<SegView<S>>,
    pad: int,
    fill: S,
    sym: S,
    prefix: Seq<char>,
    marker: S,
) -> Seq<SegView<S>> {
    seq![(marker, seq!['_'])] + space_chunks(pad, fill) + seq![(sym, prefix)] + curr.skip(1)
}

/// Is the single continuation line of `st` right-aligned: exactly one line
/// was finished, the continuation has content narrower than `permille`
/// thousandths of `max`, and two or more columns are left for padding?
pub open spec fn aligns_right<S>(st: WrapState<S>, max: int, permille: int) -> bool {
    &&& st.3.len() == 1
    &&& st.2 > 1
    &&& permille > ((st.2 - 1) * 1000) / max
    &&& max - st.2 > 1
}

/// The pieces left, as segments, in the order they are taken.
pub open spec fn leftover<S>(stack: Seq<PieceView<S>>) -> Seq<SegView<S>>
    decreases stack.len(),
{
    if stack.len() == 0 {
        Seq::empty()
    } else {
        seq![(stack.last().0, stack.last().1)] + leftover(stack.drop_last())
    }
}

/// The lines when wrapping stops in `st`: the single continuation
/// right-aligned where `aligns_right` (the first line then ends with the
/// right symbol), the line being assembled added if it has any grapheme,
/// and the pieces left appended, unwrapped, to the last line.
pub open spec fn wrap_finish<S>(st: WrapState<S>, max: int, cfg: WrapConfig, fill: S, sym: S, marker: S) -> Seq<
    Seq<SegView<S>>,
> {
    let rs = aligns_right(st, max, cfg.use_wrap_right_permille as int);
    let rows = if rs {
        seq![st.3[0].drop_last().push((st.3[0].last().0, cfg.right_symbol@))]
    } else {
        st.3
    };
    let curr = if rs {
        right_aligned(st.1, max - st.2, fill, sym, cfg.right_prefix_symbol@, marker)
    } else {
        st.1
    };
    let rows2 = if st.2 > 0 {
        rows.push(curr)
    } else {
        rows
    };
    if st.0.len() > 0 {
        if rows2.len() > 0 {
            rows2.drop_last().push(rows2.last() + leftover(st.0))
        } else {
            seq![leftover(st.0)]
        }
    } else {
        rows2
    }
}

/// The lines that `line` (its segments with their clusters) wraps into,
/// `line_width` columns wide; inserted symbols in `hint`, else `fill`;
/// continuation lines start with the marker column `_` in `marker`.
pub open spec fn wrap_rows<S>(
    line: Seq<PieceView<S>>,
    line_width: int,
    cfg: WrapConfig,
    fill: S,
    hint: Option<S>,
    marker: S,
) -> Seq<Seq<SegView<S>>> {
    let max = line_width + 1;
    let sym = match hint {
        Some(h) => h,
        None => fill,
    };
    let cap = if line_width <= 1 {
        1
    } else {
        cfg.max_lines as int
    };
    wrap_finish(
        wrap_loop((line.reverse(), Seq::empty(), 0, Seq::empty()), max, cap, sym, cfg.left_symbol@, marker),
        max,
        cfg,
        fill,
        sym,
        marker,
    )
}

/// Cut a piece after its first `k` clusters: the text of those clusters,
/// and the rest as a piece.
fn cut_piece<'a, S: Copy>(piece: Piece<'a, S>, k: usize) -> (r: (&'a str, Piece<'a, S>))
    requires
        piece.wf(),
        0 < k < piece.clusters@.len(),
    ensures
        ({
            let pv = piece_view(piece);
            let at = pv.2.take(k as int).flatten().len() as int;
            &&& r.0@ == pv.1.take(at)
            &&& r.0@ == pv.2.take(k as int).flatten()
            &&& piece_view(r.1) == (pv.0, pv.1.skip(at), pv.2.skip(k as int))
            &&& r.1.wf()
            &&& r.1.clusters@.len() == piece.clusters@.len() - k
        }),
{
    let n = piece.text.unicode_len();
    let at = chars_in_first(&piece.clusters, k, n);
    proof {
        lemma_concat_strs_split(piece.clusters@, k as int);
        lemma_concat_strs_flatten(piece.clusters@.take(k as int));
        assert(str_views(piece.clusters@.take(k as int)) =~= str_views(piece.clusters@).take(k as int));
    }
    let head = piece.text.substring_char(0, at);
    let ghost pc = piece.clusters@;
    let mut clusters = piece.clusters;
    let rest = clusters.split_off(k);
    let tail = Piece { style: piece.style, text: piece.text.substring_char(at, n), clusters: rest };
    proof {
        assert(rest@ =~= pc.skip(k as int));
        assert(concat_strs(pc) =~= concat_strs(pc.take(k as int)) + concat_strs(rest@));
        assert(tail.text@ =~= concat_strs(rest@));
        assert(str_views(rest@) =~= str_views(pc).skip(k as int));
        assert(head@ =~= piece.text@.take(at as int));
        assert(tail.text@ =~= piece.text@.skip(at as int));
        assert forall|i: int| 0 <= i < rest@.len() implies (#[trigger] rest@[i])@.len() > 0 by {
            assert(rest@[i] == pc[i + k]);
        }
    }
    (head, tail)
}

/// Wrap `line`, given as segments with the grapheme clusters of each, a
/// logical line that starts with a one-grapheme marker column, into
/// physical lines at most `line_width` graphemes wide (plus that marker
/// column): exactly the lines `wrap_rows` gives. Each line but the last ends
/// with a continuation symbol in the symbol style (`inline_hint_style`, else
/// `fill_style`); at most `max_lines` lines are produced (one where no more
/// than the continuation symbol would fit).
#[verifier::rlimit(100)]
#[verifier::spinoff_prover]
pub fn wrap_clustered_line<'a, S: Copy + Default>(
    wrap_config: &'a WrapConfig,
    line: Vec<ClusteredSegment<'a, S>>,
    line_width: usize,
    fill_style: &S,
    inline_hint_style: &Option<S>,
    marker_style: &S,
) -> (result: Vec<LineSegments<'a, S>>)
    requires
        line_width < usize::MAX,
        clusters_agree(line@),
    ensures
        rows_view(result@) == wrap_rows(
            pieces_view(line@),
            line_width as int,
            *wrap_config,
            *fill_style,
            *inline_hint_style,
            *marker_style,
        ),
        line@.len() == 0 ==> result@.len() == 0,
        given_clusters(line@).len() > 0 ==> result@.len() > 0,
        line_cap(wrap_config.max_lines, line_width) > 0 ==> result@.len() <= line_cap(
            wrap_config.max_lines,
            line_width,
        ),
        line_width >= 2 && result@.len() > 0 ==> (line_width - 1) * (result@.len() - 1)
            <= given_clusters(line@).len(),
        forall|i: int|
            0 <= i < result@.len() - 1 ==> continued(
                #[trigger] result@[i]@,
                symbol_of(*fill_style, *inline_hint_style),
                wrap_config.left_symbol@,
                wrap_config.right_symbol@,
            ),
{
    let max_len: usize = line_width + 1;
    let symbol_style = match inline_hint_style {
        Some(style) => *style,
        None => *fill_style,
    };
    let left_symbol: &'a str = wrap_config.left_symbol.as_str();
    let cap: usize = if line_width <= 1 {
        1
    } else {
        wrap_config.max_lines
    };

    // The segments still to be placed, the next one last.
    let ghost input = line@;
    let mut line = line;
    let mut stack: Vec<Piece<'a, S>> = Vec::new();
    proof {
        lemma_views_basic(Seq::<LineSegments<'a, S>>::empty(), Seq::<(S, &str)>::empty(), stack@);
        assert(pieces_view(input).skip(input.len() as int).reverse() =~= Seq::<PieceView<S>>::empty());
        assert(input.take(input.len() as int) =~= input);
        assert(stack_views(stack@) =~= Seq::<Seq<char>>::empty());
        assert(given_clusters(line@) + stack_views(stack@) =~= given_clusters(input));
        reveal(stack_ok);
    }
    while line.len() > 0
        invariant
            given_clusters(line@) + stack_views(stack@) == given_clusters(input),
            pending(stack@) == stack_views(stack@).len(),
            line@ == input.take(line@.len() as int),
            clusters_agree(input),
            stack@.len() + line@.len() == input.len(),
            stack_view(stack@) == pieces_view(input).skip(line@.len() as int).reverse(),
            stack_ok(stack@),
        decreases line@.len(),
    {
        let ghost before = line@;
        let (style, text, clusters) = line.pop().unwrap();
        let piece = Piece { style, text, clusters };
        proof {
            let n = before.len() - 1;
            assert(before[n] == input[n]);
            assert(concat_strs(input[n].2@) == input[n].1@);
            assert(forall|j: int|
                0 <= j < input[n].2@.len() ==> (#[trigger] input[n].2@[j])@.len() > 0);
            assert(piece.wf());
            lemma_pending_push(stack@, piece);
            assert(stack@.push(piece).drop_last() =~= stack@);
            assert(stack_views(stack@.push(piece)) == str_views(clusters@) + stack_views(stack@));
            assert(before.drop_last() == line@);
            assert(line@ =~= input.take(line@.len() as int));
            assert(given_clusters(line@) + stack_views(stack@.push(piece)) =~= given_clusters(input));
        }
        let ghost prev = stack@;
        stack.push(piece);
        proof {
            let m = line@.len() as int;
            assert(pieces_view(input)[m] == piece_view(piece));
            assert(pieces_view(input).skip(m).reverse() =~= pieces_view(input).skip(m + 1).reverse().push(
                piece_view(piece),
            ));
            lemma_stack_view_push(prev, piece);
            lemma_stack_ok_push(prev, piece);
        }
    }
    let ghost init = (stack_view(stack@), Seq::<SegView<S>>::empty(), 0int, Seq::<Seq<SegView<S>>>::empty());
    proof {
        assert(pieces_view(input).skip(0) =~= pieces_view(input));
        assert(line@ =~= Seq::<ClusteredSegment<'a, S>>::empty());
        assert(given_clusters(line@) =~= Seq::<Seq<char>>::empty());
        assert(stack_views(stack@) =~= given_clusters(input));
        assert((line_width - 1) * 0 == 0);
    }
    let ghost fin = wrap_loop(
        init,
        (line_width + 1) as int,
        line_cap(wrap_config.max_lines, line_width) as int,
        symbol_style,
        wrap_config.left_symbol@,
        *marker_style,
    );
    let ghost total = given_clusters(input).len();

    let mut result: Vec<LineSegments<'a, S>> = Vec::new();
    // The line being assembled; its first grapheme is the marker column.
    let mut curr: LineSegments<'a, S> = Vec::new();
    let mut curr_len: usize = 0;
    proof {
        lemma_views_basic(result@, curr@, stack@);
        reveal(finished_ok);
    }

    while stack.len() > 0 && !(cap > 0 && result.len() + 1 >= cap) && max_len > 1
        invariant
            max_len == line_width + 1,
            cap == line_cap(wrap_config.max_lines, line_width),
            left_symbol@ == wrap_config.left_symbol@,
            curr_len < max_len || stack@.len() == 0,
            curr_len <= max_len,
            curr_len == 0 ==> result@.len() == 0,
            curr_len > 0 ==> curr@.len() > 0,
            input.len() == 0 ==> stack@.len() == 0 && curr_len == 0 && result@.len() == 0,
            cap > 0 ==> result@.len() + 1 <= cap || (stack@.len() == 0 && result@.len() == 0),
            stack_ok(stack@),
            pending(stack@) <= total,
            pending(stack@) < total ==> result@.len() > 0 || curr_len > 0,
            result@.len() > 0 ==> line_width >= 2,
            (line_width - 1) * result@.len() + curr_len <= (total - pending(stack@)) + (if result@.len() > 0 { 1int } else { 0int }),
            finished_ok(result@, symbol_style, left_symbol),
            wrap_loop(
                (stack_view(stack@), seg_views(curr@), curr_len as int, rows_view(result@)),
                max_len as int,
                cap as int,
                symbol_style,
                wrap_config.left_symbol@,
                *marker_style,
            ) == fin,
        decreases (pending(stack@) + stack@.len()) * 2 + (if curr_len == 1 { 0int } else { 1int }),
    {
        assert(line_width >= 2);
        let ghost old_stack = stack@;
        let ghost old_rlen = result@.len();
        let ghost vo = (stack_view(stack@), seg_views(curr@), curr_len as int, rows_view(result@));
        let ghost curr_in = curr@;
        let piece = stack.pop().unwrap();
        proof {
            assert(old_stack.drop_last() == stack@);
            assert(pending(old_stack) == pending(stack@) + piece.clusters@.len());
            assert(old_stack[old_stack.len() - 1] == piece);
            lemma_stack_ok_pop(old_stack);
            lemma_stack_view_pop(old_stack);
            lemma_views_basic(result@, curr@, stack@);
            assert(wrap_continues(vo, max_len as int, cap as int));
        }
        let g = piece.clusters.len();
        let room: usize = max_len - curr_len;
        let mut must_split = false;
        if g < room {
            curr.push((piece.style, piece.text));
            curr_len = curr_len + g;
            proof {
                lemma_seg_views_push(curr_in, (piece.style, piece.text));
                lemma_loop_takes(vo, stack_view(stack@), seg_views(curr@), curr_len as int, rows_view(result@), max_len as int, cap as int, symbol_style, wrap_config.left_symbol@, *marker_style);
            }
        } else if g == room {
            if stack.len() == 0 {
                curr.push((piece.style, piece.text));
                curr_len = max_len;
                proof {
                    lemma_seg_views_push(curr_in, (piece.style, piece.text));
                    lemma_loop_takes(vo, stack_view(stack@), seg_views(curr@), curr_len as int, rows_view(result@), max_len as int, cap as int, symbol_style, wrap_config.left_symbol@, *marker_style);
                }
            } else if stack.len() == 1 && is_newline(stack[0].text) {
                let ghost st1 = stack@;
                let nl = stack.pop().unwrap();
                proof {
                    assert(st1.last() == nl);
                    lemma_stack_ok_pop(st1);
                    lemma_stack_view_pop(st1);
                    lemma_views_basic(result@, curr@, st1);
                    assert(vo.0.drop_last()[0] == piece_view(nl));
                }
                let ghost curr1 = curr@.push((piece.style, piece.text));
                curr.push((piece.style, piece.text));
                curr.push((nl.style, nl.text));
                curr_len = max_len;
                proof {
                    assert(stack@.len() == 0);
                    lemma_seg_views_push(curr_in, (piece.style, piece.text));
                    lemma_seg_views_push(curr1, (nl.style, nl.text));
                    lemma_views_basic(result@, curr@, stack@);
                    lemma_loop_line_feed(vo, seg_views(curr@), curr_len as int, rows_view(result@), max_len as int, cap as int, symbol_style, wrap_config.left_symbol@, *marker_style);
                }
            } else {
                must_split = true;
            }
        } else if g == room + 1 && stack.len() == 0 && ends_with_newline(piece.text) {
            curr.push((piece.style, piece.text));
            curr_len = max_len;
            proof {
                lemma_seg_views_push(curr_in, (piece.style, piece.text));
                lemma_loop_takes(vo, stack_view(stack@), seg_views(curr@), curr_len as int, rows_view(result@), max_len as int, cap as int, symbol_style, wrap_config.left_symbol@, *marker_style);
            }
        } else {
            must_split = true;
        }
        if must_split {
            proof {
                if stack@.len() > 0 {
                    assert(vo.0.drop_last()[0] == piece_view(stack@[0]));
                }
            }
            let split = room - 1;
            let next = if split == 0 {
                piece
            } else {
                let pstyle = piece.style;
                let (head, tail) = cut_piece(piece, split);
                curr.push((pstyle, head));
                proof {
                    lemma_seg_views_push(curr_in, (pstyle, head));
                }
                tail
            };
            let ghost before = stack@;
            proof {
                let p = vo.0.last();
                let k = split as int;
                let at = p.2.take(k).flatten().len() as int;
                assert(piece_view(next) == if k == 0 {
                    p
                } else {
                    (p.0, p.1.skip(at), p.2.skip(k))
                });
                assert(seg_views(curr@) == if k == 0 {
                    vo.1
                } else {
                    vo.1.push((p.0, p.1.take(at)))
                });
            }
            stack.push(next);
            proof {
                lemma_pending_push(before, next);
                lemma_stack_ok_push(before, next);
                lemma_stack_view_push(before, next);
            }
            let ghost body = curr@;
            curr.push((symbol_style, left_symbol));
            let finished = curr;
            let ghost prev = result@;
            result.push(finished);
            curr = Vec::new();
            curr.push((*marker_style, "_"));
            curr_len = 1;
            proof {
                lemma_seg_views_push(body, (symbol_style, left_symbol));
                lemma_rows_view_push(prev, result@.last());
                assert(prev.push(result@.last()) == result@);
                reveal_strlit("_");
                lemma_seg_views_push(Seq::<(S, &str)>::empty(), (*marker_style, "_"));
                assert(Seq::<(S, &str)>::empty().push((*marker_style, "_")) == curr@);
                lemma_views_basic(result@, Seq::<(S, &str)>::empty(), stack@);
                assert("_"@ == seq!['_']);
                assert(seg_views(Seq::<(S, &str)>::empty()).push((*marker_style, "_"@)) =~= seq![
                    (*marker_style, seq!['_']),
                ]);
                assert(seg_views(curr@) == seq![(*marker_style, seq!['_'])]);
                assert((line_width - 1) * result@.len() == (line_width - 1) * old_rlen + (line_width - 1)) by (nonlinear_arith)
                    requires
                        result@.len() == old_rlen + 1,
                ;
                lemma_finished_ok_push(prev, result@.last(), symbol_style, left_symbol);
                lemma_loop_splits(vo, stack_view(stack@), seg_views(curr@), rows_view(result@), max_len as int, cap as int, symbol_style, wrap_config.left_symbol@, *marker_style);
            }
        }
    }
    let ghost vx = (stack_view(stack@), seg_views(curr@), curr_len as int, rows_view(result@));
    let ghost rows = result@.len() as int;
    proof {
        lemma_views_basic(result@, curr@, stack@);
        assert(!wrap_continues(vx, max_len as int, cap as int));
        lemma_wrap_loop_unfold(vx, max_len as int, cap as int, symbol_style, wrap_config.left_symbol@, *marker_style);
        assert(vx == fin);
        reveal(finished_ok);
        lemma_views_basic(result@, curr@, stack@);
    }

    let ghost rs = aligns_right(vx, max_len as int, wrap_config.use_wrap_right_permille as int);
    if result.len() == 1 && curr_len > 1 {
        let text_len: usize = curr_len - 1;
        let permille: u128 = (text_len as u128 * 1000) / (max_len as u128);
        let pad_len: usize = if text_len + 1 <= max_len {
            max_len - (text_len + 1)
        } else {
            0
        };
        if (wrap_config.use_wrap_right_permille as u128) > permille && pad_len > 1 {
            let right_symbol: &'a str = wrap_config.right_symbol.as_str();
            let ghost prev = result@;
            let mut first = result.pop().unwrap();
            let ghost first0 = first@;
            let last = first.pop().unwrap();
            first.push((last.0, right_symbol));
            result.push(first);
            curr = right_align_line(
                &curr,
                pad_len,
                *fill_style,
                symbol_style,
                wrap_config.right_prefix_symbol.as_str(),
                *marker_style,
            );
            proof {
                reveal(seg_views);
                reveal(rows_view);
                assert(rs);
                assert(first0 == prev[0]@);
                assert(first0.last() == (symbol_style, left_symbol));
                assert(seg_views(first@) =~= vx.3[0].drop_last().push((vx.3[0].last().0, wrap_config.right_symbol@)));
                assert(rows_view(result@) =~= seq![seg_views(first@)]);
            }
        }
    }
    let ghost rows_v = if rs {
        seq![vx.3[0].drop_last().push((vx.3[0].last().0, wrap_config.right_symbol@))]
    } else {
        vx.3
    };
    let ghost curr_v = if rs {
        right_aligned(vx.1, max_len - vx.2, *fill_style, symbol_style, wrap_config.right_prefix_symbol@, *marker_style)
    } else {
        vx.1
    };
    proof {
        assert(rows_view(result@) == rows_v);
        assert(seg_views(curr@) == curr_v);
    }
    // Each line so far but the last ends with a continuation symbol.
    let ghost kept = result@;
    proof {
        reveal(rows_view);
        reveal(seg_views);
        assert forall|i: int| 0 <= i < kept.len() implies continued(
            #[trigger] kept[i]@,
            symbol_style,
            wrap_config.left_symbol@,
            wrap_config.right_symbol@,
        ) by {
            if rs {
                assert(kept[0]@.last().0 == symbol_style && kept[0]@.last().1@ == wrap_config.right_symbol@);
            }
        }
    }

    if curr_len > 0 {
        result.push(curr);
    }
    let ghost n_after_curr = result@.len();
    let ghost rows2 = if vx.2 > 0 { rows_v.push(curr_v) } else { rows_v };
    proof {
        reveal(rows_view);
        assert(rows_view(result@) =~= rows2);
    }
    let ghost had_left = stack@.len() > 0;
    if stack.len() > 0 {
        let mut last: LineSegments<'a, S> = if result.len() > 0 {
            result.pop().unwrap()
        } else {
            Vec::new()
        };
        let ghost st0 = stack_view(stack@);
        let ghost l_init = seg_views(last@);
        proof {
            reveal(rows_view);
            reveal(seg_views);
            if rows2.len() > 0 {
                assert(l_init == rows2.last());
                assert(rows_view(result@) =~= rows2.drop_last());
            } else {
                assert(l_init =~= Seq::<SegView<S>>::empty());
            }
        }
        while stack.len() > 0
            invariant
                seg_views(last@) + leftover(stack_view(stack@)) == l_init + leftover(st0),
                result@ == if n_after_curr > 0 { kept } else { kept },
            decreases stack@.len(),
        {
            let ghost st = stack@;
            let ghost l0 = last@;
            let piece = stack.pop().unwrap();
            last.push((piece.style, piece.text));
            proof {
                lemma_stack_view_pop(st);
                assert(st.last() == piece);
                lemma_seg_views_push(l0, (piece.style, piece.text));
                assert(leftover(stack_view(st)) == seq![(piece.style, piece.text@)] + leftover(stack_view(stack@)));
                assert(seg_views(last@) + leftover(stack_view(stack@)) =~= seg_views(l0) + leftover(stack_view(st)));
            }
        }
        proof {
            lemma_views_basic(result@, last@, stack@);
            assert(leftover(stack_view(stack@)) =~= Seq::<SegView<S>>::empty());
            assert(seg_views(last@) =~= l_init + leftover(st0));
        }
        let ghost before_last = result@;
        result.push(last);
        proof {
            lemma_rows_view_push(before_last, last);
            if rows2.len() > 0 {
                assert(rows_view(result@) =~= rows2.drop_last().push(rows2.last() + leftover(st0)));
            } else {
                assert(rows_view(result@) =~= seq![leftover(st0)]);
            }
        }
    }
    proof {
        assert(st_is(vx, had_left));
        assert(rows_view(result@) == wrap_finish(
            vx,
            max_len as int,
            *wrap_config,
            *fill_style,
            symbol_style,
            *marker_style,
        ));
        assert(pieces_view(input).reverse() == init.0);
        lemma_views_basic(result@, curr@, stack@);
    }
    result
}

/// What wrapping `line` into `rows`, `line_width` columns wide, promises
/// in general, with `c` the line's grapheme clusters: no rows for no
/// segments, and some rows for some clusters; at most `line_cap` rows, and
/// at most one per `line_width - 1` clusters beyond the first row; each row
/// but the last ends with a continuation symbol. (`wrap_rows` says exactly
/// which rows.)
pub open spec fn wraps_as<'a, S>(
    rows: Seq<LineSegments<'a, S>>,
    line: Seq<(S, &'a str)>,
    line_width: usize,
    cfg: WrapConfig,
) -> bool {
    let c = line_clusters(line);
    let n = rows.len() as int;
    let m = line_width + 1;
    &&& line.len() == 0 ==> n == 0
    &&& c.len() > 0 ==> n > 0
    &&& line_cap(cfg.max_lines, line_width) > 0 ==> n <= line_cap(cfg.max_lines, line_width)
    &&& line_width >= 2 && n > 0 ==> (line_width - 1) * (n - 1) <= c.len()
    &&& forall|i: int|
        0 <= i < n - 1 ==> ends_with_continuation(
            #[trigger] rows[i]@,
            cfg.left_symbol@,
            cfg.right_symbol@,
        )

}

/// `wrap_line` with the style of the marker column given.
fn wrap_line_marked<'a, S: Copy + Default>(
    wrap_config: &'a WrapConfig,
    line: &LineSegments<'a, S>,
    line_width: usize,
    fill_style: &S,
    inline_hint_style: &Option<S>,
    marker_style: &S,
) -> (result: Vec<LineSegments<'a, S>>)
    requires
        line_width < usize::MAX,
    ensures
        wraps_as(result@, line@, line_width, *wrap_config),
        forall|i: int|
            0 <= i < result@.len() - 1 ==> continued(
                #[trigger] result@[i]@,
                symbol_of(*fill_style, *inline_hint_style),
                wrap_config.left_symbol@,
                wrap_config.right_symbol@,
            ),
        rows_view(result@) == wrap_rows(
            line_pieces(line@),
            line_width as int,
            *wrap_config,
            *fill_style,
            *inline_hint_style,
            *marker_style,
        ),
{
    proof {
        reveal(seg_views);
        reveal(rows_view);
    }
    let mut segs: Vec<ClusteredSegment<'a, S>> = Vec::new();
    let mut i: usize = 0;
    while i < line.len()
        invariant
            i <= line@.len(),
            segs@.len() == i,
            clusters_agree(segs@),
            given_clusters(segs@) == line_clusters(line@.take(i as int)),
            pieces_view(segs@) == line_pieces(line@.take(i as int)),
        decreases line@.len() - i,
    {
        let (style, text) = line[i];
        let clusters = graphemes(text);
        let ghost prev = segs@;
        segs.push((style, text, clusters));
        proof {
            assert(segs@.drop_last() == prev);
            assert(line@.take(i + 1).drop_last() =~= line@.take(i as int));
            assert(line@.take(i + 1).last() == line@[i as int]);
            assert(pieces_view(segs@) =~= pieces_view(prev).push((style, text@, str_views(clusters@))));
            assert(line_pieces(line@.take(i + 1)) =~= line_pieces(line@.take(i as int)).push(
                (style, text@, grapheme_clusters(text@)),
            ));
            assert(pieces_view(segs@) =~= line_pieces(line@.take(i + 1)));
            assert forall|j: int| 0 <= j < segs@.len() implies concat_strs((#[trigger] segs@[j]).2@)
                == segs@[j].1@ && forall|t: int|
                0 <= t < segs@[j].2@.len() ==> (#[trigger] segs@[j].2@[t])@.len() > 0 by {
                if j < prev.len() {
                    assert(segs@[j] == prev[j]);
                }
            }
        }
        i = i + 1;
    }
    proof {
        assert(line@.take(line@.len() as int) =~= line@);
    }
    wrap_clustered_line(wrap_config, segs, line_width, fill_style, inline_hint_style, marker_style)
}

/// Wrap `line`, a logical line that starts with a one-grapheme marker column,
/// into physical lines at most `line_width` graphemes wide (plus that marker
/// column), counting in extended grapheme clusters. The lines are
/// `wrap_rows` of the line's segments and their clusters, continuation lines
/// starting with the marker column `_` in the style `S::default()` gives.
pub fn wrap_line<'a, S: Copy + Default>(
    wrap_config: &'a WrapConfig,
    line: &LineSegments<'a, S>,
    line_width: usize,
    fill_style: &S,
    inline_hint_style: &Option<S>,
) -> (result: Vec<LineSegments<'a, S>>)
    requires
        line_width < usize::MAX,
    ensures
        wraps_as(result@, line@, line_width, *wrap_config),
        forall|i: int|
            0 <= i < result@.len() - 1 ==> continued(
                #[trigger] result@[i]@,
                symbol_of(*fill_style, *inline_hint_style),
                wrap_config.left_symbol@,
                wrap_config.right_symbol@,
            ),
        exists|marker: S|
            rows_view(result@) == #[trigger] wrap_rows(
                line_pieces(line@),
                line_width as int,
                *wrap_config,
                *fill_style,
                *inline_hint_style,
                marker,
            ),
{
    let marker = S::default();
    wrap_line_marked(wrap_config, line, line_width, fill_style, inline_hint_style, &marker)
}

/// What a rendered row stands for.
#[derive(Clone, Copy, Debug, PartialEq, Eq, Structural)]
pub enum State {
    /// A context line, shown in both panels.
    HunkZero,
    /// A continuation row of a wrapped context line.
    HunkZeroWrapped,
    /// A removed line.
    HunkMinus,
    /// A continuation row of a wrapped removed line.
    HunkMinusWrapped,
    /// An added line.
    HunkPlus,
    /// A continuation row of a wrapped added line.
    HunkPlusWrapped,
}

/// One row of an alignment: the minus line and the plus line shown on it.
pub type AlignedPair = (Option<usize>, Option<usize>);

/// Number of entries with a minus line.
pub open spec fn minus_count(al: Seq<AlignedPair>) -> nat
    decreases al.len(),
{
    if al.len() == 0 {
        0
    } else {
        minus_count(al.drop_last()) + if al.last().0 is Some { 1nat } else { 0nat }
    }
}

/// Number of entries with a plus line.
pub open spec fn plus_count(al: Seq<AlignedPair>) -> nat
    decreases al.len(),
{
    if al.len() == 0 {
        0
    } else {
        plus_count(al.drop_last()) + if al.last().1 is Some { 1nat } else { 0nat }
    }
}

/// An alignment of `n_minus` minus lines with `n_plus` plus lines: every
/// entry names at least one line, and each side's lines come in order,
/// each exactly once.
#[verifier::opaque]
pub open spec fn valid_alignment(al: Seq<AlignedPair>, n_minus: nat, n_plus: nat) -> bool {
    &&& minus_count(al) == n_minus
    &&& plus_count(al) == n_plus
    &&& forall|k: int|
        0 <= k < al.len() ==> {
            &&& (#[trigger] al[k]).0 is Some || al[k].1 is Some
            &&& al[k].0 is Some ==> al[k].0->0 == minus_count(al.take(k))
            &&& al[k].1 is Some ==> al[k].1->0 == plus_count(al.take(k))
        }
}

/// Index of the first physical row of logical line `i`, where logical line
/// `j` takes `rows[j]` physical rows.
pub open spec fn row_start(rows: Seq<usize>, i: int) -> int
    decreases i,
{
    if i <= 0 {
        0
    } else {
        row_start(rows, i - 1) + rows[i - 1]
    }
}

/// Physical rows taken by the line `ix` names, none if it names none.
pub open spec fn entry_rows(ix: Option<usize>, rows: Seq<usize>) -> int {
    match ix {
        Some(i) => rows[i as int] as int,
        None => 0,
    }
}

/// First physical row of the line `ix` names.
pub open spec fn entry_start(ix: Option<usize>, rows: Seq<usize>) -> int {
    match ix {
        Some(i) => row_start(rows, i as int),
        None => 0,
    }
}

/// The physical rows of one logical entry: the two sides' rows side by side,
/// the shorter side padded with `None` after its last row.
pub open spec fn entry_block(e: AlignedPair, rows_m: Seq<usize>, rows_p: Seq<usize>) -> Seq<
    AlignedPair,
> {
    let a = entry_rows(e.0, rows_m);
    let b = entry_rows(e.1, rows_p);
    let n = if a >= b { a } else { b };
    Seq::new(
        n as nat,
        |j: int| block_pair(entry_start(e.0, rows_m), a, entry_start(e.1, rows_p), b, j),
    )
}

/// Row `j` of a block whose minus side takes `a` rows from `sm` on and whose
/// plus side takes `b` rows from `sp` on.
pub open spec fn block_pair(sm: int, a: int, sp: int, b: int, j: int) -> AlignedPair {
    (
        if j < a { Some((sm + j) as usize) } else { None },
        if j < b { Some((sp + j) as usize) } else { None },
    )
}

/// The alignment over physical rows that `al` becomes when each logical line
/// takes the given number of rows.
pub open spec fn expand_alignment(al: Seq<AlignedPair>, rows_m: Seq<usize>, rows_p: Seq<usize>) -> Seq<
    AlignedPair,
>
    decreases al.len(),
{
    if al.len() == 0 {
        Seq::empty()
    } else {
        expand_alignment(al.drop_last(), rows_m, rows_p) + entry_block(al.last(), rows_m, rows_p)
    }
}

/// The states of one side's physical rows: `first` on the first row of each
/// logical line, `wrapped` on its continuation rows.
pub open spec fn side_states(rows: Seq<usize>, first: State, wrapped: State) -> Seq<State>
    decreases rows.len(),
{
    if rows.len() == 0 {
        Seq::empty()
    } else {
        side_states(rows.drop_last(), first, wrapped) + if rows.last() == 0 {
            Seq::empty()
        } else {
            seq![first] + Seq::new((rows.last() - 1) as nat, |j: int| wrapped)
        }
    }
}

proof fn lemma_row_start_push(rows: Seq<usize>, x: usize, i: int)
    requires
        0 <= i <= rows.len(),
    ensures
        row_start(rows.push(x), i) == row_start(rows, i),
    decreases i,
{
    if i > 0 {
        lemma_row_start_push(rows, x, i - 1);
    }
}

/// Extending the row counts leaves the expansion of entries that only name
/// lines already counted unchanged.
proof fn lemma_expand_push_rows(
    al: Seq<AlignedPair>,
    rows_m: Seq<usize>,
    rows_p: Seq<usize>,
    xm: Seq<usize>,
    xp: Seq<usize>,
)
    requires
        minus_count(al) <= rows_m.len(),
        plus_count(al) <= rows_p.len(),
        rows_m.len() <= xm.len(),
        rows_p.len() <= xp.len(),
        xm.take(rows_m.len() as int) == rows_m,
        xp.take(rows_p.len() as int) == rows_p,
        forall|k: int|
            0 <= k < al.len() ==> {
                &&& (#[trigger] al[k]).0 is Some ==> al[k].0->0 == minus_count(al.take(k))
                &&& al[k].1 is Some ==> al[k].1->0 == plus_count(al.take(k))
            },
    ensures
        expand_alignment(al, rows_m, rows_p) == expand_alignment(al, xm, xp),
    decreases al.len(),
{
    if al.len() > 0 {
        let pre = al.drop_last();
        assert forall|k: int| 0 <= k < pre.len() implies {
            &&& (#[trigger] pre[k]).0 is Some ==> pre[k].0->0 == minus_count(pre.take(k))
            &&& pre[k].1 is Some ==> pre[k].1->0 == plus_count(pre.take(k))
        } by {
            assert(pre[k] == al[k]);
            assert(pre.take(k) =~= al.take(k));
        }
        lemma_expand_push_rows(pre, rows_m, rows_p, xm, xp);
        let e = al.last();
        assert(al.take(al.len() - 1) =~= pre);
        assert(al[al.len() - 1] == e);
        assert(e.0 is Some ==> e.0->0 == minus_count(al.take(al.len() - 1)));
        assert(e.1 is Some ==> e.1->0 == plus_count(al.take(al.len() - 1)));
        if e.0 is Some {
            let i = e.0->0 as int;
            assert(i == minus_count(pre));
            assert(rows_m[i] == xm[i]) by {
                assert(xm.take(rows_m.len() as int)[i] == xm[i]);
            }
            lemma_row_start_prefix(rows_m, xm, i);
        }
        if e.1 is Some {
            let i = e.1->0 as int;
            assert(i == plus_count(pre));
            assert(rows_p[i] == xp[i]) by {
                assert(xp.take(rows_p.len() as int)[i] == xp[i]);
            }
            lemma_row_start_prefix(rows_p, xp, i);
        }
        assert(entry_block(e, rows_m, rows_p) =~= entry_block(e, xm, xp));
    }
}

proof fn lemma_row_start_prefix(rows: Seq<usize>, xs: Seq<usize>, i: int)
    requires
        0 <= i <= rows.len() <= xs.len(),
        xs.take(rows.len() as int) == rows,
    ensures
        row_start(rows, i) == row_start(xs, i),
    decreases i,
{
    if i > 0 {
        lemma_row_start_prefix(rows, xs, i - 1);
        assert(xs.take(rows.len() as int)[i - 1] == xs[i - 1]);
    }
}

/// No line among the first `n` is flagged for wrapping.
pub open spec fn none_flagged(flags: Seq<bool>, n: int) -> bool {
    forall|i: int| 0 <= i < n ==> !(#[trigger] flags[i])
}

/// A copy of a styled line.
fn copy_line<'a, S: Copy>(line: &LineSegments<'a, S>) -> (r: LineSegments<'a, S>)
    ensures
        r@ == line@,
{
    let mut r: LineSegments<'a, S> = Vec::new();
    let mut i: usize = 0;
    while i < line.len()
        invariant
            i <= line@.len(),
            r@ == line@.take(i as int),
        decreases line@.len() - i,
    {
        r.push(line[i]);
        proof {
            assert(r@ =~= line@.take(i + 1));
        }
        i = i + 1;
    }
    proof {
        assert(line@.take(line@.len() as int) =~= line@);
    }
    r
}

/// The physical lines a line of a block becomes: its wrapping where it is
/// flagged and wraps into any line, else the line itself.
pub open spec fn wrapped_rows<'a, S>(
    line: Seq<(S, &'a str)>,
    flagged: bool,
    width: int,
    cfg: WrapConfig,
    fill: S,
    hint: Option<S>,
    marker: S,
) -> Seq<Seq<SegView<S>>> {
    let w = wrap_rows(line_pieces(line), width, cfg, fill, hint, marker);
    if flagged && w.len() > 0 {
        w
    } else {
        seq![seg_views(line)]
    }
}

/// Append to `wrapped` the physical lines of `input`: the lines `wrap_line`
/// makes of it where `must_wrap`, else `input` itself. Returns the range of
/// indices of the appended lines.
fn wrap_if_too_long<'a, S: Copy + Default>(
    wrap_config: &'a WrapConfig,
    wrapped: &mut Vec<LineSegments<'a, S>>,
    input: &LineSegments<'a, S>,
    must_wrap: bool,
    line_width: usize,
    fill_style: &S,
    inline_hint_style: &Option<S>,
    marker_style: &S,
) -> (r: (usize, usize))
    requires
        line_width < usize::MAX,
    ensures
        r.0 == old(wrapped)@.len(),
        r.1 == final(wrapped)@.len(),
        r.0 < r.1,
        final(wrapped)@.take(r.0 as int) == old(wrapped)@,
        !must_wrap ==> r.1 == r.0 + 1 && final(wrapped)@[r.0 as int]@ == input@,
        rows_view(final(wrapped)@.subrange(r.0 as int, r.1 as int)) == wrapped_rows(
            input@,
            must_wrap,
            line_width as int,
            *wrap_config,
            *fill_style,
            *inline_hint_style,
            *marker_style,
        ),
        must_wrap && line_graphemes(input@) > 0 ==> wraps_as(
            final(wrapped)@.subrange(r.0 as int, r.1 as int),
            input@,
            line_width,
            *wrap_config,
        ),
{
    proof {
        reveal(seg_views);
        reveal(rows_view);
    }
    let size_prev = wrapped.len();
    let mut lines: Vec<LineSegments<'a, S>> = if must_wrap {
        wrap_line_marked(wrap_config, input, line_width, fill_style, inline_hint_style, marker_style)
    } else {
        Vec::new()
    };
    let ghost new_rows = lines@;
    if lines.len() > 0 {
        wrapped.append(&mut lines);
        proof {
            assert(final(wrapped)@.take(size_prev as int) =~= old(wrapped)@);
            assert(final(wrapped)@.subrange(size_prev as int, final(wrapped)@.len() as int) =~= new_rows);
        }
    } else {
        // Nothing to wrap (the line has no grapheme), or no wrapping asked
        // for: the line stays as it is.
        let line = copy_line(input);
        wrapped.push(line);
        proof {
            assert(wrapped@.take(size_prev as int) =~= old(wrapped)@);
            assert(wrapped@.subrange(size_prev as int, wrapped@.len() as int) =~= seq![wrapped@.last()]);
            assert(rows_view(wrapped@.subrange(size_prev as int, wrapped@.len() as int)) =~= seq![
                seg_views(input@),
            ]);
        }
    }
    (size_prev, wrapped.len())
}

/// Styles of the symbols and padding that wrapping inserts.
#[derive(Clone, Debug)]
pub struct WrapStyles<SY, SD> {
    /// Fill style of syntax-highlighted lines.
    pub syntax_fill: SY,
    /// Style of inserted symbols in syntax-highlighted lines.
    pub syntax_hint: Option<SY>,
    /// Fill style of diff-highlighted minus and plus lines.
    pub diff_fill: MinusPlus<SD>,
    /// Style of inserted symbols in diff-highlighted lines.
    pub diff_hint: Option<SD>,
    /// Fill style of diff-highlighted context lines.
    pub zero_fill: SD,
    /// Style of the marker column that starts syntax-highlighted
    /// continuation lines (the style's default).
    pub syntax_marker: SY,
    /// Style of the marker column that starts diff-highlighted continuation
    /// lines (the style's default).
    pub diff_marker: SD,
}

/// The physical rows of one side that one logical line was given.
pub open spec fn line_states(n: usize, first: State, wrapped: State) -> Seq<State> {
    if n == 0 {
        Seq::empty()
    } else {
        seq![first] + Seq::new((n - 1) as nat, |j: int| wrapped)
    }
}

/// Wrap one logical line of one side, both its syntax- and its
/// diff-highlighted form, and record its physical rows. `None` where the two
/// forms wrap into different numbers of rows.
#[verifier::rlimit(30)]
fn wrap_side_line<'a, SY: Copy + Default, SD: Copy + Default>(
    wrap_config: &'a WrapConfig,
    syntax_out: &mut Vec<LineSegments<'a, SY>>,
    diff_out: &mut Vec<LineSegments<'a, SD>>,
    states: &mut Vec<State>,
    rows: &mut Vec<usize>,
    syntax_in: &LineSegments<'a, SY>,
    diff_in: &LineSegments<'a, SD>,
    must_wrap: bool,
    line_width: usize,
    syntax_fill: &SY,
    syntax_hint: &Option<SY>,
    diff_fill: &SD,
    diff_hint: &Option<SD>,
    syntax_marker: &SY,
    diff_marker: &SD,
    first: State,
    wrapped: State,
) -> (r: Option<(usize, usize)>)
    requires
        line_width < usize::MAX,
        old(syntax_out)@.len() == old(diff_out)@.len(),
    ensures
        r is None ==> must_wrap,
        r is None <==> wrapped_rows(
            syntax_in@,
            must_wrap,
            line_width as int,
            *wrap_config,
            *syntax_fill,
            *syntax_hint,
            *syntax_marker,
        ).len() != wrapped_rows(
            diff_in@,
            must_wrap,
            line_width as int,
            *wrap_config,
            *diff_fill,
            *diff_hint,
            *diff_marker,
        ).len(),
        r matches Some((start, end)) ==> {
            &&& start == old(syntax_out)@.len()
            &&& start < end
            &&& end == final(syntax_out)@.len()
            &&& end == final(diff_out)@.len()
            &&& final(rows)@ == old(rows)@.push((end - start) as usize)
            &&& final(states)@ == old(states)@ + line_states((end - start) as usize, first, wrapped)
            &&& final(syntax_out)@.take(start as int) == old(syntax_out)@
            &&& final(diff_out)@.take(start as int) == old(diff_out)@
            &&& !must_wrap ==> end == start + 1 && final(syntax_out)@[start as int]@ == syntax_in@
                && final(diff_out)@[start as int]@ == diff_in@
            &&& rows_view(final(syntax_out)@.subrange(start as int, end as int)) == wrapped_rows(
                syntax_in@,
                must_wrap,
                line_width as int,
                *wrap_config,
                *syntax_fill,
                *syntax_hint,
                *syntax_marker,
            )
            &&& rows_view(final(diff_out)@.subrange(start as int, end as int)) == wrapped_rows(
                diff_in@,
                must_wrap,
                line_width as int,
                *wrap_config,
                *diff_fill,
                *diff_hint,
                *diff_marker,
            )
            &&& must_wrap && line_graphemes(syntax_in@) > 0 ==> wraps_as(
                final(syntax_out)@.subrange(start as int, end as int),
                syntax_in@,
                line_width,
                *wrap_config,
            )
            &&& must_wrap && line_graphemes(diff_in@) > 0 ==> wraps_as(
                final(diff_out)@.subrange(start as int, end as int),
                diff_in@,
                line_width,
                *wrap_config,
            )
        },
{
    let (start, end) = wrap_if_too_long(
        wrap_config,
        syntax_out,
        syntax_in,
        must_wrap,
        line_width,
        syntax_fill,
        syntax_hint,
        syntax_marker,
    );
    let (start2, end2) = wrap_if_too_long(
        wrap_config,
        diff_out,
        diff_in,
        must_wrap,
        line_width,
        diff_fill,
        diff_hint,
        diff_marker,
    );
    proof {
        lemma_views_basic(syntax_out@.subrange(start as int, end as int), Seq::<(SY, &str)>::empty(), Seq::<Piece<'a, SY>>::empty());
        lemma_views_basic(diff_out@.subrange(start2 as int, end2 as int), Seq::<(SD, &str)>::empty(), Seq::<Piece<'a, SD>>::empty());
    }
    if start != start2 || end != end2 {
        return None;
    }
    let n: usize = end - start;
    rows.push(n);
    states.push(first);
    let ghost base = old(states)@;
    let mut j: usize = 1;
    while j < n
        invariant
            1 <= j <= n,
            states@ == base + line_states(j, first, wrapped),
        decreases n - j,
    {
        states.push(wrapped);
        proof {
            assert(states@ =~= base + line_states((j + 1) as usize, first, wrapped));
        }
        j = j + 1;
    }
    proof {
        if !must_wrap {
            assert(syntax_out@[start as int]@ == syntax_in@);
            assert(diff_out@[start as int]@ == diff_in@);
        }
    }
    Some((start, end))
}

/// Append to `al` the rows of one logical entry whose minus side takes `a`
/// rows from `sm` on and whose plus side takes `b` rows from `sp` on.
fn push_block(al: &mut Vec<AlignedPair>, sm: usize, a: usize, sp: usize, b: usize)
    requires
        sm + a <= usize::MAX,
        sp + b <= usize::MAX,
    ensures
        final(al)@ == old(al)@ + Seq::new(
            (if a >= b { a } else { b }) as nat,
            |j: int| block_pair(sm as int, a as int, sp as int, b as int, j),
        ),
{
    let n: usize = if a >= b { a } else { b };
    let ghost base = old(al)@;
    let ghost f = |j: int| block_pair(sm as int, a as int, sp as int, b as int, j);
    let mut j: usize = 0;
    while j < n
        invariant
            j <= n,
            n == (if a >= b { a } else { b }),
            sm + a <= usize::MAX,
            sp + b <= usize::MAX,
            al@ == base + Seq::new(j as nat, f),
            f == (|j: int| block_pair(sm as int, a as int, sp as int, b as int, j)),
        decreases n - j,
    {
        let m = if j < a { Some(sm + j) } else { None };
        let p = if j < b { Some(sp + j) } else { None };
        let ghost prev = al@;
        al.push((m, p));
        proof {
            assert(f(j as int) == (m, p));
            assert(al@.last() == (m, p));
            assert(al@.drop_last() == prev);
            assert(al@ =~= base + Seq::new((j + 1) as nat, f));
        }
        j = j + 1;
    }
    proof {
        assert(al@ =~= base + Seq::new(n as nat, f));
    }
}

proof fn lemma_row_start_mono(rows: Seq<usize>, i: int, j: int)
    requires
        0 <= i <= j <= rows.len(),
    ensures
        row_start(rows, i) <= row_start(rows, j),
    decreases j - i,
{
    if i < j {
        lemma_row_start_mono(rows, i, j - 1);
    }
}

/// The state of one side while a block is being wrapped: `rows` counts the
/// physical rows of the logical lines done so far, `syntax_out`/`diff_out`
/// hold those rows and `states` their states.
#[verifier::opaque]
pub open spec fn side_progress<'a, SY, SD>(
    rows: Seq<usize>,
    states: Seq<State>,
    syntax_out: Seq<LineSegments<'a, SY>>,
    diff_out: Seq<LineSegments<'a, SD>>,
    syntax_in: Seq<LineSegments<'a, SY>>,
    diff_in: Seq<LineSegments<'a, SD>>,
    flags: Seq<bool>,
    first: State,
    wrapped: State,
    line_width: usize,
    cfg: WrapConfig,
) -> bool {
    &&& rows.len() <= syntax_in.len()
    &&& states == side_states(rows, first, wrapped)
    &&& syntax_out.len() == row_start(rows, rows.len() as int)
    &&& diff_out.len() == syntax_out.len()
    &&& forall|i: int|
        0 <= i < rows.len() ==> (#[trigger] rows[i]) >= 1 && (!flags[i] ==> rows[i] == 1
            && syntax_out[row_start(rows, i)]@ == syntax_in[i]@ && diff_out[row_start(rows, i)]@
            == diff_in[i]@)
    &&& none_flagged(flags, rows.len() as int) ==> syntax_out.len() == rows.len() && forall|i: int|
        0 <= i < rows.len() ==> (#[trigger] syntax_out[i])@ == syntax_in[i]@ && diff_out[i]@
            == diff_in[i]@
    &&& forall|i: int|
        0 <= i < rows.len() && #[trigger] flags[i] ==> (line_graphemes(syntax_in[i]@) > 0
            ==> wraps_as(
            syntax_out.subrange(row_start(rows, i), row_start(rows, i + 1)),
            syntax_in[i]@,
            line_width,
            cfg,
        )) && (line_graphemes(diff_in[i]@) > 0 ==> wraps_as(
            diff_out.subrange(row_start(rows, i), row_start(rows, i + 1)),
            diff_in[i]@,
            line_width,
            cfg,
        ))
}

/// Do the syntax- and the diff-highlighted form of a line wrap into
/// different numbers of lines?
pub open spec fn forms_diverge<'a, SY, SD>(
    syntax_line: Seq<(SY, &'a str)>,
    diff_line: Seq<(SD, &'a str)>,
    flagged: bool,
    width: int,
    cfg: WrapConfig,
    syntax_fill: SY,
    syntax_hint: Option<SY>,
    syntax_marker: SY,
    diff_fill: SD,
    diff_hint: Option<SD>,
    diff_marker: SD,
) -> bool {
    wrapped_rows(syntax_line, flagged, width, cfg, syntax_fill, syntax_hint, syntax_marker).len()
        != wrapped_rows(diff_line, flagged, width, cfg, diff_fill, diff_hint, diff_marker).len()
}

/// Do the two forms of line `i` of one side of a block wrap into different
/// numbers of lines?
pub open spec fn side_diverges<'a, SY, SD>(
    syntax: Seq<LineSegments<'a, SY>>,
    diff: Seq<LineSegments<'a, SD>>,
    flags: Seq<bool>,
    width: usize,
    cfg: WrapConfig,
    styles: WrapStyles<SY, SD>,
    diff_fill: SD,
    i: int,
) -> bool {
    forms_diverge(
        syntax[i]@,
        diff[i]@,
        flags[i],
        width as int,
        cfg,
        styles.syntax_fill,
        styles.syntax_hint,
        styles.syntax_marker,
        diff_fill,
        styles.diff_hint,
        styles.diff_marker,
    )
}

/// The styles a side's lines are wrapped with: fill, hint and marker style
/// of the syntax-highlighted form, then of the diff-highlighted form.
pub type SideStyles<SY, SD> = (SY, Option<SY>, SY, SD, Option<SD>, SD);

/// Each logical line of a side done so far became exactly the rows its
/// wrapping gives (`wrapped_rows`), in both forms: `rows[i]` of them, at
/// `row_start(rows, i)`.
#[verifier::opaque]
pub open spec fn side_rows_exact<'a, SY, SD>(
    rows: Seq<usize>,
    syntax_out: Seq<LineSegments<'a, SY>>,
    diff_out: Seq<LineSegments<'a, SD>>,
    syntax_in: Seq<LineSegments<'a, SY>>,
    diff_in: Seq<LineSegments<'a, SD>>,
    flags: Seq<bool>,
    line_width: usize,
    cfg: WrapConfig,
    forms: SideStyles<SY, SD>,
) -> bool {
    forall|i: int|
        0 <= i < rows.len() ==> {
            let syn = wrapped_rows(syntax_in[i]@, flags[i], line_width as int, cfg, forms.0, forms.1, forms.2);
            let dif = wrapped_rows(diff_in[i]@, flags[i], line_width as int, cfg, forms.3, forms.4, forms.5);
            &&& #[trigger] rows[i] == syn.len()
            &&& rows_view(syntax_out.subrange(row_start(rows, i), row_start(rows, i + 1))) == syn
            &&& rows_view(diff_out.subrange(row_start(rows, i), row_start(rows, i + 1))) == dif
        }
}

/// One more logical line done keeps `side_rows_exact`.
#[verifier::rlimit(60)]
#[verifier::spinoff_prover]
proof fn lemma_rows_exact_step<'a, SY, SD>(
    rows0: Seq<usize>,
    rows: Seq<usize>,
    syn0: Seq<LineSegments<'a, SY>>,
    syntax_out: Seq<LineSegments<'a, SY>>,
    diff0: Seq<LineSegments<'a, SD>>,
    diff_out: Seq<LineSegments<'a, SD>>,
    syntax_in: Seq<LineSegments<'a, SY>>,
    diff_in: Seq<LineSegments<'a, SD>>,
    flags: Seq<bool>,
    line_width: usize,
    cfg: WrapConfig,
    forms: SideStyles<SY, SD>,
    start: int,
    end: int,
)
    requires
        side_rows_exact(rows0, syn0, diff0, syntax_in, diff_in, flags, line_width, cfg, forms),
        rows0.len() < syntax_in.len(),
        start == syn0.len(),
        start == diff0.len(),
        start == row_start(rows0, rows0.len() as int),
        forall|i: int| 0 <= i < rows0.len() ==> #[trigger] rows0[i] >= 1,
        start < end <= usize::MAX,
        end == syntax_out.len(),
        end == diff_out.len(),
        rows == rows0.push((end - start) as usize),
        syntax_out.take(start) == syn0,
        diff_out.take(start) == diff0,
        rows_view(syntax_out.subrange(start, end)) == wrapped_rows(
            syntax_in[rows0.len() as int]@,
            flags[rows0.len() as int],
            line_width as int,
            cfg,
            forms.0,
            forms.1,
            forms.2,
        ),
        rows_view(diff_out.subrange(start, end)) == wrapped_rows(
            diff_in[rows0.len() as int]@,
            flags[rows0.len() as int],
            line_width as int,
            cfg,
            forms.3,
            forms.4,
            forms.5,
        ),
    ensures
        side_rows_exact(rows, syntax_out, diff_out, syntax_in, diff_in, flags, line_width, cfg, forms),
{
    reveal(side_rows_exact);
    let n = (end - start) as usize;
    lemma_views_basic(syntax_out.subrange(start, end), Seq::<(SY, &str)>::empty(), Seq::<Piece<'a, SY>>::empty());
    assert forall|i: int| 0 <= i < rows.len() implies {
        let syn = wrapped_rows(syntax_in[i]@, flags[i], line_width as int, cfg, forms.0, forms.1, forms.2);
        let dif = wrapped_rows(diff_in[i]@, flags[i], line_width as int, cfg, forms.3, forms.4, forms.5);
        &&& #[trigger] rows[i] == syn.len()
        &&& rows_view(syntax_out.subrange(row_start(rows, i), row_start(rows, i + 1))) == syn
        &&& rows_view(diff_out.subrange(row_start(rows, i), row_start(rows, i + 1))) == dif
    } by {
        lemma_row_start_push(rows0, n, i);
        if i < rows0.len() {
            lemma_row_start_push(rows0, n, i + 1);
            lemma_row_start_mono(rows0, i + 1, rows0.len() as int);
            lemma_row_start_mono(rows0, 0, i);
            assert(rows[i] == rows0[i]);
            assert(row_start(rows0, i + 1) == row_start(rows0, i) + rows0[i]);
            assert(syntax_out.subrange(row_start(rows, i), row_start(rows, i + 1)) =~= syn0.subrange(
                row_start(rows0, i),
                row_start(rows0, i + 1),
            ));
            assert(diff_out.subrange(row_start(rows, i), row_start(rows, i + 1)) =~= diff0.subrange(
                row_start(rows0, i),
                row_start(rows0, i + 1),
            ));
        } else {
            assert(row_start(rows, i) == start);
            assert(row_start(rows, i + 1) == row_start(rows, i) + rows[i]);
            assert(rows[i] == n);
        }
    }
}

/// One more logical line done on one side keeps `side_progress`.
#[verifier::rlimit(80)]
#[verifier::spinoff_prover]
proof fn lemma_progress_step<'a, SY, SD>(
    rows0: Seq<usize>,
    rows: Seq<usize>,
    states0: Seq<State>,
    states: Seq<State>,
    syn0: Seq<LineSegments<'a, SY>>,
    syntax_out: Seq<LineSegments<'a, SY>>,
    diff0: Seq<LineSegments<'a, SD>>,
    diff_out: Seq<LineSegments<'a, SD>>,
    syntax_in: Seq<LineSegments<'a, SY>>,
    diff_in: Seq<LineSegments<'a, SD>>,
    flags: Seq<bool>,
    first: State,
    wrapped: State,
    line_width: usize,
    cfg: WrapConfig,
    start: int,
    end: int,
)
    requires
        rows0.len() < syntax_in.len(),
        flags.len() == syntax_in.len(),
        diff_in.len() == syntax_in.len(),
        side_progress(rows0, states0, syn0, diff0, syntax_in, diff_in, flags, first, wrapped, line_width, cfg),
        start == syn0.len(),
        start < end,
        end <= usize::MAX,
        end == syntax_out.len(),
        end == diff_out.len(),
        rows == rows0.push((end - start) as usize),
        states == states0 + line_states((end - start) as usize, first, wrapped),
        syntax_out.take(start) == syn0,
        diff_out.take(start) == diff0,
        !flags[rows0.len() as int] ==> end == start + 1 && syntax_out[start]@ == syntax_in[rows0.len() as int]@
            && diff_out[start]@ == diff_in[rows0.len() as int]@,
        flags[rows0.len() as int] && line_graphemes(syntax_in[rows0.len() as int]@) > 0 ==> wraps_as(
            syntax_out.subrange(start, end),
            syntax_in[rows0.len() as int]@,
            line_width,
            cfg,
        ),
        flags[rows0.len() as int] && line_graphemes(diff_in[rows0.len() as int]@) > 0 ==> wraps_as(
            diff_out.subrange(start, end),
            diff_in[rows0.len() as int]@,
            line_width,
            cfg,
        ),
    ensures
        side_progress(rows, states, syntax_out, diff_out, syntax_in, diff_in, flags, first, wrapped, line_width, cfg),
        start == row_start(rows0, rows0.len() as int),
        none_flagged(flags, rows.len() as int) ==> end == start + 1 && start == rows0.len(),
{
    reveal(side_progress);
    let n = (end - start) as usize;
    let rows1 = rows;
    assert(rows1.drop_last() =~= rows0);
    assert(states =~= side_states(rows1, first, wrapped));
    assert forall|i: int| 0 <= i <= rows0.len() implies row_start(rows1, i) == row_start(
        rows0,
        i,
    ) by {
        lemma_row_start_push(rows0, n, i);
    }
    assert(row_start(rows1, rows1.len() as int) == row_start(rows1, rows0.len() as int) + n);
    assert forall|i: int| 0 <= i < rows1.len() implies (#[trigger] rows1[i]) >= 1 && (
    !flags[i] ==> rows1[i] == 1 && syntax_out[row_start(rows1, i)]@ == syntax_in[i]@
        && diff_out[row_start(rows1, i)]@ == diff_in[i]@) by {
        lemma_row_start_push(rows0, n, i);
        if i < rows0.len() {
            assert(rows1[i] == rows0[i]);
            assert(rows0[i] >= 1);
            lemma_row_start_mono(rows0, i + 1, rows0.len() as int);
            assert(row_start(rows0, i + 1) == row_start(rows0, i) + rows0[i]);
            assert(syntax_out.take(start as int)[row_start(rows0, i)] == syn0[row_start(rows0, i)]);
            assert(diff_out.take(start as int)[row_start(rows0, i)] == diff0[row_start(rows0, i)]);
            let x = row_start(rows0, i);
            lemma_row_start_mono(rows0, 0, i);
            assert(start == row_start(rows0, rows0.len() as int));
            assert(x < start);
            assert(syntax_out.take(start as int)[x] == syntax_out[x]);
            assert(diff_out.take(start as int)[x] == diff_out[x]);
            if !flags[i] {
                assert(syntax_out[row_start(rows1, i)] == syn0[row_start(rows0, i)]);
                assert(diff_out[row_start(rows1, i)] == diff0[row_start(rows0, i)]);
            }
        } else {
            assert(i == rows0.len());
            assert(row_start(rows1, i) == start);
            assert(rows1[i] == n);
            if !flags[i] {
                assert(syntax_out[start as int]@ == syntax_in[i]@);
            }
        }
    }
    if none_flagged(flags, rows1.len() as int) {
        assert(none_flagged(flags, rows0.len() as int));
        assert(!flags[rows0.len() as int]);
        assert(syn0.len() == rows0.len());
        assert forall|i: int| 0 <= i < rows1.len() implies (#[trigger] syntax_out[i])@
            == syntax_in[i]@ && diff_out[i]@ == diff_in[i]@ by {
            if i < rows0.len() {
                assert(syntax_out.take(start as int)[i] == syn0[i]);
                assert(diff_out.take(start as int)[i] == diff0[i]);
                assert(syntax_out.take(start as int)[i] == syntax_out[i]);
                assert(diff_out.take(start as int)[i] == diff_out[i]);
                assert(syn0[i]@ == syntax_in[i]@ && diff0[i]@ == diff_in[i]@);
            } else {
                assert(!flags[rows0.len() as int]);
                assert(start == rows0.len());
                assert(i == start);
                assert(syntax_out[start]@ == syntax_in[rows0.len() as int]@);
                assert(diff_out[start]@ == diff_in[rows0.len() as int]@);
            }
        }
    }

    assert(none_flagged(flags, rows.len() as int) ==> none_flagged(flags, rows0.len() as int));
    assert forall|i: int| 0 <= i < rows1.len() && #[trigger] flags[i] implies (line_graphemes(
        syntax_in[i]@,
    ) > 0 ==> wraps_as(
        syntax_out.subrange(row_start(rows1, i), row_start(rows1, i + 1)),
        syntax_in[i]@,
        line_width,
        cfg,
    )) && (line_graphemes(diff_in[i]@) > 0 ==> wraps_as(
        diff_out.subrange(row_start(rows1, i), row_start(rows1, i + 1)),
        diff_in[i]@,
        line_width,
        cfg,
    )) by {
        lemma_row_start_push(rows0, n, i);
        if i < rows0.len() {
            lemma_row_start_push(rows0, n, i + 1);
            lemma_row_start_mono(rows0, i + 1, rows0.len() as int);
            lemma_row_start_mono(rows0, 0, i);
            assert(row_start(rows0, i + 1) == row_start(rows0, i) + rows0[i]);
            assert(syntax_out.subrange(row_start(rows1, i), row_start(rows1, i + 1)) =~= syn0.subrange(
                row_start(rows0, i),
                row_start(rows0, i + 1),
            ));
            assert(diff_out.subrange(row_start(rows1, i), row_start(rows1, i + 1)) =~= diff0.subrange(
                row_start(rows0, i),
                row_start(rows0, i + 1),
            ));
        } else {
            assert(row_start(rows1, i) == start);
            assert(row_start(rows1, i + 1) == row_start(rows1, i) + rows1[i]);
        }
    }
    assert(rows.len() <= syntax_in.len());
    assert(syntax_out.len() == row_start(rows, rows.len() as int));
    assert(side_progress(rows, states, syntax_out, diff_out, syntax_in, diff_in, flags, first, wrapped, line_width, cfg));
}

/// Wrap the next logical line of one side.
#[verifier::rlimit(60)]
fn advance_side<'a, SY: Copy + Default, SD: Copy + Default>(
    wrap_config: &'a WrapConfig,
    syntax_out: &mut Vec<LineSegments<'a, SY>>,
    diff_out: &mut Vec<LineSegments<'a, SD>>,
    states: &mut Vec<State>,
    rows: &mut Vec<usize>,
    syntax_in: &Vec<LineSegments<'a, SY>>,
    diff_in: &Vec<LineSegments<'a, SD>>,
    flags: &Vec<bool>,
    line_width: usize,
    syntax_fill: &SY,
    syntax_hint: &Option<SY>,
    diff_fill: &SD,
    diff_hint: &Option<SD>,
    syntax_marker: &SY,
    diff_marker: &SD,
    first: State,
    wrapped: State,
) -> (r: Option<(usize, usize)>)
    requires
        line_width < usize::MAX,
        old(rows)@.len() < syntax_in@.len(),
        diff_in@.len() == syntax_in@.len(),
        flags@.len() == syntax_in@.len(),
        side_progress(
            old(rows)@,
            old(states)@,
            old(syntax_out)@,
            old(diff_out)@,
            syntax_in@,
            diff_in@,
            flags@,
            first,
            wrapped,
            line_width,
            *wrap_config,
        ),
        side_rows_exact(
            old(rows)@,
            old(syntax_out)@,
            old(diff_out)@,
            syntax_in@,
            diff_in@,
            flags@,
            line_width,
            *wrap_config,
            (*syntax_fill, *syntax_hint, *syntax_marker, *diff_fill, *diff_hint, *diff_marker),
        ),
    ensures
        r is None ==> flags@[old(rows)@.len() as int],
        r is None <==> forms_diverge(
            syntax_in@[old(rows)@.len() as int]@,
            diff_in@[old(rows)@.len() as int]@,
            flags@[old(rows)@.len() as int],
            line_width as int,
            *wrap_config,
            *syntax_fill,
            *syntax_hint,
            *syntax_marker,
            *diff_fill,
            *diff_hint,
            *diff_marker,
        ),
        r matches Some((start, end)) ==> {
            &&& start == old(syntax_out)@.len()
            &&& start < end
            &&& start == row_start(old(rows)@, old(rows)@.len() as int)
            &&& none_flagged(flags@, final(rows)@.len() as int) ==> end == start + 1 && start
                == old(rows)@.len()
            &&& final(rows)@ == old(rows)@.push((end - start) as usize)
            &&& side_progress(
                final(rows)@,
                final(states)@,
                final(syntax_out)@,
                final(diff_out)@,
                syntax_in@,
                diff_in@,
                flags@,
                first,
                wrapped,
                line_width,
                *wrap_config,
            )
            &&& side_rows_exact(
                final(rows)@,
                final(syntax_out)@,
                final(diff_out)@,
                syntax_in@,
                diff_in@,
                flags@,
                line_width,
                *wrap_config,
                (*syntax_fill, *syntax_hint, *syntax_marker, *diff_fill, *diff_hint, *diff_marker),
            )
        },
{
    proof {
        reveal(side_progress);
    }
    let ghost rows0 = rows@;
    let ghost syn0 = syntax_out@;
    let ghost diff0 = diff_out@;
    let idx = rows.len();
    let must_wrap = flags[idx];
    let r = wrap_side_line(
        wrap_config,
        syntax_out,
        diff_out,
        states,
        rows,
        &syntax_in[idx],
        &diff_in[idx],
        must_wrap,
        line_width,
        syntax_fill,
        syntax_hint,
        diff_fill,
        diff_hint,
        syntax_marker,
        diff_marker,
        first,
        wrapped,
    );
    proof {
        if let Some((start, end)) = r {
            lemma_progress_step(
                rows0,
                rows@,
                old(states)@,
                states@,
                syn0,
                syntax_out@,
                diff0,
                diff_out@,
                syntax_in@,
                diff_in@,
                flags@,
                first,
                wrapped,
                line_width,
                *wrap_config,
                start as int,
                end as int,
            );
            lemma_rows_exact_step(
                rows0,
                rows@,
                syn0,
                syntax_out@,
                diff0,
                diff_out@,
                syntax_in@,
                diff_in@,
                flags@,
                line_width,
                *wrap_config,
                (*syntax_fill, *syntax_hint, *syntax_marker, *diff_fill, *diff_hint, *diff_marker),
                start as int,
                end as int,
            );
        }
    }
    r
}

proof fn lemma_count_prefix(al: Seq<AlignedPair>, j: int)
    requires
        0 <= j <= al.len(),
    ensures
        minus_count(al.take(j)) <= minus_count(al),
        plus_count(al.take(j)) <= plus_count(al),
    decreases al.len() - j,
{
    if j == al.len() {
        assert(al.take(j) =~= al);
    } else {
        lemma_count_prefix(al, j + 1);
        assert(al.take(j + 1).drop_last() =~= al.take(j));
    }
}

/// One entry of an alignment, expanded onto what came before it.
#[verifier::rlimit(60)]
#[verifier::spinoff_prover]
proof fn lemma_expand_step(
    al: Seq<AlignedPair>,
    k: int,
    base: Seq<AlignedPair>,
    rows_m0: Seq<usize>,
    rows_p0: Seq<usize>,
    rows_m: Seq<usize>,
    rows_p: Seq<usize>,
    sm: usize,
    a: usize,
    sp: usize,
    b: usize,
)
    requires
        0 <= k < al.len(),
        valid_alignment(al, minus_count(al), plus_count(al)),
        rows_m0.len() == minus_count(al.take(k)),
        rows_p0.len() == plus_count(al.take(k)),
        base == expand_alignment(al.take(k), rows_m0, rows_p0),
        al[k].0 is Some ==> rows_m == rows_m0.push(a) && sm == row_start(rows_m0, rows_m0.len() as int),
        al[k].0 is None ==> rows_m == rows_m0 && a == 0 && sm == 0,
        al[k].1 is Some ==> rows_p == rows_p0.push(b) && sp == row_start(rows_p0, rows_p0.len() as int),
        al[k].1 is None ==> rows_p == rows_p0 && b == 0 && sp == 0,
    ensures
        base + Seq::new(
            (if a >= b { a } else { b }) as nat,
            |j: int| block_pair(sm as int, a as int, sp as int, b as int, j),
        ) == expand_alignment(al.take(k + 1), rows_m, rows_p),
{
    reveal(valid_alignment);
    let e = al[k];
    let pre = al.take(k);
    assert(al.take(k + 1).drop_last() =~= pre);
    assert(al.take(k + 1).last() == e);
    assert forall|kk: int| 0 <= kk < pre.len() implies {
        &&& (#[trigger] pre[kk]).0 is Some ==> pre[kk].0->0 == minus_count(pre.take(kk))
        &&& pre[kk].1 is Some ==> pre[kk].1->0 == plus_count(pre.take(kk))
    } by {
        assert(pre[kk] == al[kk]);
        assert(pre.take(kk) =~= al.take(kk));
    }
    assert(rows_m.take(rows_m0.len() as int) =~= rows_m0);
    assert(rows_p.take(rows_p0.len() as int) =~= rows_p0);
    lemma_expand_push_rows(pre, rows_m0, rows_p0, rows_m, rows_p);
    if e.0 is Some {
        lemma_row_start_push(rows_m0, a, rows_m0.len() as int);
        assert(e.0->0 == rows_m0.len());
        assert(rows_m[rows_m0.len() as int] == a);
    }
    if e.1 is Some {
        lemma_row_start_push(rows_p0, b, rows_p0.len() as int);
        assert(e.1->0 == rows_p0.len());
        assert(rows_p[rows_p0.len() as int] == b);
    }
    assert(entry_block(e, rows_m, rows_p) =~= Seq::new(
        (if a >= b { a } else { b }) as nat,
        |j: int| block_pair(sm as int, a as int, sp as int, b as int, j),
    ));
}

/// Two sequences of styled lines hold the same lines.
pub open spec fn same_lines<'a, S>(a: Seq<LineSegments<'a, S>>, b: Seq<LineSegments<'a, S>>) -> bool {
    a.len() == b.len() && forall|i: int| 0 <= i < a.len() ==> (#[trigger] a[i])@ == b[i]@
}

/// How many of `states` are `first`.
pub open spec fn count_first(states: Seq<State>, first: State) -> nat
    decreases states.len(),
{
    if states.len() == 0 {
        0
    } else {
        count_first(states.drop_last(), first) + if states.last() == first {
            1nat
        } else {
            0nat
        }
    }
}

/// Does the side of an entry hold the first row of a line?
pub open spec fn is_first_row(ix: Option<usize>, states: Seq<State>, first: State) -> bool {
    match ix {
        Some(i) => states[i as int] == first,
        None => false,
    }
}

/// The logical line whose rows include physical row `ix`: the number of
/// first rows before it.
pub open spec fn logical_line(ix: Option<usize>, states: Seq<State>, first: State) -> Option<usize> {
    match ix {
        Some(i) => Some(count_first(states.take(i as int), first) as usize),
        None => None,
    }
}

/// The entries of a physical alignment that hold a first row, with their
/// rows mapped back to logical lines.
pub open spec fn discard_wrapped(al: Seq<AlignedPair>, sm: Seq<State>, sp: Seq<State>) -> Seq<
    AlignedPair,
>
    decreases al.len(),
{
    if al.len() == 0 {
        Seq::empty()
    } else {
        let rest = discard_wrapped(al.drop_last(), sm, sp);
        let e = al.last();
        if is_first_row(e.0, sm, State::HunkMinus) || is_first_row(e.1, sp, State::HunkPlus) {
            rest.push(
                (logical_line(e.0, sm, State::HunkMinus), logical_line(e.1, sp, State::HunkPlus)),
            )
        } else {
            rest
        }
    }
}

proof fn lemma_count_first_append(a: Seq<State>, b: Seq<State>, first: State)
    ensures
        count_first(a + b, first) == count_first(a, first) + count_first(b, first),
    decreases b.len(),
{
    if b.len() == 0 {
        assert(a + b =~= a);
    } else {
        lemma_count_first_append(a, b.drop_last(), first);
        assert((a + b).drop_last() =~= a + b.drop_last());
    }
}

proof fn lemma_count_first_line(n: usize, first: State, wrapped: State)
    requires
        n >= 1,
        first != wrapped,
    ensures
        count_first(line_states(n, first, wrapped), first) == 1,
    decreases n,
{
    let ls = line_states(n, first, wrapped);
    if n == 1 {
        assert(ls =~= seq![first]);
        assert(ls.drop_last() =~= Seq::<State>::empty());
        assert(count_first(ls.drop_last(), first) == 0);
        assert(ls.last() == first);
        assert(count_first(ls, first) == count_first(ls.drop_last(), first) + 1);
    } else {
        let shorter = line_states((n - 1) as usize, first, wrapped);
        lemma_count_first_line((n - 1) as usize, first, wrapped);
        assert(ls.drop_last() =~= shorter);
        assert(ls.last() == wrapped);
        assert(count_first(ls, first) == count_first(ls.drop_last(), first) + 0);
    }
}

/// The first rows of the lines before line `m` number `m`.
proof fn lemma_count_first_rows(rows: Seq<usize>, first: State, wrapped: State, m: int)
    requires
        first != wrapped,
        0 <= m <= rows.len(),
        forall|i: int| 0 <= i < rows.len() ==> #[trigger] rows[i] >= 1,
    ensures
        count_first(side_states(rows, first, wrapped).take(row_start(rows, m)), first) == m,
    decreases rows.len(),
{
    let ss = side_states(rows, first, wrapped);
    lemma_side_states_len(rows, first, wrapped);
    if rows.len() > 0 {
        let pre = rows.drop_last();
        let front = side_states(pre, first, wrapped);
        lemma_side_states_len(pre, first, wrapped);
        assert(ss == front + line_states(rows.last(), first, wrapped));
        assert(pre.push(rows.last()) =~= rows);
        assert forall|t: int| 0 <= t <= pre.len() implies row_start(rows, t) == row_start(pre, t) by {
            lemma_row_start_push(pre, rows.last(), t);
        }
        if m < rows.len() {
            lemma_count_first_rows(pre, first, wrapped, m);
            lemma_row_start_mono(pre, m, pre.len() as int);
            lemma_row_start_mono(pre, 0, m);
            assert(ss.take(row_start(rows, m)) =~= front.take(row_start(pre, m)));
        } else {
            lemma_count_first_rows(pre, first, wrapped, pre.len() as int);
            assert(front.take(row_start(pre, pre.len() as int)) =~= front);
            assert(ss.take(row_start(rows, m)) =~= ss);
            lemma_count_first_append(front, line_states(rows.last(), first, wrapped), first);
            assert(rows.last() == rows[rows.len() - 1]);
            lemma_count_first_line(rows.last(), first, wrapped);
        }
    } else {
        assert(ss.take(0) =~= Seq::<State>::empty());
    }
}

proof fn lemma_discard_append(x: Seq<AlignedPair>, y: Seq<AlignedPair>, sm: Seq<State>, sp: Seq<State>)
    ensures
        discard_wrapped(x + y, sm, sp) == discard_wrapped(x, sm, sp) + discard_wrapped(y, sm, sp),
    decreases y.len(),
{
    if y.len() == 0 {
        assert(x + y =~= x);
        assert(discard_wrapped(x, sm, sp) + discard_wrapped(y, sm, sp) =~= discard_wrapped(x, sm, sp));
    } else {
        lemma_discard_append(x, y.drop_last(), sm, sp);
        assert((x + y).drop_last() =~= x + y.drop_last());
        assert((x + y).last() == y.last());
        let a = discard_wrapped(x, sm, sp);
        let b = discard_wrapped(y.drop_last(), sm, sp);
        let e = y.last();
        if is_first_row(e.0, sm, State::HunkMinus) || is_first_row(e.1, sp, State::HunkPlus) {
            assert((a + b).push(
                (logical_line(e.0, sm, State::HunkMinus), logical_line(e.1, sp, State::HunkPlus)),
            ) =~= a + b.push(
                (logical_line(e.0, sm, State::HunkMinus), logical_line(e.1, sp, State::HunkPlus)),
            ));
        }
    }
}

/// The prefix of an alignment is well formed: every entry names a line,
/// each side's lines come in order from the first, and those named have
/// row counts of at least one.
pub open spec fn alignment_prefix_ok(al: Seq<AlignedPair>, rows_m: Seq<usize>, rows_p: Seq<usize>) -> bool {
    &&& minus_count(al) <= rows_m.len()
    &&& plus_count(al) <= rows_p.len()
    &&& forall|k: int|
        0 <= k < al.len() ==> {
            &&& (#[trigger] al[k]).0 is Some || al[k].1 is Some
            &&& al[k].0 is Some ==> al[k].0->0 == minus_count(al.take(k))
            &&& al[k].1 is Some ==> al[k].1->0 == plus_count(al.take(k))
        }
}

proof fn lemma_discard_expand(al: Seq<AlignedPair>, rows_m: Seq<usize>, rows_p: Seq<usize>)
    requires
        alignment_prefix_ok(al, rows_m, rows_p),
        forall|i: int| 0 <= i < rows_m.len() ==> #[trigger] rows_m[i] >= 1,
        forall|i: int| 0 <= i < rows_p.len() ==> #[trigger] rows_p[i] >= 1,
        row_start(rows_m, rows_m.len() as int) <= usize::MAX,
        row_start(rows_p, rows_p.len() as int) <= usize::MAX,
    ensures
        discard_wrapped(
            expand_alignment(al, rows_m, rows_p),
            side_states(rows_m, State::HunkMinus, State::HunkMinusWrapped),
            side_states(rows_p, State::HunkPlus, State::HunkPlusWrapped),
        ) == al,
    decreases al.len(),
{
    let sm = side_states(rows_m, State::HunkMinus, State::HunkMinusWrapped);
    let sp = side_states(rows_p, State::HunkPlus, State::HunkPlusWrapped);
    if al.len() == 0 {
        assert(discard_wrapped(Seq::<AlignedPair>::empty(), sm, sp) =~= Seq::<AlignedPair>::empty());
    } else {
        let pre = al.drop_last();
        let e = al.last();
        assert(al.take(al.len() - 1) =~= pre);
        assert(al[al.len() - 1] == e);
        assert forall|k: int| 0 <= k < pre.len() implies {
            &&& (#[trigger] pre[k]).0 is Some || pre[k].1 is Some
            &&& pre[k].0 is Some ==> pre[k].0->0 == minus_count(pre.take(k))
            &&& pre[k].1 is Some ==> pre[k].1->0 == plus_count(pre.take(k))
        } by {
            assert(pre[k] == al[k]);
            assert(pre.take(k) =~= al.take(k));
        }
        lemma_discard_expand(pre, rows_m, rows_p);
        let block = entry_block(e, rows_m, rows_p);
        lemma_discard_append(expand_alignment(pre, rows_m, rows_p), block, sm, sp);
        lemma_entry_first_row(e, rows_m, rows_p);
        // Only the first row of the block is kept, mapped back to `e`.
        assert forall|j: int| 1 <= j <= block.len() implies discard_wrapped(block.take(j), sm, sp)
            == seq![block_first_kept(e, rows_m, rows_p, sm, sp)] by {
            lemma_discard_block_prefix(e, rows_m, rows_p, j);
        }
        assert(block.take(block.len() as int) =~= block);
        if let Some(m) = e.0 {
            lemma_count_first_rows(rows_m, State::HunkMinus, State::HunkMinusWrapped, m as int);
            lemma_row_start_mono(rows_m, m as int, rows_m.len() as int);
            lemma_row_start_mono(rows_m, 0, m as int);
        }
        if let Some(p) = e.1 {
            lemma_count_first_rows(rows_p, State::HunkPlus, State::HunkPlusWrapped, p as int);
            lemma_row_start_mono(rows_p, p as int, rows_p.len() as int);
            lemma_row_start_mono(rows_p, 0, p as int);
        }
        let kept = block_first_kept(e, rows_m, rows_p, sm, sp);
        assert(kept == e);
        assert(expand_alignment(al, rows_m, rows_p) == expand_alignment(pre, rows_m, rows_p) + block);
        assert(discard_wrapped(block, sm, sp) == seq![kept]);
        assert(pre.push(e) =~= al);
        assert(pre + seq![kept] =~= al);
    }
}

/// The entry that the first row of the block of `e` maps back to.
pub open spec fn block_first_kept(
    e: AlignedPair,
    rows_m: Seq<usize>,
    rows_p: Seq<usize>,
    sm: Seq<State>,
    sp: Seq<State>,
) -> AlignedPair {
    let block = entry_block(e, rows_m, rows_p);
    (logical_line(block[0].0, sm, State::HunkMinus), logical_line(block[0].1, sp, State::HunkPlus))
}

proof fn lemma_discard_block_prefix(e: AlignedPair, rows_m: Seq<usize>, rows_p: Seq<usize>, j: int)
    requires
        row_start(rows_m, rows_m.len() as int) <= usize::MAX,
        row_start(rows_p, rows_p.len() as int) <= usize::MAX,
        e.0 is Some || e.1 is Some,
        e.0 is Some ==> e.0->0 < rows_m.len() && rows_m[e.0->0 as int] >= 1,
        e.1 is Some ==> e.1->0 < rows_p.len() && rows_p[e.1->0 as int] >= 1,
        1 <= j <= entry_block(e, rows_m, rows_p).len(),
    ensures
        ({
            let sm = side_states(rows_m, State::HunkMinus, State::HunkMinusWrapped);
            let sp = side_states(rows_p, State::HunkPlus, State::HunkPlusWrapped);
            discard_wrapped(entry_block(e, rows_m, rows_p).take(j), sm, sp) == seq![
                block_first_kept(e, rows_m, rows_p, sm, sp),
            ]
        }),
    decreases j,
{
    let sm = side_states(rows_m, State::HunkMinus, State::HunkMinusWrapped);
    let sp = side_states(rows_p, State::HunkPlus, State::HunkPlusWrapped);
    let block = entry_block(e, rows_m, rows_p);
    lemma_entry_first_row(e, rows_m, rows_p);
    let t = block.take(j);
    assert(t.drop_last() =~= block.take(j - 1));
    assert(t.last() == block[j - 1]);
    if j == 1 {
        assert(block.take(0) =~= Seq::<AlignedPair>::empty());
        assert(is_first_row(block[0].0, sm, State::HunkMinus) || is_first_row(
            block[0].1,
            sp,
            State::HunkPlus,
        ));
        assert(discard_wrapped(t.drop_last(), sm, sp) =~= Seq::<AlignedPair>::empty());
        assert(discard_wrapped(t, sm, sp) == discard_wrapped(t.drop_last(), sm, sp).push(
            block_first_kept(e, rows_m, rows_p, sm, sp),
        ));
        assert(discard_wrapped(t, sm, sp) =~= seq![block_first_kept(e, rows_m, rows_p, sm, sp)]);
    } else {
        lemma_discard_block_prefix(e, rows_m, rows_p, j - 1);
        assert(!is_first_row(block[j - 1].0, sm, State::HunkMinus));
        assert(!is_first_row(block[j - 1].1, sp, State::HunkPlus));
    }
}

/// Alignment fidelity: walking the alignment over physical rows that
/// `al` expands to, and keeping only the entries that hold the first row of
/// a line (mapping each row back to the logical line it belongs to), gives
/// `al` back exactly.
pub proof fn lemma_discard_wrapped_rows(al: Seq<AlignedPair>, rows_m: Seq<usize>, rows_p: Seq<usize>)
    requires
        valid_alignment(al, rows_m.len(), rows_p.len()),
        forall|i: int| 0 <= i < rows_m.len() ==> #[trigger] rows_m[i] >= 1,
        forall|i: int| 0 <= i < rows_p.len() ==> #[trigger] rows_p[i] >= 1,
        row_start(rows_m, rows_m.len() as int) <= usize::MAX,
        row_start(rows_p, rows_p.len() as int) <= usize::MAX,
    ensures
        discard_wrapped(
            expand_alignment(al, rows_m, rows_p),
            side_states(rows_m, State::HunkMinus, State::HunkMinusWrapped),
            side_states(rows_p, State::HunkPlus, State::HunkPlusWrapped),
        ) == al,
{
    reveal(valid_alignment);
    lemma_discard_expand(al, rows_m, rows_p);
}

/// One row per line.
pub open spec fn one_row_each(n: nat) -> Seq<usize> {
    Seq::new(n, |i: int| 1usize)
}

proof fn lemma_row_start_ones(n: nat, m: int)
    requires
        0 <= m <= n,
    ensures
        row_start(one_row_each(n), m) == m,
    decreases m,
{
    if m > 0 {
        lemma_row_start_ones(n, m - 1);
    }
}

proof fn lemma_expand_ones(al: Seq<AlignedPair>, n_m: nat, n_p: nat)
    requires
        alignment_prefix_ok(al, one_row_each(n_m), one_row_each(n_p)),
    ensures
        expand_alignment(al, one_row_each(n_m), one_row_each(n_p)) == al,
    decreases al.len(),
{
    if al.len() > 0 {
        let pre = al.drop_last();
        let e = al.last();
        assert(al.take(al.len() - 1) =~= pre);
        assert(al[al.len() - 1] == e);
        assert forall|k: int| 0 <= k < pre.len() implies {
            &&& (#[trigger] pre[k]).0 is Some || pre[k].1 is Some
            &&& pre[k].0 is Some ==> pre[k].0->0 == minus_count(pre.take(k))
            &&& pre[k].1 is Some ==> pre[k].1->0 == plus_count(pre.take(k))
        } by {
            assert(pre[k] == al[k]);
            assert(pre.take(k) =~= al.take(k));
        }
        lemma_count_prefix(al, al.len() - 1);
        lemma_expand_ones(pre, n_m, n_p);
        if let Some(m) = e.0 {
            lemma_row_start_ones(n_m, m as int);
        }
        if let Some(p) = e.1 {
            lemma_row_start_ones(n_p, p as int);
        }
        let block = entry_block(e, one_row_each(n_m), one_row_each(n_p));
        assert(block =~= seq![e]);
        assert(pre.push(e) =~= al);
    }
}

/// Idempotence of the no-op: where no line is flagged, each line stays one
/// row, itself (in both forms), and the alignment over those rows is the
/// alignment given.
pub proof fn lemma_unflagged_block_unchanged<'a, S>(
    al: Seq<AlignedPair>,
    n_minus: nat,
    n_plus: nat,
    line: Seq<(S, &'a str)>,
    width: int,
    cfg: WrapConfig,
    fill: S,
    hint: Option<S>,
    marker: S,
)
    requires
        valid_alignment(al, n_minus, n_plus),
    ensures
        expand_alignment(al, one_row_each(n_minus), one_row_each(n_plus)) == al,
        wrapped_rows(line, false, width, cfg, fill, hint, marker) == seq![seg_views(line)],
{
    reveal(valid_alignment);
    lemma_expand_ones(al, n_minus, n_plus);
}

/// The result of wrapping a block of minus and plus lines.
pub struct WrappedBlock<'a, SY, SD> {
    /// The alignment over physical rows.
    pub alignment: Vec<AlignedPair>,
    /// The state of each physical row of each side.
    pub states: MinusPlus<Vec<State>>,
    /// The syntax-highlighted physical rows of each side.
    pub syntax: MinusPlus<Vec<LineSegments<'a, SY>>>,
    /// The diff-highlighted physical rows of each side.
    pub diff: MinusPlus<Vec<LineSegments<'a, SD>>>,
    /// How many physical rows each logical line of each side became.
    pub rows: MinusPlus<Vec<usize>>,
}

/// Does the block wrapped out of lines `syntax_in`/`diff_in` with flags
/// `flags` hold, on one side, the rows that `rows` counts?
pub open spec fn side_result<'a, SY, SD>(
    rows: Seq<usize>,
    states: Seq<State>,
    syntax_out: Seq<LineSegments<'a, SY>>,
    diff_out: Seq<LineSegments<'a, SD>>,
    syntax_in: Seq<LineSegments<'a, SY>>,
    diff_in: Seq<LineSegments<'a, SD>>,
    flags: Seq<bool>,
    first: State,
    wrapped: State,
    line_width: usize,
    cfg: WrapConfig,
) -> bool {
    &&& rows.len() == syntax_in.len()
    &&& side_progress(
        rows,
        states,
        syntax_out,
        diff_out,
        syntax_in,
        diff_in,
        flags,
        first,
        wrapped,
        line_width,
        cfg,
    )
}

/// Wrap the minus and plus lines whose `wrapinfo` flag is set, and realign
/// the block: each entry of `alignment` becomes as many rows as the longer of
/// its two sides, the shorter side padded with `None` after its last row.
/// The first row of every logical line keeps its state (`HunkMinus`,
/// `HunkPlus`), the rows after it are `HunkMinusWrapped`, `HunkPlusWrapped`.
/// `None` where a line's syntax- and diff-highlighted forms wrap into
/// different numbers of rows.
#[verifier::rlimit(80)]
pub fn wrap_minusplus_block<'a, SY: Copy + Default, SD: Copy + Default>(
    wrap_config: &'a WrapConfig,
    styles: &WrapStyles<SY, SD>,
    syntax: &MinusPlus<Vec<LineSegments<'a, SY>>>,
    diff: &MinusPlus<Vec<LineSegments<'a, SD>>>,
    alignment: &Vec<AlignedPair>,
    line_width: &MinusPlus<usize>,
    wrapinfo: &MinusPlus<Vec<bool>>,
) -> (r: Option<WrappedBlock<'a, SY, SD>>)
    requires
        valid_alignment(alignment@, syntax.minus@.len(), syntax.plus@.len()),
        diff.minus@.len() == syntax.minus@.len(),
        diff.plus@.len() == syntax.plus@.len(),
        wrapinfo.minus@.len() == syntax.minus@.len(),
        wrapinfo.plus@.len() == syntax.plus@.len(),
        line_width.minus < usize::MAX,
        line_width.plus < usize::MAX,
    ensures
        r is None <==> (exists|i: int|
            0 <= i < syntax.minus@.len() && #[trigger] side_diverges(
                syntax.minus@,
                diff.minus@,
                wrapinfo.minus@,
                line_width.minus,
                *wrap_config,
                *styles,
                styles.diff_fill.minus,
                i,
            )) || (exists|i: int|
            0 <= i < syntax.plus@.len() && #[trigger] side_diverges(
                syntax.plus@,
                diff.plus@,
                wrapinfo.plus@,
                line_width.plus,
                *wrap_config,
                *styles,
                styles.diff_fill.plus,
                i,
            )),
        r is None ==> !(none_flagged(wrapinfo.minus@, wrapinfo.minus@.len() as int) && none_flagged(
            wrapinfo.plus@,
            wrapinfo.plus@.len() as int,
        )),
        r matches Some(b) ==> {
            &&& b.alignment@ == expand_alignment(alignment@, b.rows.minus@, b.rows.plus@)
            &&& side_rows_exact(
            b.rows.minus@,
            b.syntax.minus@,
            b.diff.minus@,
            syntax.minus@,
            diff.minus@,
            wrapinfo.minus@,
            line_width.minus,
            *wrap_config,
            (
                styles.syntax_fill,
                styles.syntax_hint,
                styles.syntax_marker,
                styles.diff_fill.minus,
                styles.diff_hint,
                styles.diff_marker,
            ),
        )
            &&& side_rows_exact(
            b.rows.plus@,
            b.syntax.plus@,
            b.diff.plus@,
            syntax.plus@,
            diff.plus@,
            wrapinfo.plus@,
            line_width.plus,
            *wrap_config,
            (
                styles.syntax_fill,
                styles.syntax_hint,
                styles.syntax_marker,
                styles.diff_fill.plus,
                styles.diff_hint,
                styles.diff_marker,
            ),
        )
            &&& side_result(
                b.rows.minus@,
                b.states.minus@,
                b.syntax.minus@,
                b.diff.minus@,
                syntax.minus@,
                diff.minus@,
                wrapinfo.minus@,
                State::HunkMinus,
                State::HunkMinusWrapped,
                line_width.minus,
                *wrap_config,
            )
            &&& side_result(
                b.rows.plus@,
                b.states.plus@,
                b.syntax.plus@,
                b.diff.plus@,
                syntax.plus@,
                diff.plus@,
                wrapinfo.plus@,
                State::HunkPlus,
                State::HunkPlusWrapped,
                line_width.plus,
                *wrap_config,
            )
            &&& none_flagged(wrapinfo.minus@, wrapinfo.minus@.len() as int) && none_flagged(
                wrapinfo.plus@,
                wrapinfo.plus@.len() as int,
            ) ==> {
                &&& b.alignment@ == alignment@
                &&& same_lines(b.syntax.minus@, syntax.minus@)
                &&& same_lines(b.syntax.plus@, syntax.plus@)
                &&& same_lines(b.diff.minus@, diff.minus@)
                &&& same_lines(b.diff.plus@, diff.plus@)
            }
        },
{
    let mut new_alignment: Vec<AlignedPair> = Vec::new();
    let mut states_m: Vec<State> = Vec::new();
    let mut states_p: Vec<State> = Vec::new();
    let mut syntax_m: Vec<LineSegments<'a, SY>> = Vec::new();
    let mut syntax_p: Vec<LineSegments<'a, SY>> = Vec::new();
    let mut diff_m: Vec<LineSegments<'a, SD>> = Vec::new();
    let mut diff_p: Vec<LineSegments<'a, SD>> = Vec::new();
    let mut rows_m: Vec<usize> = Vec::new();
    let mut rows_p: Vec<usize> = Vec::new();
    let ghost al = alignment@;
    proof {
        reveal(side_rows_exact);
        assert(al.take(0) =~= Seq::<AlignedPair>::empty());
        assert(side_progress(
            rows_m@,
            states_m@,
            syntax_m@,
            diff_m@,
            syntax.minus@,
            diff.minus@,
            wrapinfo.minus@,
            State::HunkMinus,
            State::HunkMinusWrapped,
            line_width.minus,
            *wrap_config,
        )) by {
            reveal(side_progress);
        }
        assert(side_progress(
            rows_p@,
            states_p@,
            syntax_p@,
            diff_p@,
            syntax.plus@,
            diff.plus@,
            wrapinfo.plus@,
            State::HunkPlus,
            State::HunkPlusWrapped,
            line_width.plus,
            *wrap_config,
        )) by {
            reveal(side_progress);
        }
    }
    let mut k: usize = 0;
    while k < alignment.len()
        invariant
            k <= al.len(),
            al == alignment@,
            valid_alignment(al, syntax.minus@.len(), syntax.plus@.len()),
            diff.minus@.len() == syntax.minus@.len(),
            diff.plus@.len() == syntax.plus@.len(),
            wrapinfo.minus@.len() == syntax.minus@.len(),
            wrapinfo.plus@.len() == syntax.plus@.len(),
            line_width.minus < usize::MAX,
            line_width.plus < usize::MAX,
            rows_m@.len() == minus_count(al.take(k as int)),
            rows_p@.len() == plus_count(al.take(k as int)),
            new_alignment@ == expand_alignment(al.take(k as int), rows_m@, rows_p@),
            side_progress(
                rows_m@,
                states_m@,
                syntax_m@,
                diff_m@,
                syntax.minus@,
                diff.minus@,
                wrapinfo.minus@,
                State::HunkMinus,
                State::HunkMinusWrapped,
                line_width.minus,
                *wrap_config,
            ),
            side_progress(
                rows_p@,
                states_p@,
                syntax_p@,
                diff_p@,
                syntax.plus@,
                diff.plus@,
                wrapinfo.plus@,
                State::HunkPlus,
                State::HunkPlusWrapped,
                line_width.plus,
                *wrap_config,
            ),
            none_flagged(wrapinfo.minus@, rows_m@.len() as int) && none_flagged(
                wrapinfo.plus@,
                rows_p@.len() as int,
            ) ==> new_alignment@ == al.take(k as int),
            forall|i: int| 0 <= i < rows_m@.len() ==> !#[trigger] side_diverges(
                syntax.minus@,
                diff.minus@,
                wrapinfo.minus@,
                line_width.minus,
                *wrap_config,
                *styles,
                styles.diff_fill.minus,
                i,
            ),
            forall|i: int| 0 <= i < rows_p@.len() ==> !#[trigger] side_diverges(
                syntax.plus@,
                diff.plus@,
                wrapinfo.plus@,
                line_width.plus,
                *wrap_config,
                *styles,
                styles.diff_fill.plus,
                i,
            ),
            side_rows_exact(
                    rows_m@,
                    syntax_m@,
                    diff_m@,
                    syntax.minus@,
                    diff.minus@,
                    wrapinfo.minus@,
                    line_width.minus,
                    *wrap_config,
                    (
                        styles.syntax_fill,
                        styles.syntax_hint,
                        styles.syntax_marker,
                        styles.diff_fill.minus,
                        styles.diff_hint,
                        styles.diff_marker,
                    ),
                ),
            side_rows_exact(
                    rows_p@,
                    syntax_p@,
                    diff_p@,
                    syntax.plus@,
                    diff.plus@,
                    wrapinfo.plus@,
                    line_width.plus,
                    *wrap_config,
                    (
                        styles.syntax_fill,
                        styles.syntax_hint,
                        styles.syntax_marker,
                        styles.diff_fill.plus,
                        styles.diff_hint,
                        styles.diff_marker,
                    ),
                ),
        decreases al.len() - k,
    {
        let ghost rows_m0 = rows_m@;
        let ghost rows_p0 = rows_p@;
        let ghost base = new_alignment@;
        let (minus, plus) = alignment[k];
        proof {
            lemma_count_prefix(al, k + 1);
            assert(al.take(k + 1).drop_last() =~= al.take(k as int));
            assert(al.take(k + 1).last() == al[k as int]);
            assert({
                &&& al[k as int].0 is Some || al[k as int].1 is Some
                &&& al[k as int].0 is Some ==> al[k as int].0->0 == rows_m0.len()
                &&& al[k as int].1 is Some ==> al[k as int].1->0 == rows_p0.len()
                &&& minus_count(al) == syntax.minus@.len()
                &&& plus_count(al) == syntax.plus@.len()
            }) by {
                reveal(valid_alignment);
            }
        }
        let mut sm: usize = 0;
        let mut a: usize = 0;
        let mut sp: usize = 0;
        let mut b: usize = 0;
        if minus.is_some() {
            let r = advance_side(
                wrap_config,
                &mut syntax_m,
                &mut diff_m,
                &mut states_m,
                &mut rows_m,
                &syntax.minus,
                &diff.minus,
                &wrapinfo.minus,
                line_width.minus,
                &styles.syntax_fill,
                &styles.syntax_hint,
                &styles.diff_fill.minus,
                &styles.diff_hint,
                &styles.syntax_marker,
                &styles.diff_marker,
                State::HunkMinus,
                State::HunkMinusWrapped,
            );
            match r {
                None => {
                    proof {
                        assert(side_diverges(
                            syntax.minus@,
                            diff.minus@,
                            wrapinfo.minus@,
                            line_width.minus,
                            *wrap_config,
                            *styles,
                            styles.diff_fill.minus,
                            rows_m0.len() as int,
                        ));
                    }
                    return None;
                },
                Some((start, end)) => {
                    sm = start;
                    a = end - start;
                },
            }
        }
        if plus.is_some() {
            let r = advance_side(
                wrap_config,
                &mut syntax_p,
                &mut diff_p,
                &mut states_p,
                &mut rows_p,
                &syntax.plus,
                &diff.plus,
                &wrapinfo.plus,
                line_width.plus,
                &styles.syntax_fill,
                &styles.syntax_hint,
                &styles.diff_fill.plus,
                &styles.diff_hint,
                &styles.syntax_marker,
                &styles.diff_marker,
                State::HunkPlus,
                State::HunkPlusWrapped,
            );
            match r {
                None => {
                    proof {
                        assert(side_diverges(
                            syntax.plus@,
                            diff.plus@,
                            wrapinfo.plus@,
                            line_width.plus,
                            *wrap_config,
                            *styles,
                            styles.diff_fill.plus,
                            rows_p0.len() as int,
                        ));
                    }
                    return None;
                },
                Some((start, end)) => {
                    sp = start;
                    b = end - start;
                },
            }
        }
        push_block(&mut new_alignment, sm, a, sp, b);
        proof {
            lemma_expand_step(al, k as int, base, rows_m0, rows_p0, rows_m@, rows_p@, sm, a, sp, b);
            if none_flagged(wrapinfo.minus@, rows_m@.len() as int) && none_flagged(
                wrapinfo.plus@,
                rows_p@.len() as int,
            ) {
                assert(none_flagged(wrapinfo.minus@, rows_m0.len() as int));
                assert(none_flagged(wrapinfo.plus@, rows_p0.len() as int));
                assert(new_alignment@ =~= al.take(k + 1));
            }
        }
        k = k + 1;
    }
    proof {
        assert(al.take(al.len() as int) =~= al);
        assert(minus_count(al) == syntax.minus@.len() && plus_count(al) == syntax.plus@.len()) by {
            reveal(valid_alignment);
        }
        reveal(side_progress);
        if none_flagged(wrapinfo.minus@, wrapinfo.minus@.len() as int) {
            assert(rows_m@.len() == wrapinfo.minus@.len());
            assert(same_lines(syntax_m@, syntax.minus@));
            assert forall|i: int| 0 <= i < diff_m@.len() implies (#[trigger] diff_m@[i])@
                == diff.minus@[i]@ by {
                assert(syntax_m@[i]@ == syntax.minus@[i]@);
            }
            assert(same_lines(diff_m@, diff.minus@));
        }
        if none_flagged(wrapinfo.plus@, wrapinfo.plus@.len() as int) {
            assert(rows_p@.len() == wrapinfo.plus@.len());
            assert(same_lines(syntax_p@, syntax.plus@));
            assert forall|i: int| 0 <= i < diff_p@.len() implies (#[trigger] diff_p@[i])@
                == diff.plus@[i]@ by {
                assert(syntax_p@[i]@ == syntax.plus@[i]@);
            }
            assert(same_lines(diff_p@, diff.plus@));
        }
    }
    Some(
        WrappedBlock {
            alignment: new_alignment,
            states: MinusPlus::new(states_m, states_p),
            syntax: MinusPlus::new(syntax_m, syntax_p),
            diff: MinusPlus::new(diff_m, diff_p),
            rows: MinusPlus::new(rows_m, rows_p),
        },
    )
}

/// `wrap_minusplus_block` for a block in which the syntax- and the
/// diff-highlighted form of every flagged line wrap into the same number of
/// lines, as forms of the same text do; then the block is always wrapped.
pub fn wrap_minusplus_block_exact<'a, SY: Copy + Default, SD: Copy + Default>(
    wrap_config: &'a WrapConfig,
    styles: &WrapStyles<SY, SD>,
    syntax: &MinusPlus<Vec<LineSegments<'a, SY>>>,
    diff: &MinusPlus<Vec<LineSegments<'a, SD>>>,
    alignment: &Vec<AlignedPair>,
    line_width: &MinusPlus<usize>,
    wrapinfo: &MinusPlus<Vec<bool>>,
) -> (b: WrappedBlock<'a, SY, SD>)
    requires
        valid_alignment(alignment@, syntax.minus@.len(), syntax.plus@.len()),
        diff.minus@.len() == syntax.minus@.len(),
        diff.plus@.len() == syntax.plus@.len(),
        wrapinfo.minus@.len() == syntax.minus@.len(),
        wrapinfo.plus@.len() == syntax.plus@.len(),
        line_width.minus < usize::MAX,
        line_width.plus < usize::MAX,
        !((exists|i: int|
            0 <= i < syntax.minus@.len() && #[trigger] side_diverges(
                syntax.minus@,
                diff.minus@,
                wrapinfo.minus@,
                line_width.minus,
                *wrap_config,
                *styles,
                styles.diff_fill.minus,
                i,
            )) || (exists|i: int|
            0 <= i < syntax.plus@.len() && #[trigger] side_diverges(
                syntax.plus@,
                diff.plus@,
                wrapinfo.plus@,
                line_width.plus,
                *wrap_config,
                *styles,
                styles.diff_fill.plus,
                i,
            ))),
    ensures
        ({
            &&& b.alignment@ == expand_alignment(alignment@, b.rows.minus@, b.rows.plus@)
            &&& side_rows_exact(
            b.rows.minus@,
            b.syntax.minus@,
            b.diff.minus@,
            syntax.minus@,
            diff.minus@,
            wrapinfo.minus@,
            line_width.minus,
            *wrap_config,
            (
                styles.syntax_fill,
                styles.syntax_hint,
                styles.syntax_marker,
                styles.diff_fill.minus,
                styles.diff_hint,
                styles.diff_marker,
            ),
        )
            &&& side_rows_exact(
            b.rows.plus@,
            b.syntax.plus@,
            b.diff.plus@,
            syntax.plus@,
            diff.plus@,
            wrapinfo.plus@,
            line_width.plus,
            *wrap_config,
            (
                styles.syntax_fill,
                styles.syntax_hint,
                styles.syntax_marker,
                styles.diff_fill.plus,
                styles.diff_hint,
                styles.diff_marker,
            ),
        )
            &&& side_result(
                b.rows.minus@,
                b.states.minus@,
                b.syntax.minus@,
                b.diff.minus@,
                syntax.minus@,
                diff.minus@,
                wrapinfo.minus@,
                State::HunkMinus,
                State::HunkMinusWrapped,
                line_width.minus,
                *wrap_config,
            )
            &&& side_result(
                b.rows.plus@,
                b.states.plus@,
                b.syntax.plus@,
                b.diff.plus@,
                syntax.plus@,
                diff.plus@,
                wrapinfo.plus@,
                State::HunkPlus,
                State::HunkPlusWrapped,
                line_width.plus,
                *wrap_config,
            )
            &&& none_flagged(wrapinfo.minus@, wrapinfo.minus@.len() as int) && none_flagged(
                wrapinfo.plus@,
                wrapinfo.plus@.len() as int,
            ) ==> {
                &&& b.alignment@ == alignment@
                &&& same_lines(b.syntax.minus@, syntax.minus@)
                &&& same_lines(b.syntax.plus@, syntax.plus@)
                &&& same_lines(b.diff.minus@, diff.minus@)
                &&& same_lines(b.diff.plus@, diff.plus@)
            }
        }),
{
    match wrap_minusplus_block(wrap_config, styles, syntax, diff, alignment, line_width, wrapinfo) {
        Some(b) => b,
        None => unreached(),
    }
}

/// Row count of a wrapped pair: a minus line of `a` physical rows paired
/// with a plus line of `b` physical rows becomes `max(a, b)` aligned rows,
/// and exactly the last `|a - b|` of them have one side empty.
pub proof fn lemma_pair_row_count(m: usize, p: usize, rows_m: Seq<usize>, rows_p: Seq<usize>)
    requires
        m < rows_m.len(),
        p < rows_p.len(),
        rows_m[m as int] >= 1,
        rows_p[p as int] >= 1,
    ensures
        ({
            let a = rows_m[m as int] as int;
            let b = rows_p[p as int] as int;
            let block = entry_block((Some(m), Some(p)), rows_m, rows_p);
            &&& block.len() == if a >= b { a } else { b }
            &&& forall|j: int|
                0 <= j < block.len() ==> (((#[trigger] block[j]).0 is None || block[j].1 is None)
                    <==> j >= (if a <= b { a } else { b }))
        }),
{
    let a = rows_m[m as int] as int;
    let b = rows_p[p as int] as int;
    let block = entry_block((Some(m), Some(p)), rows_m, rows_p);
    assert forall|j: int| 0 <= j < block.len() implies ((#[trigger] block[j]).0 is None
        || block[j].1 is None) <==> j >= (if a <= b { a } else { b }) by {
        assert(block[j] == block_pair(row_start(rows_m, m as int), a, row_start(rows_p, p as int), b, j));
    }
}

/// The states of one side at the rows of its logical line `i`: the first
/// row keeps `first`, every later one is `wrapped`.
pub proof fn lemma_side_states_at(rows: Seq<usize>, first: State, wrapped: State, i: int, j: int)
    requires
        0 <= i < rows.len(),
        0 <= j < rows[i],
    ensures
        side_states(rows, first, wrapped).len() == row_start(rows, rows.len() as int),
        side_states(rows, first, wrapped)[row_start(rows, i) + j] == if j == 0 {
            first
        } else {
            wrapped
        },
    decreases rows.len(),
{
    lemma_side_states_len(rows, first, wrapped);
    let pre = rows.drop_last();
    lemma_side_states_len(pre, first, wrapped);
    assert forall|t: int| 0 <= t <= pre.len() implies row_start(rows, t) == row_start(pre, t) by {
        assert(pre.push(rows.last()) =~= rows);
        lemma_row_start_push(pre, rows.last(), t);
    }
    let whole = side_states(rows, first, wrapped);
    let front = side_states(pre, first, wrapped);
    assert(whole == front + line_states(rows.last(), first, wrapped));
    if i < rows.len() - 1 {
        assert(pre[i] == rows[i]);
        lemma_side_states_at(pre, first, wrapped, i, j);
        lemma_row_start_mono(pre, i + 1, pre.len() as int);
        lemma_row_start_mono(pre, 0, i);
        assert(row_start(pre, i + 1) == row_start(pre, i) + pre[i]);
        assert(whole[row_start(rows, i) + j] == front[row_start(pre, i) + j]);
    } else {
        assert(i == pre.len());
        assert(row_start(rows, i) == front.len());
        let tail = line_states(rows.last(), first, wrapped);
        assert(whole[row_start(rows, i) + j] == tail[j]);
        if j > 0 {
            assert(tail[j] == Seq::new((rows.last() - 1) as nat, |t: int| wrapped)[j - 1]);
        }
    }
}

proof fn lemma_side_states_len(rows: Seq<usize>, first: State, wrapped: State)
    ensures
        side_states(rows, first, wrapped).len() == row_start(rows, rows.len() as int),
    decreases rows.len(),
{
    if rows.len() > 0 {
        let pre = rows.drop_last();
        lemma_side_states_len(pre, first, wrapped);
        assert(pre.push(rows.last()) =~= rows);
        lemma_row_start_push(pre, rows.last(), pre.len() as int);
    }
}

/// The rows that one entry `e` of an alignment becomes start with one row
/// that holds the first physical row of each of its lines, in the state the
/// line had (`HunkMinus`, `HunkPlus`); every row after it holds only
/// continuation rows (`HunkMinusWrapped`, `HunkPlusWrapped`) or nothing.
pub proof fn lemma_entry_first_row(e: AlignedPair, rows_m: Seq<usize>, rows_p: Seq<usize>)
    requires
        row_start(rows_m, rows_m.len() as int) <= usize::MAX,
        row_start(rows_p, rows_p.len() as int) <= usize::MAX,
        e.0 is Some || e.1 is Some,
        e.0 is Some ==> e.0->0 < rows_m.len() && rows_m[e.0->0 as int] >= 1,
        e.1 is Some ==> e.1->0 < rows_p.len() && rows_p[e.1->0 as int] >= 1,
    ensures
        ({
            let block = entry_block(e, rows_m, rows_p);
            let sm = side_states(rows_m, State::HunkMinus, State::HunkMinusWrapped);
            let sp = side_states(rows_p, State::HunkPlus, State::HunkPlusWrapped);
            &&& block.len() >= 1
            &&& block[0].0 == (match e.0 {
                Some(m) => Some(row_start(rows_m, m as int) as usize),
                None => None,
            })
            &&& block[0].1 == (match e.1 {
                Some(p) => Some(row_start(rows_p, p as int) as usize),
                None => None,
            })
            &&& block[0].0 matches Some(i) ==> sm[i as int] == State::HunkMinus
            &&& block[0].1 matches Some(i) ==> sp[i as int] == State::HunkPlus
            &&& forall|j: int|
                1 <= j < block.len() ==> ((#[trigger] block[j]).0 matches Some(i) ==> sm[i as int]
                    == State::HunkMinusWrapped)
            &&& forall|j: int|
                1 <= j < block.len() ==> ((#[trigger] block[j]).1 matches Some(i) ==> sp[i as int]
                    == State::HunkPlusWrapped)
        }),
{
    let block = entry_block(e, rows_m, rows_p);
    if let Some(m) = e.0 {
        lemma_side_states_at(rows_m, State::HunkMinus, State::HunkMinusWrapped, m as int, 0);
        assert forall|j: int| 1 <= j < block.len() implies ((#[trigger] block[j]).0 matches Some(i)
            ==> side_states(rows_m, State::HunkMinus, State::HunkMinusWrapped)[i as int]
            == State::HunkMinusWrapped) by {
            if j < rows_m[m as int] {
                lemma_side_states_at(rows_m, State::HunkMinus, State::HunkMinusWrapped, m as int, j);
                lemma_row_start_mono(rows_m, m as int + 1, rows_m.len() as int);
                lemma_row_start_mono(rows_m, 0, m as int);
                lemma_side_states_len(rows_m, State::HunkMinus, State::HunkMinusWrapped);
            }
        }
        lemma_row_start_mono(rows_m, 0, m as int);
        lemma_row_start_mono(rows_m, m as int + 1, rows_m.len() as int);
        lemma_side_states_len(rows_m, State::HunkMinus, State::HunkMinusWrapped);
    }
    if let Some(p) = e.1 {
        lemma_side_states_at(rows_p, State::HunkPlus, State::HunkPlusWrapped, p as int, 0);
        assert forall|j: int| 1 <= j < block.len() implies ((#[trigger] block[j]).1 matches Some(i)
            ==> side_states(rows_p, State::HunkPlus, State::HunkPlusWrapped)[i as int]
            == State::HunkPlusWrapped) by {
            if j < rows_p[p as int] {
                lemma_side_states_at(rows_p, State::HunkPlus, State::HunkPlusWrapped, p as int, j);
                lemma_row_start_mono(rows_p, p as int + 1, rows_p.len() as int);
                lemma_row_start_mono(rows_p, 0, p as int);
                lemma_side_states_len(rows_p, State::HunkPlus, State::HunkPlusWrapped);
            }
        }
        lemma_row_start_mono(rows_p, 0, p as int);
        lemma_row_start_mono(rows_p, p as int + 1, rows_p.len() as int);
        lemma_side_states_len(rows_p, State::HunkPlus, State::HunkPlusWrapped);
    }
}

/// Is `line` too long for `line_width` columns? Its leading marker and its
/// trailing newline are counted but never shown, so two more graphemes are
/// allowed.
pub fn line_is_too_long(line: &str, line_width: usize) -> (r: bool)
    ensures
        r == (grapheme_count(line@) > line_width as int + 2),
{
    let clusters = graphemes(line);
    proof {
        assert(clusters@.len() == grapheme_clusters(line@).len());
    }
    clusters.len() > 2 && clusters.len() - 2 > line_width
}

/// Is the context line too long for `width` columns, and do its two forms
/// wrap into different numbers of lines?
pub open spec fn zero_forms_diverge<'a, SY, SD>(
    raw_line: Seq<char>,
    syntax_line: Seq<(SY, &'a str)>,
    diff_line: Seq<(SD, &'a str)>,
    width: usize,
    cfg: WrapConfig,
    styles: WrapStyles<SY, SD>,
) -> bool {
    &&& grapheme_count(raw_line) > width as int + 2
    &&& wrap_rows(
        line_pieces(syntax_line),
        width as int,
        cfg,
        styles.syntax_fill,
        styles.syntax_hint,
        styles.syntax_marker,
    ).len() != wrap_rows(
        line_pieces(diff_line),
        width as int,
        cfg,
        styles.zero_fill,
        styles.diff_hint,
        styles.diff_marker,
    ).len()
}

/// Wrap one context line, given as one syntax- and one diff-highlighted
/// line, if it is too long for the narrower of the two panels. Its first
/// physical row keeps its state, the rows after it are `HunkZeroWrapped`.
pub fn wrap_zero_block<'a, SY: Copy + Default, SD: Copy + Default>(
    wrap_config: &'a WrapConfig,
    styles: &WrapStyles<SY, SD>,
    raw_line: &str,
    states: Vec<State>,
    syntax_style_sections: Vec<LineSegments<'a, SY>>,
    diff_style_sections: Vec<LineSegments<'a, SD>>,
    line_width: &MinusPlus<usize>,
) -> (r: Option<(Vec<State>, Vec<LineSegments<'a, SY>>, Vec<LineSegments<'a, SD>>)>)
    requires
        states@.len() == 1,
        syntax_style_sections@.len() == 1,
        diff_style_sections@.len() == 1,
        line_width.minus < usize::MAX,
        line_width.plus < usize::MAX,
    ensures
        ({
            let w = if line_width.minus <= line_width.plus {
                line_width.minus
            } else {
                line_width.plus
            };
            let too_long = grapheme_count(raw_line@) > w as int + 2;
            let syntax_rows = wrap_rows(
                line_pieces(syntax_style_sections@[0]@),
                w as int,
                *wrap_config,
                styles.syntax_fill,
                styles.syntax_hint,
                styles.syntax_marker,
            );
            let diff_rows = wrap_rows(
                line_pieces(diff_style_sections@[0]@),
                w as int,
                *wrap_config,
                styles.zero_fill,
                styles.diff_hint,
                styles.diff_marker,
            );
            &&& r is None <==> zero_forms_diverge(
                raw_line@,
                syntax_style_sections@[0]@,
                diff_style_sections@[0]@,
                w,
                *wrap_config,
                *styles,
            )
            &&& r matches Some(t) ==> {
                &&& !too_long ==> t.0@ == states@ && t.1@ == syntax_style_sections@ && t.2@
                    == diff_style_sections@
                &&& too_long ==> wraps_as(t.1@, syntax_style_sections@[0]@, w, *wrap_config)
                    && wraps_as(t.2@, diff_style_sections@[0]@, w, *wrap_config)
                &&& too_long ==> rows_view(t.1@) == syntax_rows && rows_view(t.2@) == diff_rows
                &&& t.0@.len() == t.1@.len()
                &&& t.2@.len() == t.1@.len()
                &&& t.0@.len() > 0 ==> t.0@[0] == states@[0]
                &&& forall|i: int| 1 <= i < t.0@.len() ==> t.0@[i] == State::HunkZeroWrapped
            }
        }),
{
    let w: usize = if line_width.minus <= line_width.plus {
        line_width.minus
    } else {
        line_width.plus
    };
    if !line_is_too_long(raw_line, w) {
        return Some((states, syntax_style_sections, diff_style_sections));
    }
    let syntax_rows = wrap_line_marked(
        wrap_config,
        &syntax_style_sections[0],
        w,
        &styles.syntax_fill,
        &styles.syntax_hint,
        &styles.syntax_marker,
    );
    let diff_rows = wrap_line_marked(
        wrap_config,
        &diff_style_sections[0],
        w,
        &styles.zero_fill,
        &styles.diff_hint,
        &styles.diff_marker,
    );
    proof {
        lemma_views_basic(syntax_rows@, Seq::<(SY, &str)>::empty(), Seq::<Piece<'a, SY>>::empty());
        lemma_views_basic(diff_rows@, Seq::<(SD, &str)>::empty(), Seq::<Piece<'a, SD>>::empty());
    }
    if syntax_rows.len() != diff_rows.len() {
        return None;
    }
    let mut new_states: Vec<State> = Vec::new();
    let mut i: usize = 0;
    while i < syntax_rows.len()
        invariant
            i <= syntax_rows@.len(),
            states@.len() == 1,
            new_states@.len() == i,
            i > 0 ==> new_states@[0] == states@[0],
            forall|j: int| 1 <= j < i ==> new_states@[j] == State::HunkZeroWrapped,
        decreases syntax_rows@.len() - i,
    {
        if i == 0 {
            new_states.push(states[0]);
        } else {
            new_states.push(State::HunkZeroWrapped);
        }
        i = i + 1;
    }
    Some((new_states, syntax_rows, diff_rows))
}

} // verus!
