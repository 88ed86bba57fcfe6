//! The sticky header that repeats a message's first line: where search matches
//! in the message text are highlighted, and which segments the header keeps.
use crate::user_message_content::{
    display_text_of, segments_view, span_of, SegmentView, Span,
    UserMessageContentLineSegment, UserMessageContentSegment,
};
use core::ops::Range;
use vstd::prelude::*;
use vstd::utf8::{encode_utf8, is_char_boundary};

verus! {

/// A search match, in bytes of a segment's display text.
#[derive(Clone, Debug, PartialEq, Eq)]
pub struct StickyUserMessageSearchHighlight {
    pub range: Range<usize>,
    pub is_active: bool,
}

pub struct HighlightView {
    pub range: Span,
    pub is_active: bool,
}

impl View for StickyUserMessageSearchHighlight {
    type V = HighlightView;

    open spec fn view(&self) -> HighlightView {
        HighlightView { range: span_of(self.range), is_active: self.is_active }
    }
}

/// The highlights of each segment of the header, segment by segment.
#[derive(Clone, Debug, PartialEq, Eq)]
pub struct StickyUserMessageSearchHighlights {
    pub segment_ranges: Vec<Vec<StickyUserMessageSearchHighlight>>,
}

pub open spec fn highlight_list_view(hs: Seq<StickyUserMessageSearchHighlight>) -> Seq<HighlightView> {
    hs.map_values(|h: StickyUserMessageSearchHighlight| h@)
}

impl View for StickyUserMessageSearchHighlights {
    type V = Seq<Seq<HighlightView>>;

    open spec fn view(&self) -> Seq<Seq<HighlightView>> {
        self.segment_ranges@.map_values(|hs: Vec<StickyUserMessageSearchHighlight>| highlight_list_view(hs@))
    }
}

/// The UTF-8 bytes of the text a segment is displayed with.
pub open spec fn display_bytes(s: SegmentView) -> Seq<u8> {
    encode_utf8(display_text_of(s))
}

/// Segment `s` stands for bytes of the message text that hold all of `m`.
pub open spec fn covers(s: SegmentView, m: Span) -> bool {
    s.source matches Some(r) && r.start <= m.start && m.end <= r.end
}

/// The first segment, from index `i` on, that holds all of `m`.
pub open spec fn first_covering(segs: Seq<SegmentView>, m: Span, i: int) -> Option<int>
    decreases segs.len() - i,
{
    if 0 <= i < segs.len() {
        if covers(segs[i], m) {
            Some(i)
        } else {
            first_covering(segs, m, i + 1)
        }
    } else {
        None
    }
}

proof fn lemma_first_covering_in_range(segs: Seq<SegmentView>, m: Span, i: int)
    requires
        0 <= i,
    ensures
        first_covering(segs, m, i) matches Some(r) ==> i <= r < segs.len() && covers(segs[r], m),
    decreases segs.len() - i,
{
    if 0 <= i < segs.len() && !covers(segs[i], m) {
        lemma_first_covering_in_range(segs, m, i + 1);
    }
}

/// Where match `m` is highlighted: the first segment that holds it, and the
/// match moved into that segment's display text. A match that is empty, that
/// no segment holds, or that does not fall on whole chars of the display text
/// is not highlighted.
pub open spec fn placement(segs: Seq<SegmentView>, m: Span) -> Option<(int, Span)> {
    if m.start >= m.end {
        None
    } else {
        match first_covering(segs, m, 0) {
            Some(i) => {
                let origin = segs[i].source->0.start;
                let d = Span { start: m.start - origin, end: m.end - origin };
                let bytes = display_bytes(segs[i]);
                if d.end <= bytes.len() && is_char_boundary(bytes, d.start) && is_char_boundary(
                    bytes,
                    d.end,
                ) {
                    Some((i, d))
                } else {
                    None
                }
            },
            None => None,
        }
    }
}

pub open spec fn match_span(m: (Range<usize>, bool)) -> (Span, bool) {
    (span_of(m.0), m.1)
}

/// The highlights of matches `ms`, in order: `None` until one is placed, then
/// one list per segment, each match appended to the list of its segment.
pub open spec fn highlights_of(segs: Seq<SegmentView>, ms: Seq<(Span, bool)>) -> Option<
    Seq<Seq<HighlightView>>,
>
    decreases ms.len(),
{
    if ms.len() == 0 {
        None
    } else {
        let prev = highlights_of(segs, ms.drop_last());
        match placement(segs, ms.last().0) {
            None => prev,
            Some((i, d)) => {
                let base = match prev {
                    Some(h) => h,
                    None => Seq::new(segs.len(), |k: int| Seq::<HighlightView>::empty()),
                };
                Some(base.update(i, base[i].push(HighlightView { range: d, is_active: ms.last().1 })))
            },
        }
    }
}

pub open spec fn opt_highlights_view(h: Option<StickyUserMessageSearchHighlights>) -> Option<
    Seq<Seq<HighlightView>>,
> {
    match h {
        Some(h) => Some(h@),
        None => None,
    }
}

proof fn lemma_placement_in_range(segs: Seq<SegmentView>, m: Span)
    ensures
        placement(segs, m) matches Some((i, d)) ==> 0 <= i < segs.len(),
{
    lemma_first_covering_in_range(segs, m, 0);
}

proof fn lemma_highlights_shape(segs: Seq<SegmentView>, ms: Seq<(Span, bool)>)
    ensures
        highlights_of(segs, ms) matches Some(h) ==> h.len() == segs.len(),
    decreases ms.len(),
{
    if ms.len() > 0 {
        lemma_highlights_shape(segs, ms.drop_last());
        lemma_placement_in_range(segs, ms.last().0);
    }
}

/// Every highlight is a non-empty range of whole chars of its segment's
/// display text which, moved back by where the segment stands, lies in what
/// the segment stands for; and there is one list of highlights per segment.
pub open spec fn highlights_fit_segments(segs: Seq<SegmentView>, h: Seq<Seq<HighlightView>>) -> bool {
    &&& h.len() == segs.len()
    &&& forall|i: int, j: int|
        #![trigger h[i][j]]
        0 <= i < h.len() && 0 <= j < h[i].len() ==> {
            &&& 0 <= h[i][j].range.start < h[i][j].range.end <= display_bytes(segs[i]).len()
            &&& is_char_boundary(display_bytes(segs[i]), h[i][j].range.start)
            &&& is_char_boundary(display_bytes(segs[i]), h[i][j].range.end)
            &&& segs[i].source matches Some(src) && src.start + h[i][j].range.end <= src.end
        }
}

/// Whatever the matches, the highlights found fit the segments they are in.
pub proof fn lemma_highlights_fit_segments(segs: Seq<SegmentView>, ms: Seq<(Span, bool)>)
    ensures
        highlights_of(segs, ms) matches Some(h) ==> highlights_fit_segments(segs, h),
    decreases ms.len(),
{
    if ms.len() > 0 {
        lemma_highlights_fit_segments(segs, ms.drop_last());
        lemma_highlights_shape(segs, ms.drop_last());
        lemma_placement_in_range(segs, ms.last().0);
        lemma_first_covering_in_range(segs, ms.last().0, 0);
        let prev = highlights_of(segs, ms.drop_last());
        if let Some((i, d)) = placement(segs, ms.last().0) {
            let base = match prev {
                Some(h) => h,
                None => Seq::new(segs.len(), |k: int| Seq::<HighlightView>::empty()),
            };
            let h = highlights_of(segs, ms)->0;
            assert(h == base.update(i, base[i].push(HighlightView { range: d, is_active: ms.last().1 })));
            assert forall|a: int, b: int| 0 <= a < h.len() && 0 <= b < h[a].len() implies {
                &&& 0 <= #[trigger] h[a][b].range.start < h[a][b].range.end <= display_bytes(segs[a]).len()
                &&& is_char_boundary(display_bytes(segs[a]), h[a][b].range.start)
                &&& is_char_boundary(display_bytes(segs[a]), h[a][b].range.end)
                &&& segs[a].source matches Some(src) && src.start + h[a][b].range.end <= src.end
            } by {
                if a == i && b == base[i].len() {
                } else {
                    assert(h[a][b] == base[a][b]);
                }
            }
        }
    }
}

/// `prev` with the highlights of matches `ms` added, in order.
pub open spec fn extend_highlights(
    prev: Option<Seq<Seq<HighlightView>>>,
    segs: Seq<SegmentView>,
    ms: Seq<(Span, bool)>,
) -> Option<Seq<Seq<HighlightView>>>
    decreases ms.len(),
{
    if ms.len() == 0 {
        prev
    } else {
        let before = extend_highlights(prev, segs, ms.drop_last());
        match placement(segs, ms.last().0) {
            None => before,
            Some((i, d)) => {
                let base = match before {
                    Some(h) => h,
                    None => Seq::new(segs.len(), |k: int| Seq::<HighlightView>::empty()),
                };
                Some(base.update(i, base[i].push(HighlightView { range: d, is_active: ms.last().1 })))
            },
        }
    }
}

proof fn lemma_highlights_split(segs: Seq<SegmentView>, xs: Seq<(Span, bool)>, ys: Seq<(Span, bool)>)
    ensures
        highlights_of(segs, xs + ys) == extend_highlights(highlights_of(segs, xs), segs, ys),
    decreases ys.len(),
{
    if ys.len() == 0 {
        assert(xs + ys =~= xs);
    } else {
        assert((xs + ys).drop_last() =~= xs + ys.drop_last());
        assert((xs + ys).last() == ys.last());
        lemma_highlights_split(segs, xs, ys.drop_last());
    }
}

/// A match that cannot be highlighted (it is empty, no segment holds it, or
/// it does not fall on whole chars of the segment's display text) changes
/// nothing, wherever it stands among the matches.
pub proof fn lemma_unplaced_match_changes_nothing(
    segs: Seq<SegmentView>,
    xs: Seq<(Span, bool)>,
    m: (Span, bool),
    ys: Seq<(Span, bool)>,
)
    requires
        placement(segs, m.0) is None,
    ensures
        highlights_of(segs, xs.push(m) + ys) == highlights_of(segs, xs + ys),
{
    lemma_highlights_split(segs, xs.push(m), ys);
    lemma_highlights_split(segs, xs, ys);
    assert(xs.push(m).drop_last() =~= xs);
}

/// An empty match, or one that no segment holds, cannot be highlighted.
pub proof fn lemma_empty_or_uncovered_match_is_unplaced(segs: Seq<SegmentView>, m: Span)
    requires
        m.start >= m.end || forall|i: int| 0 <= i < segs.len() ==> !covers(#[trigger] segs[i], m),
    ensures
        placement(segs, m) is None,
{
    if m.start < m.end {
        lemma_first_covering_in_range(segs, m, 0);
    }
}

/// Which segment holds match `start..end`, scanning in order.
fn find_covering(segments: &[UserMessageContentLineSegment], start: usize, end: usize) -> (r: Option<
    usize,
>)
    ensures
        match r {
            Some(i) => i < segments.len() && first_covering(
                segments_view(segments@),
                Span { start: start as int, end: end as int },
                0,
            ) == Some(i as int),
            None => first_covering(
                segments_view(segments@),
                Span { start: start as int, end: end as int },
                0,
            ) is None,
        },
{
    let ghost segs = segments_view(segments@);
    let ghost m = Span { start: start as int, end: end as int };
    let mut i: usize = 0;
    while i < segments.len()
        invariant
            segs == segments_view(segments@),
            m == (Span { start: start as int, end: end as int }),
            i <= segments.len(),
            first_covering(segs, m, 0) == first_covering(segs, m, i as int),
        decreases segments.len() - i,
    {
        assert(segs[i as int] == segments@[i as int]@);
        match &segments[i].source_range {
            Some(r) => {
                if start >= r.start && end <= r.end {
                    return Some(i);
                }
            },
            None => {},
        }
        i = i + 1;
    }
    None
}

/// The lists in `ranges`, or `n` empty lists when there are none yet.
spec fn base_lists(ranges: Option<Vec<Vec<StickyUserMessageSearchHighlight>>>, n: usize) -> Seq<
    Seq<HighlightView>,
> {
    match ranges {
        Some(v) => v@.map_values(|hs: Vec<StickyUserMessageSearchHighlight>| highlight_list_view(hs@)),
        None => Seq::new(n as nat, |k: int| Seq::<HighlightView>::empty()),
    }
}

/// `ranges` (or, when there are none yet, one empty list per segment) with
/// highlight `h` appended to the list of segment `i`.
fn with_highlight(
    ranges: Option<Vec<Vec<StickyUserMessageSearchHighlight>>>,
    n: usize,
    i: usize,
    h: StickyUserMessageSearchHighlight,
) -> (r: Vec<Vec<StickyUserMessageSearchHighlight>>)
    requires
        i < n,
        ranges matches Some(v) ==> v.len() == n,
    ensures
        ({
            let base = base_lists(ranges, n);
            r@.map_values(|hs: Vec<StickyUserMessageSearchHighlight>| highlight_list_view(hs@))
                == base.update(i as int, base[i as int].push(h@))
        }),
{
    let ghost base = base_lists(ranges, n);
    let mut v = match ranges {
        Some(v) => v,
        None => {
            let mut v: Vec<Vec<StickyUserMessageSearchHighlight>> = Vec::new();
            let mut j: usize = 0;
            while j < n
                invariant
                    j <= n,
                    v.len() == j,
                    forall|q: int| 0 <= q < j ==> (#[trigger] v@[q])@.len() == 0,
                decreases n - j,
            {
                v.push(Vec::new());
                j = j + 1;
            }
            assert forall|q: int| 0 <= q < n implies highlight_list_view(#[trigger] v@[q]@)
                =~= Seq::<HighlightView>::empty() by {}
            assert(v@.map_values(|hs: Vec<StickyUserMessageSearchHighlight>| highlight_list_view(hs@))
                =~= base);
            v
        },
    };
    assert(v@.map_values(|hs: Vec<StickyUserMessageSearchHighlight>| highlight_list_view(hs@))
        == base);
    let ghost before = v@;
    v[i].push(h);
    assert forall|q: int| 0 <= q < n && q != i implies v@[q] == before[q] by {}
    assert(highlight_list_view(v@[i as int]@) =~= base[i as int].push(h@));
    assert(v@.map_values(|hs: Vec<StickyUserMessageSearchHighlight>| highlight_list_view(hs@))
        =~= base.update(i as int, base[i as int].push(h@)));
    v
}

/// The highlights of the search matches `matches` (byte ranges of the message
/// text, each with whether it is the active match) in the header showing
/// `segments`, or `None` when no match can be highlighted there.
pub fn sticky_user_message_search_highlights(
    segments: &[UserMessageContentLineSegment],
    matches: &[(Range<usize>, bool)],
) -> (r: Option<StickyUserMessageSearchHighlights>)
    requires
        forall|i: int|
            0 <= i < segments.len() ==> #[trigger] display_bytes(segments@[i]@).len()
                <= usize::MAX,
    ensures
        opt_highlights_view(r) == highlights_of(
            segments_view(segments@),
            matches@.map_values(|m: (Range<usize>, bool)| match_span(m)),
        ),
        r matches Some(h) ==> highlights_fit_segments(segments_view(segments@), h@),
{
    let ghost segs = segments_view(segments@);
    let ghost ms = matches@.map_values(|m: (Range<usize>, bool)| match_span(m));
    let mut segment_ranges: Option<Vec<Vec<StickyUserMessageSearchHighlight>>> = None;
    let mut k: usize = 0;
    proof {
        assert(ms.take(0) =~= Seq::<(Span, bool)>::empty());
    }
    while k < matches.len()
        invariant
            segs == segments_view(segments@),
            ms == matches@.map_values(|m: (Range<usize>, bool)| match_span(m)),
            k <= matches.len(),
            forall|i: int|
                0 <= i < segments.len() ==> #[trigger] display_bytes(segments@[i]@).len()
                    <= usize::MAX,
            (match segment_ranges {
                Some(v) => Some(
                    v@.map_values(
                        |hs: Vec<StickyUserMessageSearchHighlight>| highlight_list_view(hs@),
                    ),
                ),
                None => None,
            }) == highlights_of(segs, ms.take(k as int)),
        decreases matches.len() - k,
    {
        proof {
            assert(ms.take(k + 1).drop_last() =~= ms.take(k as int));
            lemma_highlights_shape(segs, ms.take(k as int));
        }
        let ghost prev = highlights_of(segs, ms.take(k as int));
        let start = matches[k].0.start;
        let end = matches[k].0.end;
        let is_active = matches[k].1;
        let ghost m = Span { start: start as int, end: end as int };
        assert(ms.take(k + 1).last() == (m, is_active));
        if start < end {
            if let Some(i) = find_covering(segments, start, end) {
                let segment = &segments[i];
                assert(segs[i as int] == segment@);
                proof {
                    lemma_first_covering_in_range(segs, m, 0);
                }
                let origin = match &segment.source_range {
                    Some(r) => r.start,
                    None => 0,
                };
                let display_start = start - origin;
                let display_end = end - origin;
                let display_text = segment.display_text();
                proof {
                    vstd::utf8::encode_utf8_valid_utf8(display_text@);
                }
                if display_end <= display_text.len() && display_text.is_char_boundary(display_start)
                    && display_text.is_char_boundary(display_end) {
                    proof {
                        lemma_highlights_shape(segs, ms.take(k as int));
                    }
                    let h = StickyUserMessageSearchHighlight {
                        range: display_start..display_end,
                        is_active,
                    };
                    segment_ranges = Some(with_highlight(segment_ranges, segments.len(), i, h));
                }
            }
        }
        k = k + 1;
    }
    proof {
        assert(ms.take(matches.len() as int) =~= ms);
        lemma_highlights_fit_segments(segs, ms);
    }
    match segment_ranges {
        Some(v) => Some(StickyUserMessageSearchHighlights { segment_ranges: v }),
        None => None,
    }
}


/// How many segments fit in the header's width, and whether an ellipsis is
/// shown after them.
#[derive(Clone, Copy, Debug, PartialEq, Eq)]
pub struct StickyUserMessageFit {
    pub visible_segment_count: usize,
    pub show_ellipsis: bool,
}

/// What the header renders: the first `visible_segment_count` segments, the
/// one at `truncated_text_index` (if any) cut to the remaining width, and an
/// ellipsis after them when `show_ellipsis` holds.
#[derive(Clone, Copy, Debug, PartialEq, Eq)]
pub struct StickyPreviewLayout {
    pub visible_segment_count: usize,
    pub truncated_text_index: Option<usize>,
    pub show_ellipsis: bool,
}

/// The segment is prose.
pub open spec fn is_text_segment(s: SegmentView) -> bool {
    s.content is Text
}

/// The first segment that did not fit is prose, so it is kept and cut short.
pub open spec fn includes_dropped_text(segs: Seq<SegmentView>, fit: StickyUserMessageFit) -> bool {
    fit.visible_segment_count < segs.len() && is_text_segment(segs[fit.visible_segment_count as int])
}

/// The layout of a header showing `segs` when `fit` is what fits: a prose
/// segment that did not fit is kept and truncated in place of the ellipsis; a
/// lone prose segment is truncated to the width; otherwise an ellipsis follows
/// the kept segments when the message goes on or some segment was dropped.
pub open spec fn layout_of(segs: Seq<SegmentView>, fit: StickyUserMessageFit) -> StickyPreviewLayout {
    let keep_dropped = includes_dropped_text(segs, fit);
    let visible = if keep_dropped {
        (fit.visible_segment_count + 1) as usize
    } else {
        fit.visible_segment_count
    };
    StickyPreviewLayout {
        visible_segment_count: visible,
        truncated_text_index: if keep_dropped {
            Some(fit.visible_segment_count)
        } else if segs.len() == 1 && is_text_segment(segs[0]) {
            Some(0usize)
        } else {
            None
        },
        show_ellipsis: !keep_dropped && (fit.show_ellipsis || visible < segs.len()),
    }
}

/// Which segments the sticky header shows, given what fits.
pub fn sticky_preview_layout(segments: &[UserMessageContentLineSegment], fit: StickyUserMessageFit) -> (r:
    StickyPreviewLayout)
    ensures
        r == layout_of(segments_view(segments@), fit),
{
    let ghost segs = segments_view(segments@);
    let include_dropped_text = fit.visible_segment_count < segments.len() && match &segments[fit.visible_segment_count].content {
        UserMessageContentSegment::Text(_) => true,
        _ => false,
    };
    proof {
        if fit.visible_segment_count < segments.len() {
            assert(segs[fit.visible_segment_count as int] == segments@[fit.visible_segment_count as int]@);
        }
        if segments.len() == 1 {
            assert(segs[0] == segments@[0]@);
        }
    }
    let visible_segment_count = if include_dropped_text {
        fit.visible_segment_count + 1
    } else {
        fit.visible_segment_count
    };
    let truncated_text_index = if include_dropped_text {
        Some(fit.visible_segment_count)
    } else if segments.len() == 1 && match &segments[0].content {
        UserMessageContentSegment::Text(_) => true,
        _ => false,
    } {
        Some(0)
    } else {
        None
    };
    let show_ellipsis = !include_dropped_text && (fit.show_ellipsis || visible_segment_count
        < segments.len());
    StickyPreviewLayout { visible_segment_count, truncated_text_index, show_ellipsis }
}


/// A header never both keeps a cut-off prose segment that did not fit and
/// shows an ellipsis, and never shows more segments than there are.
pub proof fn lemma_layout_bounds(segs: Seq<SegmentView>, fit: StickyUserMessageFit)
    requires
        fit.visible_segment_count <= segs.len(),
    ensures
        layout_of(segs, fit).visible_segment_count <= segs.len(),
        layout_of(segs, fit).show_ellipsis ==> !includes_dropped_text(segs, fit),
        includes_dropped_text(segs, fit) ==> layout_of(segs, fit).truncated_text_index == Some(
            fit.visible_segment_count,
        ),
        layout_of(segs, fit).truncated_text_index matches Some(i) ==> i < segs.len()
            && is_text_segment(segs[i as int]),
{
}

/// The header shows the segments that fit, and beyond them at most the first
/// dropped segment, exactly when that one is prose; the ellipsis shows only
/// when no prose segment was kept in its place, and then whenever something
/// was left out or the message goes on.
pub proof fn lemma_layout_shows_fitted_segments(segs: Seq<SegmentView>, fit: StickyUserMessageFit)
    requires
        fit.visible_segment_count <= segs.len() <= usize::MAX,
    ensures
        ({
            let n = fit.visible_segment_count as int;
            let dropped_prose = n < segs.len() && segs[n].content is Text;
            let l = layout_of(segs, fit);
            &&& dropped_prose ==> l.visible_segment_count == n + 1
            &&& !dropped_prose ==> l.visible_segment_count == n
            &&& dropped_prose ==> l.truncated_text_index == Some(n as usize) && !l.show_ellipsis
            &&& !dropped_prose ==> (l.show_ellipsis <==> (fit.show_ellipsis || n < segs.len()))
            &&& !dropped_prose ==> (l.truncated_text_index is Some <==> (segs.len() == 1
                && segs[0].content is Text))
        }),
{
}

/// A non-empty match is highlighted in the first segment whose source range
/// holds it (both ends inclusive of the range's ends), at its place within
/// that segment's display text, whenever it falls on whole chars there.
pub proof fn lemma_placeable_match_is_highlighted(
    segs: Seq<SegmentView>,
    ms: Seq<(Span, bool)>,
    m: Span,
    active: bool,
    i: int,
)
    requires
        m.start < m.end,
        0 <= i < segs.len(),
        segs[i].source matches Some(r) && r.start <= m.start && m.end <= r.end,
        forall|j: int|
            0 <= j < i ==> !((#[trigger] segs[j]).source matches Some(r) && r.start <= m.start
                && m.end <= r.end),
        m.end - segs[i].source->0.start <= encode_utf8(display_text_of(segs[i])).len(),
        is_char_boundary(encode_utf8(display_text_of(segs[i])), m.start - segs[i].source->0.start),
        is_char_boundary(encode_utf8(display_text_of(segs[i])), m.end - segs[i].source->0.start),
    ensures
        ({
            let o = segs[i].source->0.start;
            let before = match highlights_of(segs, ms) {
                Some(h) => h[i],
                None => Seq::<HighlightView>::empty(),
            };
            &&& highlights_of(segs, ms.push((m, active))) matches Some(h)
            &&& highlights_of(segs, ms.push((m, active)))->0.len() == segs.len()
            &&& highlights_of(segs, ms.push((m, active)))->0[i] == before.push(
                HighlightView { range: Span { start: m.start - o, end: m.end - o }, is_active: active },
            )
        }),
{
    lemma_first_covering_finds(segs, m, 0, i);
    lemma_highlights_shape(segs, ms);
    assert(ms.push((m, active)).drop_last() =~= ms);
    lemma_highlights_shape(segs, ms.push((m, active)));
}

proof fn lemma_first_covering_finds(segs: Seq<SegmentView>, m: Span, k: int, i: int)
    requires
        0 <= k <= i < segs.len(),
        covers(segs[i], m),
        forall|j: int| 0 <= j < i ==> !covers(#[trigger] segs[j], m),
    ensures
        first_covering(segs, m, k) == Some(i),
    decreases i - k,
{
    if k < i {
        assert(!covers(segs[k], m));
        lemma_first_covering_finds(segs, m, k + 1, i);
    }
}

} // verus!
