//! The text of a user message as the editor shows it: prose interleaved with
//! mentions, each mention serialised as a markdown link whose byte range in the
//! text is recorded.
use crate::line_ending::{normalize, normalize_line_endings};
use crate::text::{
    occurs_at,
    byte_len, byte_offset, byte_offsets, char_at_byte, char_index_of, chars_of, find_chars,
    first_occurrence, is_blank, is_boundary, is_trimmed, is_whitespace, is_whitespace_char,
    lemma_byte_len_concat, lemma_byte_len_subrange, lemma_byte_offset_concat,
    lemma_byte_offset_full, lemma_byte_offset_strict, lemma_char_at_byte_append,
    lemma_char_at_byte_offset, lemma_first_occurrence, lemma_trimmed_unique, push_char,
    string_from_chars, text_between,
};
use core::ops::Range;
use vstd::prelude::*;

verus! {

/// A span of byte offsets, `start..end`.
pub struct Span {
    pub start: int,
    pub end: int,
}

pub open spec fn span_of(r: Range<usize>) -> Span {
    Span { start: r.start as int, end: r.end as int }
}

pub open spec fn opt_span_of(r: Option<Range<usize>>) -> Option<Span> {
    match r {
        Some(r) => Some(span_of(r)),
        None => None,
    }
}

/// What the library reads of a mention URI: the name it is shown by and the
/// markdown link it serialises to.
#[derive(Clone, Debug, PartialEq, Eq)]
pub struct MentionUri {
    pub name: String,
    pub link: String,
}

pub struct UriView {
    pub name: Seq<char>,
    pub link: Seq<char>,
}

impl View for MentionUri {
    type V = UriView;

    open spec fn view(&self) -> UriView {
        UriView { name: self.name@, link: self.link@ }
    }
}

impl MentionUri {
    /// Whether two URIs are the same.
    pub fn same_as(&self, other: &MentionUri) -> (b: bool)
        ensures
            b == (self@ == other@),
    {
        let n = self.name == other.name;
        let l = self.link == other.link;
        n && l
    }
}

/// The encoding of a pasted image.
#[derive(Clone, Copy, Debug, PartialEq, Eq)]
pub enum ImageFormat {
    Png,
    Jpeg,
    Webp,
    Gif,
    Svg,
    Bmp,
    Tiff,
    Ico,
}

/// An image attached to a message.
#[derive(Clone, Debug, PartialEq, Eq)]
pub struct MentionImage {
    pub data: String,
    pub format: ImageFormat,
}

/// What a mention carries besides its URI.
#[derive(Clone, Debug, PartialEq, Eq)]
pub enum Mention {
    Text { content: String },
    Link,
    Image(MentionImage),
}

pub enum MentionContentView {
    Text(Seq<char>),
    Link,
    Image(Seq<char>, ImageFormat),
}

impl View for Mention {
    type V = MentionContentView;

    open spec fn view(&self) -> MentionContentView {
        match self {
            Mention::Text { content } => MentionContentView::Text(content@),
            Mention::Link => MentionContentView::Link,
            Mention::Image(image) => MentionContentView::Image(image.data@, image.format),
        }
    }
}

/// One block of a message as it arrives from the agent protocol, with its URI
/// already resolved: `None` stands for a URI that did not parse.
#[derive(Clone, Debug, PartialEq, Eq)]
pub enum ContentBlock {
    /// Plain text.
    Text(String),
    /// A resource embedded with its text.
    Resource { uri: Option<MentionUri>, text: String },
    /// A link to a resource.
    ResourceLink { uri: Option<MentionUri> },
    /// An image; `format` is `None` when its MIME type is not one that images are shown in.
    Image { uri: Option<MentionUri>, data: String, format: Option<ImageFormat> },
    /// Any other block (audio, binary resources), which the message text leaves out.
    Other,
}

pub enum BlockView {
    Text(Seq<char>),
    Resource(Option<UriView>, Seq<char>),
    ResourceLink(Option<UriView>),
    Image(Option<UriView>, Seq<char>, Option<ImageFormat>),
    Other,
}

pub open spec fn opt_uri_view(u: Option<MentionUri>) -> Option<UriView> {
    match u {
        Some(u) => Some(u@),
        None => None,
    }
}

impl View for ContentBlock {
    type V = BlockView;

    open spec fn view(&self) -> BlockView {
        match self {
            ContentBlock::Text(t) => BlockView::Text(t@),
            ContentBlock::Resource { uri, text } => BlockView::Resource(opt_uri_view(*uri), text@),
            ContentBlock::ResourceLink { uri } => BlockView::ResourceLink(opt_uri_view(*uri)),
            ContentBlock::Image { uri, data, format } => BlockView::Image(
                opt_uri_view(*uri),
                data@,
                *format,
            ),
            ContentBlock::Other => BlockView::Other,
        }
    }
}

/// A mention placed in the message text.
#[derive(Clone, Debug, PartialEq, Eq)]
pub struct UserMessageMention {
    /// Where the mention's serialised link stands in the text.
    pub range: Range<usize>,
    pub uri: MentionUri,
    pub content: Mention,
    /// The text the mention is shown by: `@` and the URI's name.
    pub label: String,
    /// Where the label stands in the message text, when the link holds it.
    pub label_range: Option<Range<usize>>,
}

pub struct MentionView {
    pub range: Span,
    pub uri: UriView,
    pub content: MentionContentView,
    pub label: Seq<char>,
    pub label_range: Option<Span>,
}

impl View for UserMessageMention {
    type V = MentionView;

    open spec fn view(&self) -> MentionView {
        MentionView {
            range: span_of(self.range),
            uri: self.uri@,
            content: self.content@,
            label: self.label@,
            label_range: opt_span_of(self.label_range),
        }
    }
}

/// One piece of the first line: prose, or a mention shown by its label.
#[derive(Clone, Debug, PartialEq, Eq)]
pub enum UserMessageContentSegment {
    Text(String),
    Mention { uri: MentionUri, label: String },
}

pub enum SegmentContentView {
    Text(Seq<char>),
    Mention(UriView, Seq<char>),
}

impl View for UserMessageContentSegment {
    type V = SegmentContentView;

    open spec fn view(&self) -> SegmentContentView {
        match self {
            UserMessageContentSegment::Text(t) => SegmentContentView::Text(t@),
            UserMessageContentSegment::Mention { uri, label } => SegmentContentView::Mention(
                uri@,
                label@,
            ),
        }
    }
}

/// A segment of the first line and the bytes of the message text it stands for.
#[derive(Clone, Debug, PartialEq, Eq)]
pub struct UserMessageContentLineSegment {
    pub content: UserMessageContentSegment,
    pub source_range: Option<Range<usize>>,
}

pub struct SegmentView {
    pub content: SegmentContentView,
    pub source: Option<Span>,
}

impl View for UserMessageContentLineSegment {
    type V = SegmentView;

    open spec fn view(&self) -> SegmentView {
        SegmentView { content: self.content@, source: opt_span_of(self.source_range) }
    }
}

/// The text a segment is displayed with.
pub open spec fn display_text_of(s: SegmentView) -> Seq<char> {
    match s.content {
        SegmentContentView::Text(t) => t,
        SegmentContentView::Mention(_, label) => label,
    }
}

impl UserMessageContentLineSegment {
    /// The text this segment is displayed with: its prose, or the mention's label.
    pub fn display_text(&self) -> (s: &str)
        ensures
            s@ == display_text_of(self@),
    {
        match &self.content {
            UserMessageContentSegment::Text(text) => text.as_str(),
            UserMessageContentSegment::Mention { label, .. } => label.as_str(),
        }
    }
}


/// A user message: its text, and the mentions placed in it.
#[derive(Debug, PartialEq, Eq)]
pub struct UserMessageContent {
    text: String,
    mentions: Vec<UserMessageMention>,
}

pub struct ContentView {
    pub text: Seq<char>,
    pub mentions: Seq<MentionView>,
}

pub open spec fn mentions_view(ms: Seq<UserMessageMention>) -> Seq<MentionView> {
    ms.map_values(|m: UserMessageMention| m@)
}

pub open spec fn blocks_view(bs: Seq<ContentBlock>) -> Seq<BlockView> {
    bs.map_values(|b: ContentBlock| b@)
}

impl View for UserMessageContent {
    type V = ContentView;

    closed spec fn view(&self) -> ContentView {
        ContentView { text: self.text@, mentions: mentions_view(self.mentions@) }
    }
}

/// Every mention lies in the text, starts and ends between two chars, and
/// comes after the mention before it.
pub open spec fn well_formed(c: ContentView) -> bool {
    &&& forall|k: int|
        #![trigger c.mentions[k]]
        0 <= k < c.mentions.len() ==> {
            &&& 0 <= c.mentions[k].range.start <= c.mentions[k].range.end <= byte_len(c.text)
            &&& is_boundary(c.text, c.mentions[k].range.start)
            &&& is_boundary(c.text, c.mentions[k].range.end)
        }
    &&& forall|j: int, k: int|
        #![trigger c.mentions[j], c.mentions[k]]
        0 <= j < k < c.mentions.len() ==> c.mentions[j].range.end <= c.mentions[k].range.start
}

/// The message with no text and no mention.
pub open spec fn empty_content() -> ContentView {
    ContentView { text: Seq::<char>::empty(), mentions: Seq::<MentionView>::empty() }
}

/// The label a mention is shown by: `@` and the URI's name, with normalised line endings.
pub open spec fn mention_label(u: UriView) -> Seq<char> {
    normalize(seq!['@'] + u.name)
}

/// `acc` with the mention of `u` appended: the URI's normalised link is added to
/// the text, and the mention records where it and the label in it stand.
pub open spec fn with_mention(acc: ContentView, u: UriView, content: MentionContentView) -> ContentView {
    let label = mention_label(u);
    let serialized = normalize(u.link);
    let start = byte_len(acc.text) as int;
    ContentView {
        text: acc.text + serialized,
        mentions: acc.mentions.push(
            MentionView {
                range: Span { start, end: start + byte_len(serialized) },
                uri: u,
                content,
                label,
                label_range: match first_occurrence(serialized, label) {
                    Some(k) => Some(
                        Span {
                            start: start + byte_offset(serialized, k),
                            end: start + byte_offset(serialized, k) + byte_len(label),
                        },
                    ),
                    None => None,
                },
            },
        ),
    }
}

/// `acc` with block `b` appended. Text is added with normalised line endings;
/// a resource, a link or an image becomes a mention when its URI parsed (and,
/// for an image, its format is known); any other block adds nothing.
pub open spec fn with_block(acc: ContentView, b: BlockView) -> ContentView {
    match b {
        BlockView::Text(t) => ContentView { text: acc.text + normalize(t), mentions: acc.mentions },
        BlockView::Resource(Some(u), text) => with_mention(acc, u, MentionContentView::Text(text)),
        BlockView::ResourceLink(Some(u)) => with_mention(acc, u, MentionContentView::Link),
        BlockView::Image(Some(u), data, Some(f)) => with_mention(
            acc,
            u,
            MentionContentView::Image(data, f),
        ),
        _ => acc,
    }
}

/// The message made of blocks `bs`, in order.
pub open spec fn content_of_blocks(bs: Seq<BlockView>) -> ContentView
    decreases bs.len(),
{
    if bs.len() == 0 {
        empty_content()
    } else {
        with_block(content_of_blocks(bs.drop_last()), bs.last())
    }
}

/// Appending a block only ever adds to the end of the text.
proof fn lemma_with_block_extends(acc: ContentView, b: BlockView)
    ensures
        with_block(acc, b).text.len() >= acc.text.len(),
        with_block(acc, b).text.subrange(0, acc.text.len() as int) == acc.text,
        byte_len(with_block(acc, b).text) >= byte_len(acc.text),
        with_block(acc, b).mentions.len() >= acc.mentions.len(),
        forall|k: int|
            0 <= k < acc.mentions.len() ==> #[trigger] with_block(acc, b).mentions[k]
                == acc.mentions[k],
{
    let r = with_block(acc, b);
    let extra = r.text.subrange(acc.text.len() as int, r.text.len() as int);
    assert(r.text =~= acc.text + extra) by {
        match b {
            BlockView::Text(t) => {},
            BlockView::Resource(Some(u), text) => {},
            BlockView::ResourceLink(Some(u)) => {},
            BlockView::Image(Some(u), data, Some(f)) => {},
            _ => {},
        }
    }
    lemma_byte_len_concat(acc.text, extra);
    assert(r.text.subrange(0, acc.text.len() as int) =~= acc.text);
}

proof fn lemma_content_of_blocks_grows(bs: Seq<BlockView>, i: int)
    requires
        0 <= i <= bs.len(),
    ensures
        byte_len(content_of_blocks(bs.take(i)).text) <= byte_len(content_of_blocks(bs).text),
    decreases bs.len() - i,
{
    if i == bs.len() {
        assert(bs.take(i) =~= bs);
    } else {
        let next = bs.take(i + 1);
        assert(next.drop_last() =~= bs.take(i));
        lemma_with_block_extends(content_of_blocks(bs.take(i)), bs[i]);
        lemma_content_of_blocks_grows(bs, i + 1);
    }
}

/// Byte offsets into a text are unchanged by appending to it.
proof fn lemma_byte_offset_append(a: Seq<char>, b: Seq<char>, i: int)
    requires
        0 <= i <= a.len(),
    ensures
        byte_offset(a + b, i) == byte_offset(a, i),
{
    assert((a + b).take(i) =~= a.take(i));
}

proof fn lemma_boundary_append(a: Seq<char>, b: Seq<char>, x: int)
    requires
        is_boundary(a, x),
    ensures
        is_boundary(a + b, x),
{
    let i = choose|i: int| 0 <= i <= a.len() && byte_offset(a, i) == x;
    lemma_byte_offset_append(a, b, i);
}

/// Appending a block keeps a message well formed.
proof fn lemma_with_block_well_formed(acc: ContentView, b: BlockView)
    requires
        well_formed(acc),
    ensures
        well_formed(with_block(acc, b)),
{
    let r = with_block(acc, b);
    lemma_with_block_extends(acc, b);
    let extra = r.text.subrange(acc.text.len() as int, r.text.len() as int);
    assert(r.text =~= acc.text + extra);
    lemma_byte_len_concat(acc.text, extra);
    assert forall|k: int| 0 <= k < acc.mentions.len() implies {
        &&& is_boundary(r.text, #[trigger] r.mentions[k].range.start)
        &&& is_boundary(r.text, r.mentions[k].range.end)
    } by {
        lemma_boundary_append(acc.text, extra, acc.mentions[k].range.start);
        lemma_boundary_append(acc.text, extra, acc.mentions[k].range.end);
    }
    if r.mentions.len() > acc.mentions.len() {
        let n = acc.mentions.len() as int;
        match b {
            BlockView::Resource(Some(u), _) => {
                assert(extra =~= normalize(u.link));
            },
            BlockView::ResourceLink(Some(u)) => {
                assert(extra =~= normalize(u.link));
            },
            BlockView::Image(Some(u), _, Some(_)) => {
                assert(extra =~= normalize(u.link));
            },
            _ => {},
        }
        lemma_byte_offset_full(acc.text);
        lemma_byte_offset_full(r.text);
        lemma_byte_offset_append(acc.text, extra, acc.text.len() as int);
        assert(is_boundary(r.text, byte_len(acc.text) as int));
        assert(is_boundary(r.text, byte_len(r.text) as int));
        assert(r.mentions[n].range.start == byte_len(acc.text));
        assert(r.mentions[n].range.end == byte_len(r.text));
    }
}

/// In the message built from any blocks, each mention's range holds its link
/// and its label range holds its label.
pub proof fn lemma_content_of_blocks_mentions_hold_links(bs: Seq<BlockView>)
    ensures
        mentions_hold_links(content_of_blocks(bs)),
    decreases bs.len(),
{
    if bs.len() > 0 {
        lemma_content_of_blocks_mentions_hold_links(bs.drop_last());
        lemma_content_of_blocks_well_formed(bs.drop_last());
        lemma_with_block_holds_links(content_of_blocks(bs.drop_last()), bs.last());
    }
}

/// The message built from any blocks is well formed.
pub proof fn lemma_content_of_blocks_well_formed(bs: Seq<BlockView>)
    ensures
        well_formed(content_of_blocks(bs)),
    decreases bs.len(),
{
    if bs.len() > 0 {
        lemma_content_of_blocks_well_formed(bs.drop_last());
        lemma_with_block_well_formed(content_of_blocks(bs.drop_last()), bs.last());
    }
}

/// Each mention's range holds exactly its URI's normalised link; its label is
/// `@` and the URI's name; and its label range, when there is one, lies in the
/// mention's range and holds exactly the label.
pub open spec fn mentions_hold_links(c: ContentView) -> bool {
    forall|k: int| 0 <= k < c.mentions.len() ==> mention_holds_link(c.text, #[trigger] c.mentions[k])
}

/// What `mentions_hold_links` says of one mention `m` of text `cs`.
pub open spec fn mention_holds_link(cs: Seq<char>, m: MentionView) -> bool {
    &&& text_between(cs, m.range.start, m.range.end) == normalize(m.uri.link)
    &&& m.uri.link.len() > 0 ==> m.range.start < m.range.end
    &&& m.label == mention_label(m.uri)
    &&& (m.label_range is Some <==> first_occurrence(normalize(m.uri.link), m.label) is Some)
    &&& m.label_range is None ==> forall|k: int| !occurs_at(normalize(m.uri.link), m.label, k)
    &&& m.label_range matches Some(r) ==> {
        &&& m.range.start <= r.start <= r.end <= m.range.end
        &&& r.start == m.range.start + byte_offset(
            normalize(m.uri.link),
            first_occurrence(normalize(m.uri.link), m.label)->0,
        )
        &&& r.end == r.start + byte_len(m.label)
        &&& is_boundary(cs, r.start)
        &&& is_boundary(cs, r.end)
        &&& text_between(cs, r.start, r.end) == m.label
    }
}

proof fn lemma_text_between_append(a: Seq<char>, b: Seq<char>, x: int, y: int)
    requires
        is_boundary(a, x),
        is_boundary(a, y),
        x <= y,
    ensures
        text_between(a + b, x, y) == text_between(a, x, y),
        is_boundary(a + b, x),
        is_boundary(a + b, y),
{
    lemma_char_at_byte_append(a, b, x);
    lemma_char_at_byte_append(a, b, y);
    lemma_boundary_append(a, b, x);
    lemma_boundary_append(a, b, y);
    let i = char_at_byte(a, x);
    let j = char_at_byte(a, y);
    if i > j {
        lemma_byte_offset_strict(a, j, i);
    }
    assert((a + b).subrange(i, j) =~= a.subrange(i, j));
}

proof fn lemma_mention_holds_link_append(a: Seq<char>, b: Seq<char>, m: MentionView)
    requires
        mention_holds_link(a, m),
        is_boundary(a, m.range.start),
        is_boundary(a, m.range.end),
        m.range.start <= m.range.end,
    ensures
        mention_holds_link(a + b, m),
{
    lemma_text_between_append(a, b, m.range.start, m.range.end);
    if let Some(q) = m.label_range {
        lemma_text_between_append(a, b, q.start, q.end);
    }
}

/// The mention that `with_mention` appends holds its link and label.
proof fn lemma_new_mention_holds_link(acc: ContentView, u: UriView, content: MentionContentView)
    ensures
        ({
            let r = with_mention(acc, u, content);
            mention_holds_link(r.text, r.mentions.last())
        }),
{
    let r = with_mention(acc, u, content);
    let ser = normalize(u.link);
    let label = mention_label(u);
    let base = acc.text.len() as int;
    if u.link.len() > 0 {
        assert(ser.len() > 0);
        assert(byte_len(ser) > 0);
    }
    assert(r.text == acc.text + ser);
    lemma_byte_offset_full(acc.text);
    lemma_byte_offset_full(r.text);
    lemma_byte_offset_full(ser);
    lemma_byte_offset_concat(acc.text, ser, 0);
    lemma_byte_offset_concat(acc.text, ser, ser.len() as int);
    lemma_char_at_byte_offset(r.text, base);
    lemma_char_at_byte_offset(r.text, r.text.len() as int);
    assert(r.text.subrange(base, r.text.len() as int) =~= ser);
    lemma_first_occurrence(ser, label);
    if let Some(k) = first_occurrence(ser, label) {
        lemma_byte_offset_concat(acc.text, ser, k);
        lemma_byte_offset_concat(acc.text, ser, k + label.len());
        lemma_byte_len_subrange(ser, k, k + label.len());
        lemma_byte_len_subrange(ser, k + label.len(), ser.len() as int);
        lemma_char_at_byte_offset(r.text, base + k);
        lemma_char_at_byte_offset(r.text, base + k + label.len());
        assert(r.text.subrange(base + k, base + k + label.len()) =~= ser.subrange(
            k,
            k + label.len(),
        ));
    }
}

proof fn lemma_with_block_holds_links(acc: ContentView, b: BlockView)
    requires
        well_formed(acc),
        mentions_hold_links(acc),
    ensures
        mentions_hold_links(with_block(acc, b)),
{
    let r = with_block(acc, b);
    lemma_with_block_extends(acc, b);
    let extra = r.text.subrange(acc.text.len() as int, r.text.len() as int);
    assert(r.text =~= acc.text + extra);
    assert forall|k: int| 0 <= k < acc.mentions.len() implies mention_holds_link(
        r.text,
        #[trigger] r.mentions[k],
    ) by {
        assert(mention_holds_link(acc.text, acc.mentions[k]));
        lemma_mention_holds_link_append(acc.text, extra, acc.mentions[k]);
    }
    match b {
        BlockView::Resource(Some(u), text) => {
            lemma_new_mention_holds_link(acc, u, MentionContentView::Text(text));
        },
        BlockView::ResourceLink(Some(u)) => {
            lemma_new_mention_holds_link(acc, u, MentionContentView::Link);
        },
        BlockView::Image(Some(u), data, Some(f)) => {
            lemma_new_mention_holds_link(acc, u, MentionContentView::Image(data, f));
        },
        _ => {},
    }
    assert forall|k: int| 0 <= k < r.mentions.len() implies mention_holds_link(
        r.text,
        #[trigger] r.mentions[k],
    ) by {
        if k < acc.mentions.len() {
        } else {
            assert(r.mentions[k] == r.mentions.last());
        }
    }
}

impl UserMessageContent {
    #[verifier::type_invariant]
    spec fn is_consistent(self) -> bool {
        &&& well_formed(self@)
        &&& mentions_hold_links(self@)
        &&& byte_len(self.text@) <= usize::MAX
    }

    /// The message built from `blocks`: text blocks with normalised line
    /// endings, and each resource, link or image whose URI parsed as a mention
    /// serialised to its link.
    pub fn from_blocks(blocks: Vec<ContentBlock>) -> (r: Self)
        requires
            byte_len(content_of_blocks(blocks_view(blocks@)).text) <= usize::MAX,
        ensures
            r@ == content_of_blocks(blocks_view(blocks@)),
            well_formed(r@),
            mentions_hold_links(r@),
            has_no_carriage_return(r@),
    {
        let ghost all = blocks_view(blocks@);
        let mut text = String::new();
        let mut text_len: usize = 0;
        let mut mentions: Vec<UserMessageMention> = Vec::new();
        proof {
            assert(all.take(0) =~= Seq::<BlockView>::empty());
            assert(text@ =~= Seq::<char>::empty());
            assert(mentions_view(mentions@) =~= Seq::<MentionView>::empty());
        }
        for block in it: blocks
            invariant
                all == blocks_view(blocks@),
                it.seq() == blocks@,
                text_len == byte_len(text@),
                byte_len(content_of_blocks(all).text) <= usize::MAX,
                (ContentView { text: text@, mentions: mentions_view(mentions@) })
                    == content_of_blocks(all.take(it.index() as int)),
        {
            let ghost i = it.index() as int;
            let ghost acc = ContentView { text: text@, mentions: mentions_view(mentions@) };
            proof {
                assert(all.take(i + 1).drop_last() =~= all.take(i));
                assert(all.take(i + 1).last() == block@);
                lemma_content_of_blocks_grows(all, i + 1);
            }
            match block {
                ContentBlock::Text(t) => {
                    let mut t = t;
                    normalize_line_endings(&mut t);
                    let cs = chars_of(t.as_str());
                    proof {
                        lemma_byte_len_concat(text@, t@);
                    }
                    let n = crate::text::byte_length(&cs);
                    text.append(t.as_str());
                    text_len = text_len + n;
                },
                ContentBlock::Resource { uri: Some(uri), text: resource_text } => {
                    Self::push_mention(
                        &mut text,
                        &mut text_len,
                        &mut mentions,
                        uri,
                        Mention::Text { content: resource_text },
                    );
                },
                ContentBlock::ResourceLink { uri: Some(uri) } => {
                    Self::push_mention(&mut text, &mut text_len, &mut mentions, uri, Mention::Link);
                },
                ContentBlock::Image { uri: Some(uri), data, format: Some(format) } => {
                    Self::push_mention(
                        &mut text,
                        &mut text_len,
                        &mut mentions,
                        uri,
                        Mention::Image(MentionImage { data, format }),
                    );
                },
                _ => {},
            }
            proof {
                assert(mentions_view(mentions@) =~= content_of_blocks(all.take(i + 1)).mentions);
            }
        }
        proof {
            assert(all.take(blocks@.len() as int) =~= all);
            lemma_content_of_blocks_well_formed(all);
            lemma_content_of_blocks_mentions_hold_links(all);
            lemma_content_of_blocks_has_no_carriage_return(all);
        }
        UserMessageContent { text, mentions }
    }

    /// Where `label` stands once `serialized` is placed at byte `start`.
    fn label_span(start: usize, ser_cs: &Vec<char>, ser_offs: &Vec<usize>, label_cs: &Vec<char>) -> (r:
        Option<Range<usize>>)
        requires
            ser_offs.len() == ser_cs.len() + 1,
            forall|i: int| 0 <= i <= ser_cs.len() ==> #[trigger] ser_offs[i] == byte_offset(ser_cs@, i),
            start + byte_len(ser_cs@) <= usize::MAX,
        ensures
            opt_span_of(r) == match first_occurrence(ser_cs@, label_cs@) {
                Some(k) => Some(
                    Span {
                        start: start + byte_offset(ser_cs@, k),
                        end: start + byte_offset(ser_cs@, k) + byte_len(label_cs@),
                    },
                ),
                None => None,
            },
    {
        match find_chars(ser_cs, label_cs) {
            Some(k) => {
                proof {
                    lemma_byte_len_subrange(ser_cs@, k as int, k + label_cs.len());
                    lemma_byte_len_subrange(ser_cs@, k + label_cs.len(), ser_cs.len() as int);
                    lemma_byte_offset_full(ser_cs@);
                }
                Some(start + ser_offs[k]..start + ser_offs[k + label_cs.len()])
            },
            None => None,
        }
    }

    /// Appends the mention of `uri` to the text and to `mentions`.
    fn push_mention(
        text: &mut String,
        text_len: &mut usize,
        mentions: &mut Vec<UserMessageMention>,
        uri: MentionUri,
        content: Mention,
    )
        requires
            *old(text_len) == byte_len(old(text)@),
            byte_len(
                with_mention(
                    ContentView { text: old(text)@, mentions: mentions_view(old(mentions)@) },
                    uri@,
                    content@,
                ).text,
            ) <= usize::MAX,
        ensures
            *final(text_len) == byte_len(final(text)@),
            (ContentView { text: final(text)@, mentions: mentions_view(final(mentions)@) })
                == with_mention(
                ContentView { text: old(text)@, mentions: mentions_view(old(mentions)@) },
                uri@,
                content@,
            ),
    {
        let mut label = String::new();
        push_char(&mut label, '@');
        label.append(uri.name.as_str());
        proof {
            assert(label@ =~= seq!['@'] + uri.name@);
        }
        normalize_line_endings(&mut label);
        let mut serialized = uri.link.clone();
        normalize_line_endings(&mut serialized);
        let label_cs = chars_of(label.as_str());
        let ser_cs = chars_of(serialized.as_str());
        proof {
            lemma_byte_len_concat(text@, serialized@);
            lemma_byte_offset_full(ser_cs@);
        }
        let ser_offs = byte_offsets(&ser_cs);
        let start = *text_len;
        let end = start + ser_offs[ser_cs.len()];
        let label_range = Self::label_span(start, &ser_cs, &ser_offs, &label_cs);
        text.append(serialized.as_str());
        *text_len = end;
        let ghost old_mentions = mentions_view(mentions@);
        mentions.push(UserMessageMention { range: start..end, uri, content, label, label_range });
        proof {
            assert(mentions_view(mentions@) =~= old_mentions.push(mentions@.last()@));
        }
    }
}


/// The first line of a message, as the sticky header shows it.
#[derive(Clone, Debug, PartialEq, Eq)]
pub struct UserMessageContentLine {
    message_text: String,
    source_range: Option<Range<usize>>,
    pub segments: Vec<UserMessageContentLineSegment>,
    pub has_more_content: bool,
}

pub struct LineView {
    pub message_text: Seq<char>,
    pub source: Option<Span>,
    pub segments: Seq<SegmentView>,
    pub has_more: bool,
}

pub open spec fn segments_view(ss: Seq<UserMessageContentLineSegment>) -> Seq<SegmentView> {
    ss.map_values(|s: UserMessageContentLineSegment| s@)
}

impl View for UserMessageContentLine {
    type V = LineView;

    closed spec fn view(&self) -> LineView {
        LineView {
            message_text: self.message_text@,
            source: opt_span_of(self.source_range),
            segments: segments_view(self.segments@),
            has_more: self.has_more_content,
        }
    }
}

impl UserMessageContentLine {
    /// The segments the line is split into.
    pub fn segments(&self) -> (s: &[UserMessageContentLineSegment])
        ensures
            segments_view(s@) == self@.segments,
    {
        self.segments.as_slice()
    }

    /// Whether a later line of the message holds more than whitespace.
    pub fn has_more_content(&self) -> (b: bool)
        ensures
            b == self@.has_more,
    {
        self.has_more_content
    }

    /// The whole text of the message the line comes from.
    pub fn message_text(&self) -> (s: &String)
        ensures
            s@ == self@.message_text,
    {
        &self.message_text
    }

    /// The bytes of the message text that the line shows, if it shows any.
    pub fn source_range(&self) -> (r: Option<&Range<usize>>)
        ensures
            match r {
                Some(r) => self@.source == Some(span_of(*r)),
                None => self@.source is None,
            },
    {
        match &self.source_range {
            Some(r) => Some(r),
            None => None,
        }
    }
}

/// `cs[a..b]` is the first line of `cs` that holds more than whitespace,
/// trimmed: `a` is the first char that is not whitespace, `b - 1` the last one
/// before the line's newline.
pub open spec fn is_first_line_span(cs: Seq<char>, a: int, b: int) -> bool {
    &&& 0 <= a < b <= cs.len()
    &&& !is_whitespace(cs[a])
    &&& !is_whitespace(cs[b - 1])
    &&& is_blank(cs, 0, a)
    &&& forall|k: int| a <= k < b ==> #[trigger] cs[k] != '\n'
    &&& forall|j: int|
        b <= j < cs.len() && !is_whitespace(#[trigger] cs[j]) ==> exists|k: int|
            b <= k < j && cs[k] == '\n'
}

pub proof fn lemma_first_line_span_unique(cs: Seq<char>, a: int, b: int, a2: int, b2: int)
    requires
        is_first_line_span(cs, a, b),
        is_first_line_span(cs, a2, b2),
    ensures
        a == a2,
        b == b2,
{
    if a < a2 {
        assert(is_whitespace(cs[a]));
    } else if a2 < a {
        assert(is_whitespace(cs[a2]));
    }
    if b < b2 {
        assert(!is_whitespace(cs[b2 - 1]));
        let k = choose|k: int| b <= k < b2 - 1 && cs[k] == '\n';
        assert(cs[k] != '\n');
    } else if b2 < b {
        assert(!is_whitespace(cs[b - 1]));
        let k = choose|k: int| b2 <= k < b - 1 && cs[k] == '\n';
        assert(cs[k] != '\n');
    }
}

spec fn first_non_blank_from(cs: Seq<char>, i: int) -> int
    decreases cs.len() - i,
{
    if i < 0 || i >= cs.len() {
        cs.len() as int
    } else if !is_whitespace(cs[i]) {
        i
    } else {
        first_non_blank_from(cs, i + 1)
    }
}

proof fn lemma_first_non_blank_from(cs: Seq<char>, i: int)
    requires
        0 <= i <= cs.len(),
    ensures
        i <= first_non_blank_from(cs, i) <= cs.len(),
        is_blank(cs, i, first_non_blank_from(cs, i)),
        first_non_blank_from(cs, i) < cs.len() ==> !is_whitespace(cs[first_non_blank_from(cs, i)]),
    decreases cs.len() - i,
{
    if i < cs.len() && is_whitespace(cs[i]) {
        lemma_first_non_blank_from(cs, i + 1);
    }
}

spec fn first_newline_from(cs: Seq<char>, i: int) -> int
    decreases cs.len() - i,
{
    if i < 0 || i >= cs.len() {
        cs.len() as int
    } else if cs[i] == '\n' {
        i
    } else {
        first_newline_from(cs, i + 1)
    }
}

proof fn lemma_first_newline_from(cs: Seq<char>, i: int)
    requires
        0 <= i <= cs.len(),
    ensures
        i <= first_newline_from(cs, i) <= cs.len(),
        forall|k: int| i <= k < first_newline_from(cs, i) ==> #[trigger] cs[k] != '\n',
        first_newline_from(cs, i) < cs.len() ==> cs[first_newline_from(cs, i)] == '\n',
    decreases cs.len() - i,
{
    if i < cs.len() && cs[i] != '\n' {
        lemma_first_newline_from(cs, i + 1);
    }
}

spec fn end_of_non_blank(cs: Seq<char>, lo: int, j: int) -> int
    decreases j - lo,
{
    if j <= lo {
        lo
    } else if !is_whitespace(cs[j - 1]) {
        j
    } else {
        end_of_non_blank(cs, lo, j - 1)
    }
}

proof fn lemma_end_of_non_blank(cs: Seq<char>, lo: int, j: int)
    requires
        0 <= lo <= j <= cs.len(),
    ensures
        lo <= end_of_non_blank(cs, lo, j) <= j,
        is_blank(cs, end_of_non_blank(cs, lo, j), j),
        end_of_non_blank(cs, lo, j) > lo ==> !is_whitespace(cs[end_of_non_blank(cs, lo, j) - 1]),
    decreases j - lo,
{
    if j > lo && is_whitespace(cs[j - 1]) {
        lemma_end_of_non_blank(cs, lo, j - 1);
    }
}

/// Text that is not all whitespace has a first line with more than whitespace.
pub proof fn lemma_first_line_span_exists(cs: Seq<char>)
    requires
        !is_blank(cs, 0, cs.len() as int),
    ensures
        exists|a: int, b: int| is_first_line_span(cs, a, b),
{
    lemma_first_non_blank_from(cs, 0);
    let a = first_non_blank_from(cs, 0);
    assert(a < cs.len());
    lemma_first_newline_from(cs, a);
    let nl = first_newline_from(cs, a);
    assert(is_whitespace('\n'));
    assert(a < nl);
    lemma_end_of_non_blank(cs, a, nl);
    let b = end_of_non_blank(cs, a, nl);
    assert(b > a);
    assert forall|j: int| b <= j < cs.len() && !is_whitespace(#[trigger] cs[j]) implies exists|k: int|
        b <= k < j && cs[k] == '\n' by {
        assert(j >= nl);
        assert(j != nl);
        assert(cs[nl] == '\n');
    }
    assert(is_first_line_span(cs, a, b));
}

/// The segment for the prose `cs[i..j]`: its trimmed text and where that
/// stands, or nothing when it is blank.
pub open spec fn trimmed_segment(cs: Seq<char>, i: int, j: int) -> Seq<SegmentView> {
    if exists|s: int, e: int| is_trimmed(cs, i, j, s, e) {
        let (s, e) = choose|s: int, e: int| is_trimmed(cs, i, j, s, e);
        seq![
            SegmentView {
                content: SegmentContentView::Text(cs.subrange(s, e)),
                source: Some(Span { start: byte_offset(cs, s) as int, end: byte_offset(cs, e) as int }),
            },
        ]
    } else {
        Seq::<SegmentView>::empty()
    }
}

/// The segment for the prose between byte offsets `from` and `to`.
pub open spec fn text_segment(cs: Seq<char>, from: int, to: int) -> Seq<SegmentView> {
    trimmed_segment(cs, char_at_byte(cs, from), char_at_byte(cs, to))
}

/// The segment that shows mention `m`: its label, standing for the label's bytes.
pub open spec fn mention_segment(m: MentionView) -> SegmentView {
    SegmentView { content: SegmentContentView::Mention(m.uri, m.label), source: m.label_range }
}

/// The segments of the line `lo..hi` from mention `k` on, with prose resuming
/// at byte `cursor`: mentions that start before the line are passed over, the
/// run stops at the first one that ends after it, and the prose around the
/// mentions is trimmed.
pub open spec fn line_segments(
    cs: Seq<char>,
    ms: Seq<MentionView>,
    k: int,
    cursor: int,
    lo: int,
    hi: int,
) -> Seq<SegmentView>
    decreases ms.len() - k,
{
    if 0 <= k < ms.len() {
        if ms[k].range.start < lo {
            line_segments(cs, ms, k + 1, cursor, lo, hi)
        } else if ms[k].range.end > hi {
            text_segment(cs, cursor, hi)
        } else {
            text_segment(cs, cursor, ms[k].range.start) + seq![mention_segment(ms[k])]
                + line_segments(cs, ms, k + 1, ms[k].range.end, lo, hi)
        }
    } else {
        text_segment(cs, cursor, hi)
    }
}

/// The placeholder shown for a message with no text.
pub open spec fn placeholder_segment() -> SegmentView {
    SegmentView { content: SegmentContentView::Text("Message"@), source: None }
}

/// The first line of message `c`.
pub open spec fn first_line_of(c: ContentView) -> LineView {
    if is_blank(c.text, 0, c.text.len() as int) {
        LineView {
            message_text: c.text,
            source: None,
            segments: seq![placeholder_segment()],
            has_more: false,
        }
    } else {
        let (a, b) = choose|a: int, b: int| is_first_line_span(c.text, a, b);
        let lo = byte_offset(c.text, a) as int;
        let hi = byte_offset(c.text, b) as int;
        LineView {
            message_text: c.text,
            source: Some(Span { start: lo, end: hi }),
            segments: line_segments(c.text, c.mentions, 0, lo, lo, hi),
            has_more: !is_blank(c.text, b, c.text.len() as int),
        }
    }
}

impl MentionUri {
    /// A copy of this URI.
    pub fn duplicate(&self) -> (r: MentionUri)
        ensures
            r@ == self@,
    {
        MentionUri { name: self.name.clone(), link: self.link.clone() }
    }
}

/// The first line of `cs` that holds more than whitespace, trimmed, as char
/// indices, and whether any later line holds more than whitespace.
fn first_line_span(cs: &Vec<char>) -> (r: Option<(usize, usize, bool)>)
    ensures
        match r {
            Some((a, b, more)) => {
                &&& is_first_line_span(cs@, a as int, b as int)
                &&& more == !is_blank(cs@, b as int, cs.len() as int)
            },
            None => is_blank(cs@, 0, cs.len() as int),
        },
{
    let n = cs.len();
    let mut a: usize = 0;
    while a < n && is_whitespace_char(cs[a])
        invariant
            a <= n == cs.len(),
            is_blank(cs@, 0, a as int),
        decreases n - a,
    {
        a = a + 1;
    }
    if a == n {
        return None;
    }
    let mut nl: usize = a;
    while nl < n && cs[nl] != '\n'
        invariant
            a <= nl <= n == cs.len(),
            forall|k: int| a <= k < nl ==> #[trigger] cs@[k] != '\n',
        decreases n - nl,
    {
        nl = nl + 1;
    }
    // `cs[a]` is not whitespace, so it is not the newline either.
    assert(a < nl);
    let mut b: usize = nl;
    while b > a && is_whitespace_char(cs[b - 1])
        invariant
            a < nl <= n == cs.len(),
            a <= b <= nl,
            !is_whitespace(cs@[a as int]),
            is_blank(cs@, b as int, nl as int),
        decreases b,
    {
        b = b - 1;
    }
    let mut j: usize = b;
    while j < n && is_whitespace_char(cs[j])
        invariant
            b <= j <= n == cs.len(),
            is_blank(cs@, b as int, j as int),
        decreases n - j,
    {
        j = j + 1;
    }
    let more = j < n;
    proof {
        assert forall|q: int| b <= q < cs.len() && !is_whitespace(#[trigger] cs@[q]) implies exists|k: int|
            b <= k < q && cs@[k] == '\n' by {
            assert(q >= nl);
            assert(q != nl);
            assert(cs@[nl as int] == '\n');
        }
        if more {
            assert(!is_whitespace(cs@[j as int]));
        }
    }
    Some((a, b, more))
}

/// Pushes the segment for the prose `cs[from..to]`: its trimmed text, unless it is blank.
fn push_text_segment(
    cs: &Vec<char>,
    offs: &Vec<usize>,
    from: usize,
    to: usize,
    segments: &mut Vec<UserMessageContentLineSegment>,
)
    requires
        from <= to <= cs.len(),
        offs.len() == cs.len() + 1,
        forall|k: int| 0 <= k <= cs.len() ==> #[trigger] offs[k] == byte_offset(cs@, k),
    ensures
        segments_view(final(segments)@) == segments_view(old(segments)@) + trimmed_segment(
            cs@,
            from as int,
            to as int,
        ),
{
    let ghost before = segments_view(segments@);
    let mut s = from;
    while s < to && is_whitespace_char(cs[s])
        invariant
            from <= s <= to <= cs.len(),
            is_blank(cs@, from as int, s as int),
        decreases to - s,
    {
        s = s + 1;
    }
    if s >= to {
        assert forall|s2: int, e2: int| !is_trimmed(cs@, from as int, to as int, s2, e2) by {
            if is_trimmed(cs@, from as int, to as int, s2, e2) {
                assert(is_whitespace(cs@[s2]));
            }
        }
        assert(segments_view(segments@) =~= before + trimmed_segment(cs@, from as int, to as int));
        return;
    }
    let mut e = to;
    while e > s && is_whitespace_char(cs[e - 1])
        invariant
            from <= s < to <= cs.len(),
            s <= e <= to,
            !is_whitespace(cs@[s as int]),
            is_blank(cs@, e as int, to as int),
        decreases e,
    {
        e = e - 1;
    }
    proof {
        assert(is_trimmed(cs@, from as int, to as int, s as int, e as int));
        let (s2, e2) = choose|s2: int, e2: int| is_trimmed(cs@, from as int, to as int, s2, e2);
        lemma_trimmed_unique(cs@, from as int, to as int, s as int, e as int, s2, e2);
    }
    let text = string_from_chars(cs, s, e);
    segments.push(
        UserMessageContentLineSegment {
            content: UserMessageContentSegment::Text(text),
            source_range: Some(offs[s]..offs[e]),
        },
    );
    assert(segments_view(segments@) =~= before + trimmed_segment(cs@, from as int, to as int));
}

impl UserMessageContent {
    /// The message text.
    pub fn text(&self) -> (s: &String)
        ensures
            s@ == self@.text,
    {
        &self.text
    }

    /// The mentions, in the order they stand in the text.
    pub fn mentions(&self) -> (ms: &[UserMessageMention])
        ensures
            mentions_view(ms@) == self@.mentions,
    {
        self.mentions.as_slice()
    }

    /// The text and the mentions.
    pub fn into_parts(self) -> (r: (String, Vec<UserMessageMention>))
        ensures
            r.0@ == self@.text,
            mentions_view(r.1@) == self@.mentions,
    {
        (self.text, self.mentions)
    }

    /// The first line of the text that holds more than whitespace, trimmed, as
    /// a byte range, and whether a later line holds more than whitespace.
    pub fn first_non_empty_line(&self) -> (r: Option<(Range<usize>, bool)>)
        ensures
            match r {
                Some((range, more)) => exists|a: int, b: int|
                    {
                        &&& is_first_line_span(self@.text, a, b)
                        &&& range.start == byte_offset(self@.text, a)
                        &&& range.end == byte_offset(self@.text, b)
                        &&& more == !is_blank(self@.text, b, self@.text.len() as int)
                    },
                None => is_blank(self@.text, 0, self@.text.len() as int),
            },
    {
        proof {
            use_type_invariant(self);
        }
        let cs = chars_of(self.text.as_str());
        match first_line_span(&cs) {
            Some((a, b, more)) => {
                let offs = byte_offsets(&cs);
                assert(is_first_line_span(self@.text, a as int, b as int));
                Some((offs[a]..offs[b], more))
            },
            None => None,
        }
    }

    /// The first line of the message, split into prose and mention segments;
    /// a message with no text reads as a single "Message" segment.
    pub fn first_line(&self) -> (r: UserMessageContentLine)
        ensures
            r@ == first_line_of(self@),
            r@.source matches Some(line) ==> all_sources_within(r@.segments, line.start, line.end),
            all_prose_matches_source(self@.text, r@.segments),
    {
        proof {
            use_type_invariant(self);
            lemma_first_line_sources_within_line(self@);
            lemma_first_line_prose_matches_source(self@);
        }
        let ghost c = self@;
        let cs = chars_of(self.text.as_str());
        let offs = byte_offsets(&cs);
        let (line_range, has_more_content) = match self.first_non_empty_line() {
            Some(found) => found,
            None => {
                let mut segments: Vec<UserMessageContentLineSegment> = Vec::new();
                segments.push(
                    UserMessageContentLineSegment {
                        content: UserMessageContentSegment::Text("Message".to_string()),
                        source_range: None,
                    },
                );
                let r = UserMessageContentLine {
                    message_text: self.text.clone(),
                    source_range: None,
                    segments,
                    has_more_content: false,
                };
                assert(r@.segments =~= seq![placeholder_segment()]);
                return r;
            },
        };
        let ghost (a, b) = choose|a: int, b: int|
            {
                &&& is_first_line_span(c.text, a, b)
                &&& line_range.start == byte_offset(c.text, a)
                &&& line_range.end == byte_offset(c.text, b)
                &&& has_more_content == !is_blank(c.text, b, c.text.len() as int)
            };
        proof {
            assert(!is_blank(c.text, 0, c.text.len() as int));
            let (a2, b2) = choose|a2: int, b2: int| is_first_line_span(c.text, a2, b2);
            lemma_first_line_span_unique(c.text, a, b, a2, b2);
            lemma_byte_offset_strict(c.text, a, b);
            assert(is_boundary(cs@, line_range.start as int));
            assert(is_boundary(cs@, line_range.end as int));
        }
        let lo = line_range.start;
        let hi = line_range.end;
        let ghost total = line_segments(c.text, c.mentions, 0, lo as int, lo as int, hi as int);
        let mut segments: Vec<UserMessageContentLineSegment> = Vec::new();
        let mut cursor = lo;
        let mut k: usize = 0;
        let mut stopped = false;
        while k < self.mentions.len() && !stopped
            invariant
                c == self@,
                well_formed(c),
                cs@ == c.text,
                offs.len() == cs.len() + 1,
                forall|q: int| 0 <= q <= cs.len() ==> #[trigger] offs[q] == byte_offset(cs@, q),
                k <= self.mentions.len(),
                lo <= cursor <= hi,
                is_boundary(cs@, cursor as int),
                is_boundary(cs@, hi as int),
                segments_view(segments@) + (if stopped {
                    text_segment(c.text, cursor as int, hi as int)
                } else {
                    line_segments(c.text, c.mentions, k as int, cursor as int, lo as int, hi as int)
                }) == total,
            decreases self.mentions.len() - k, if stopped { 0int } else { 1int },
        {
            let m = &self.mentions[k];
            assert(c.mentions[k as int] == m@);
            if m.range.start < lo {
                k = k + 1;
            } else if m.range.end > hi {
                stopped = true;
            } else {
                let ghost before = segments_view(segments@);
                let from = char_index_of(&cs, &offs, cursor);
                let to = char_index_of(&cs, &offs, m.range.start);
                if from < to {
                    push_text_segment(&cs, &offs, from, to, &mut segments);
                } else {
                    assert(segments_view(segments@) =~= before + trimmed_segment(cs@, from as int, to as int));
                }
                let label_range = match &m.label_range {
                    Some(r) => Some(r.start..r.end),
                    None => None,
                };
                let ghost mid = segments_view(segments@);
                segments.push(
                    UserMessageContentLineSegment {
                        content: UserMessageContentSegment::Mention {
                            uri: m.uri.duplicate(),
                            label: m.label.clone(),
                        },
                        source_range: label_range,
                    },
                );
                assert(segments_view(segments@) =~= mid.push(mention_segment(m@)));
                cursor = m.range.end;
                k = k + 1;
            }
        }
        let ghost before = segments_view(segments@);
        proof {
            if !stopped {
                assert(line_segments(c.text, c.mentions, k as int, cursor as int, lo as int, hi as int)
                    == text_segment(c.text, cursor as int, hi as int));
            }
        }
        let from = char_index_of(&cs, &offs, cursor);
        let to = char_index_of(&cs, &offs, hi);
        if from < to {
            push_text_segment(&cs, &offs, from, to, &mut segments);
        }
        assert(segments_view(segments@) =~= total);
        UserMessageContentLine {
            message_text: self.text.clone(),
            source_range: Some(lo..hi),
            segments,
            has_more_content,
        }
    }
}


/// What the sticky header compares two messages by: the text, and where each
/// mention stands and what it refers to.
pub open spec fn projection(c: ContentView) -> (Seq<char>, Seq<(Span, UriView)>) {
    (c.text, c.mentions.map_values(|m: MentionView| (m.range, m.uri)))
}

/// Both messages have the same text, as many mentions, and mentions that
/// stand at the same ranges and refer to the same URIs, one for one.
pub open spec fn same_text_and_mentions(a: ContentView, b: ContentView) -> bool {
    &&& a.text == b.text
    &&& a.mentions.len() == b.mentions.len()
    &&& forall|k: int|
        0 <= k < a.mentions.len() ==> (#[trigger] a.mentions[k]).range == b.mentions[k].range
            && a.mentions[k].uri == b.mentions[k].uri
}

/// Two messages have the same projection exactly when their texts are equal
/// and their mentions match one for one in range and URI; what a mention
/// carries besides is not compared.
pub proof fn lemma_same_projection_iff(a: ContentView, b: ContentView)
    ensures
        (projection(a) == projection(b)) == same_text_and_mentions(a, b),
{
    let p = projection(a);
    let q = projection(b);
    if p == q {
        assert(p.1.len() == a.mentions.len());
        assert(q.1.len() == b.mentions.len());
        assert forall|k: int| 0 <= k < a.mentions.len() implies (#[trigger] a.mentions[k]).range
            == b.mentions[k].range && a.mentions[k].uri == b.mentions[k].uri by {
            assert(p.1[k] == q.1[k]);
        }
    }
    if same_text_and_mentions(a, b) {
        assert(p.1 =~= q.1);
    }
}

impl UserMessageContent {
    /// Whether both messages have the same text, and mentions at the same
    /// ranges with the same URIs.
    pub fn has_same_projection(&self, other: &Self) -> (b: bool)
        ensures
            b == (projection(self@) == projection(other@)),
            b == same_text_and_mentions(self@, other@),
    {
        let ghost p = projection(self@);
        let ghost q = projection(other@);
        proof {
            lemma_same_projection_iff(self@, other@);
        }
        if self.text != other.text {
            return false;
        }
        if self.mentions.len() != other.mentions.len() {
            assert(p.1.len() != q.1.len());
            return false;
        }
        let n = self.mentions.len();
        let mut k: usize = 0;
        while k < n
            invariant
                n == self.mentions.len() == other.mentions.len(),
                p == projection(self@),
                q == projection(other@),
                p.0 == q.0,
                k <= n,
                forall|j: int| 0 <= j < k ==> #[trigger] p.1[j] == q.1[j],
            decreases n - k,
        {
            let m = &self.mentions[k];
            let o = &other.mentions[k];
            assert(p.1[k as int] == (span_of(m.range), m.uri@));
            assert(q.1[k as int] == (span_of(o.range), o.uri@));
            if m.range.start != o.range.start || m.range.end != o.range.end || !m.uri.same_as(&o.uri) {
                return false;
            }
            k = k + 1;
        }
        assert(p.1 =~= q.1);
        true
    }
}


/// A prose segment shows exactly the text at its source range, and that text
/// neither starts nor ends with whitespace.
pub open spec fn prose_matches_source(cs: Seq<char>, s: SegmentView) -> bool {
    s.content matches SegmentContentView::Text(t) ==> s.source matches Some(r) ==> {
        &&& t == text_between(cs, r.start, r.end)
        &&& t.len() > 0
        &&& !is_whitespace(t[0])
        &&& !is_whitespace(t.last())
    }
}

pub open spec fn all_prose_matches_source(cs: Seq<char>, segs: Seq<SegmentView>) -> bool {
    forall|i: int| 0 <= i < segs.len() ==> prose_matches_source(cs, #[trigger] segs[i])
}

proof fn lemma_all_prose_concat(cs: Seq<char>, a: Seq<SegmentView>, b: Seq<SegmentView>)
    requires
        all_prose_matches_source(cs, a),
        all_prose_matches_source(cs, b),
    ensures
        all_prose_matches_source(cs, a + b),
{
    assert forall|i: int| 0 <= i < (a + b).len() implies prose_matches_source(cs, #[trigger] (a + b)[i]) by {
        if i < a.len() {
            assert((a + b)[i] == a[i]);
        } else {
            assert((a + b)[i] == b[i - a.len()]);
        }
    }
}

proof fn lemma_trimmed_segment_prose(cs: Seq<char>, i: int, j: int)
    ensures
        all_prose_matches_source(cs, trimmed_segment(cs, i, j)),
{
    if exists|s: int, e: int| is_trimmed(cs, i, j, s, e) {
        let (s, e) = choose|s: int, e: int| is_trimmed(cs, i, j, s, e);
        {
            lemma_char_at_byte_offset(cs, s);
            lemma_char_at_byte_offset(cs, e);
            let t = cs.subrange(s, e);
            assert(t[0] == cs[s]);
            assert(t.last() == cs[e - 1]);
        }
    }
}

proof fn lemma_line_segments_prose(
    cs: Seq<char>,
    ms: Seq<MentionView>,
    k: int,
    cursor: int,
    lo: int,
    hi: int,
)
    ensures
        all_prose_matches_source(cs, line_segments(cs, ms, k, cursor, lo, hi)),
    decreases ms.len() - k,
{
    if 0 <= k < ms.len() {
        if ms[k].range.start < lo {
            lemma_line_segments_prose(cs, ms, k + 1, cursor, lo, hi);
        } else if ms[k].range.end > hi {
            lemma_trimmed_segment_prose(cs, char_at_byte(cs, cursor), char_at_byte(cs, hi));
        } else {
            lemma_trimmed_segment_prose(cs, char_at_byte(cs, cursor), char_at_byte(cs, ms[k].range.start));
            lemma_line_segments_prose(cs, ms, k + 1, ms[k].range.end, lo, hi);
            let m = seq![mention_segment(ms[k])];
            assert(all_prose_matches_source(cs, m));
            lemma_all_prose_concat(cs, text_segment(cs, cursor, ms[k].range.start), m);
            lemma_all_prose_concat(
                cs,
                text_segment(cs, cursor, ms[k].range.start) + m,
                line_segments(cs, ms, k + 1, ms[k].range.end, lo, hi),
            );
        }
    } else {
        lemma_trimmed_segment_prose(cs, char_at_byte(cs, cursor), char_at_byte(cs, hi));
    }
}

/// Every prose segment of a message's first line shows exactly the message
/// text at its source range, trimmed of whitespace and never empty.
pub proof fn lemma_first_line_prose_matches_source(c: ContentView)
    ensures
        all_prose_matches_source(c.text, first_line_of(c).segments),
{
    if is_blank(c.text, 0, c.text.len() as int) {
        assert(all_prose_matches_source(c.text, seq![placeholder_segment()]));
    } else {
        let (a, b) = choose|a: int, b: int| is_first_line_span(c.text, a, b);
        let lo = byte_offset(c.text, a) as int;
        let hi = byte_offset(c.text, b) as int;
        lemma_line_segments_prose(c.text, c.mentions, 0, lo, lo, hi);
    }
}


/// The segment's source range, if it has one, lies in `lo..hi`.
pub open spec fn source_within(s: SegmentView, lo: int, hi: int) -> bool {
    s.source matches Some(r) ==> lo <= r.start <= r.end <= hi
}

pub open spec fn all_sources_within(segs: Seq<SegmentView>, lo: int, hi: int) -> bool {
    forall|i: int| 0 <= i < segs.len() ==> source_within(#[trigger] segs[i], lo, hi)
}

proof fn lemma_all_sources_within_concat(a: Seq<SegmentView>, b: Seq<SegmentView>, lo: int, hi: int)
    requires
        all_sources_within(a, lo, hi),
        all_sources_within(b, lo, hi),
    ensures
        all_sources_within(a + b, lo, hi),
{
    assert forall|i: int| 0 <= i < (a + b).len() implies source_within(#[trigger] (a + b)[i], lo, hi) by {
        if i < a.len() {
            assert((a + b)[i] == a[i]);
        } else {
            assert((a + b)[i] == b[i - a.len()]);
        }
    }
}

proof fn lemma_byte_offset_mono(cs: Seq<char>, i: int, j: int)
    requires
        0 <= i <= j <= cs.len(),
    ensures
        byte_offset(cs, i) <= byte_offset(cs, j),
{
    if i < j {
        lemma_byte_offset_strict(cs, i, j);
    }
}

proof fn lemma_text_segment_within(cs: Seq<char>, from: int, to: int)
    requires
        is_boundary(cs, from),
        is_boundary(cs, to),
    ensures
        all_sources_within(text_segment(cs, from, to), from, to),
{
    let i = char_at_byte(cs, from);
    let j = char_at_byte(cs, to);
    if exists|s: int, e: int| is_trimmed(cs, i, j, s, e) {
        let (s, e) = choose|s: int, e: int| is_trimmed(cs, i, j, s, e);
        lemma_byte_offset_mono(cs, i, s);
        lemma_byte_offset_mono(cs, s, e);
        lemma_byte_offset_mono(cs, e, j);
    }
}

proof fn lemma_all_sources_widen(segs: Seq<SegmentView>, a: int, b: int, lo: int, hi: int)
    requires
        all_sources_within(segs, a, b),
        lo <= a,
        b <= hi,
    ensures
        all_sources_within(segs, lo, hi),
{
    assert forall|i: int| 0 <= i < segs.len() implies source_within(#[trigger] segs[i], lo, hi) by {
        assert(source_within(segs[i], a, b));
    }
}

proof fn lemma_line_segments_within(
    c: ContentView,
    k: int,
    cursor: int,
    lo: int,
    hi: int,
)
    requires
        well_formed(c),
        mentions_hold_links(c),
        is_boundary(c.text, cursor),
        is_boundary(c.text, hi),
        lo <= cursor <= hi,
    ensures
        all_sources_within(line_segments(c.text, c.mentions, k, cursor, lo, hi), lo, hi),
    decreases c.mentions.len() - k,
{
    let cs = c.text;
    let ms = c.mentions;
    if 0 <= k < ms.len() {
        if ms[k].range.start < lo {
            lemma_line_segments_within(c, k + 1, cursor, lo, hi);
        } else if ms[k].range.end > hi {
            lemma_text_segment_within(cs, cursor, hi);
            lemma_all_sources_widen(text_segment(cs, cursor, hi), cursor, hi, lo, hi);
        } else {
            let m = ms[k];
            assert(mention_holds_link(cs, m));
            lemma_text_segment_within(cs, cursor, m.range.start);
            let before = text_segment(cs, cursor, m.range.start);
            assert forall|i: int| 0 <= i < before.len() implies source_within(#[trigger] before[i], lo, hi) by {
                assert(source_within(before[i], cursor, m.range.start));
            }
            lemma_line_segments_within(c, k + 1, m.range.end, lo, hi);
            let one = seq![mention_segment(m)];
            assert(all_sources_within(one, lo, hi));
            lemma_all_sources_within_concat(before, one, lo, hi);
            lemma_all_sources_within_concat(
                before + one,
                line_segments(cs, ms, k + 1, m.range.end, lo, hi),
                lo,
                hi,
            );
        }
    } else {
        lemma_text_segment_within(cs, cursor, hi);
        lemma_all_sources_widen(text_segment(cs, cursor, hi), cursor, hi, lo, hi);
    }
}

/// In a well-formed message whose mentions hold their links, every segment of
/// the first line stands for bytes inside the line's own source range.
pub proof fn lemma_first_line_sources_within_line(c: ContentView)
    requires
        well_formed(c),
        mentions_hold_links(c),
    ensures
        first_line_of(c).source matches Some(line) ==> all_sources_within(
            first_line_of(c).segments,
            line.start,
            line.end,
        ),
        first_line_of(c).source is None ==> first_line_of(c).segments == seq![placeholder_segment()],
{
    if !is_blank(c.text, 0, c.text.len() as int) {
        lemma_first_line_span_exists(c.text);
        let (a, b) = choose|a: int, b: int| is_first_line_span(c.text, a, b);
        let lo = byte_offset(c.text, a) as int;
        let hi = byte_offset(c.text, b) as int;
        lemma_char_at_byte_offset(c.text, a);
        lemma_char_at_byte_offset(c.text, b);
        lemma_byte_offset_mono(c.text, a, b);
        lemma_line_segments_within(c, 0, lo, lo, hi);
    }
}


impl Mention {
    /// A copy of this mention's content.
    pub fn duplicate(&self) -> (r: Mention)
        ensures
            r@ == self@,
    {
        match self {
            Mention::Text { content } => Mention::Text { content: content.clone() },
            Mention::Link => Mention::Link,
            Mention::Image(image) => Mention::Image(
                MentionImage { data: image.data.clone(), format: image.format },
            ),
        }
    }
}

impl UserMessageMention {
    /// A copy of this mention.
    pub fn duplicate(&self) -> (r: UserMessageMention)
        ensures
            r@ == self@,
    {
        UserMessageMention {
            range: self.range.start..self.range.end,
            uri: self.uri.duplicate(),
            content: self.content.duplicate(),
            label: self.label.clone(),
            label_range: match &self.label_range {
                Some(r) => Some(r.start..r.end),
                None => None,
            },
        }
    }
}

impl Clone for UserMessageContent {
    fn clone(&self) -> (r: Self)
        ensures
            r@ == self@,
    {
        proof {
            use_type_invariant(self);
        }
        let mut mentions: Vec<UserMessageMention> = Vec::new();
        let mut k: usize = 0;
        while k < self.mentions.len()
            invariant
                k <= self.mentions.len(),
                mentions_view(mentions@) == mentions_view(self.mentions@).take(k as int),
            decreases self.mentions.len() - k,
        {
            let ghost before = mentions_view(mentions@);
            mentions.push(self.mentions[k].duplicate());
            assert(mentions_view(mentions@) =~= before.push(self.mentions@[k as int]@));
            assert(mentions_view(self.mentions@).take(k + 1) =~= mentions_view(self.mentions@).take(
                k as int,
            ).push(self.mentions@[k as int]@));
            k = k + 1;
        }
        assert(mentions_view(self.mentions@).take(self.mentions.len() as int) =~= mentions_view(
            self.mentions@,
        ));
        UserMessageContent { text: self.text.clone(), mentions }
    }
}


/// Neither the text nor any mention's label holds a carriage return.
pub open spec fn has_no_carriage_return(c: ContentView) -> bool {
    &&& !c.text.contains('\r')
    &&& forall|k: int| 0 <= k < c.mentions.len() ==> !(#[trigger] c.mentions[k]).label.contains('\r')
}

proof fn lemma_concat_has_no_carriage_return(a: Seq<char>, b: Seq<char>)
    requires
        !a.contains('\r'),
        !b.contains('\r'),
    ensures
        !(a + b).contains('\r'),
{
    if (a + b).contains('\r') {
        let i = choose|i: int| 0 <= i < (a + b).len() && (a + b)[i] == '\r';
        if i < a.len() {
            assert(a[i] == '\r');
        } else {
            assert(b[i - a.len()] == '\r');
        }
    }
}

/// The text and the labels of a message built from any blocks hold no
/// carriage return: every line ends with a single newline.
pub proof fn lemma_content_of_blocks_has_no_carriage_return(bs: Seq<BlockView>)
    ensures
        has_no_carriage_return(content_of_blocks(bs)),
    decreases bs.len(),
{
    if bs.len() > 0 {
        lemma_content_of_blocks_has_no_carriage_return(bs.drop_last());
        let acc = content_of_blocks(bs.drop_last());
        let r = content_of_blocks(bs);
        match bs.last() {
            BlockView::Text(t) => {
                crate::line_ending::lemma_normalize_has_no_carriage_return(t);
                lemma_concat_has_no_carriage_return(acc.text, normalize(t));
            },
            BlockView::Resource(Some(u), _) => {
                crate::line_ending::lemma_normalize_has_no_carriage_return(u.link);
                crate::line_ending::lemma_normalize_has_no_carriage_return(seq!['@'] + u.name);
                lemma_concat_has_no_carriage_return(acc.text, normalize(u.link));
            },
            BlockView::ResourceLink(Some(u)) => {
                crate::line_ending::lemma_normalize_has_no_carriage_return(u.link);
                crate::line_ending::lemma_normalize_has_no_carriage_return(seq!['@'] + u.name);
                lemma_concat_has_no_carriage_return(acc.text, normalize(u.link));
            },
            BlockView::Image(Some(u), _, Some(_)) => {
                crate::line_ending::lemma_normalize_has_no_carriage_return(u.link);
                crate::line_ending::lemma_normalize_has_no_carriage_return(seq!['@'] + u.name);
                lemma_concat_has_no_carriage_return(acc.text, normalize(u.link));
            },
            _ => {},
        }
        assert forall|k: int| 0 <= k < r.mentions.len() implies !(#[trigger] r.mentions[k]).label.contains(
            '\r',
        ) by {
            if k < acc.mentions.len() {
                assert(r.mentions[k] == acc.mentions[k]);
            }
        }
    }
}

/// A block that adds nothing to a message: a resource, link or image whose URI
/// did not parse, an image whose format is unknown, or any other block.
pub open spec fn is_dropped(b: BlockView) -> bool {
    match b {
        BlockView::Text(_) => false,
        BlockView::Resource(Some(_), _) => false,
        BlockView::ResourceLink(Some(_)) => false,
        BlockView::Image(Some(_), _, Some(_)) => false,
        _ => true,
    }
}

/// `acc` with blocks `ys` appended, in order.
pub open spec fn extend_with_blocks(acc: ContentView, ys: Seq<BlockView>) -> ContentView
    decreases ys.len(),
{
    if ys.len() == 0 {
        acc
    } else {
        with_block(extend_with_blocks(acc, ys.drop_last()), ys.last())
    }
}

/// `s` moved `d` bytes to the right.
pub open spec fn shift_span(s: Span, d: int) -> Span {
    Span { start: s.start + d, end: s.end + d }
}

/// Mention `m` with its ranges moved `d` bytes to the right.
pub open spec fn shift_mention(m: MentionView, d: int) -> MentionView {
    MentionView {
        range: shift_span(m.range, d),
        uri: m.uri,
        content: m.content,
        label: m.label,
        label_range: match m.label_range {
            Some(r) => Some(shift_span(r, d)),
            None => None,
        },
    }
}

/// Message `b` placed after message `a`: the texts are joined and `b`'s
/// mentions move right by the byte length of `a`'s text.
pub open spec fn join_content(a: ContentView, b: ContentView) -> ContentView {
    ContentView {
        text: a.text + b.text,
        mentions: a.mentions + b.mentions.map_values(
            |m: MentionView| shift_mention(m, byte_len(a.text) as int),
        ),
    }
}

proof fn lemma_content_of_blocks_split(xs: Seq<BlockView>, ys: Seq<BlockView>)
    ensures
        content_of_blocks(xs + ys) == extend_with_blocks(content_of_blocks(xs), ys),
    decreases ys.len(),
{
    if ys.len() == 0 {
        assert(xs + ys =~= xs);
    } else {
        assert((xs + ys).drop_last() =~= xs + ys.drop_last());
        assert((xs + ys).last() == ys.last());
        lemma_content_of_blocks_split(xs, ys.drop_last());
    }
}

proof fn lemma_extend_empty(ys: Seq<BlockView>)
    ensures
        extend_with_blocks(empty_content(), ys) == content_of_blocks(ys),
    decreases ys.len(),
{
    if ys.len() > 0 {
        lemma_extend_empty(ys.drop_last());
    }
}

#[verifier::spinoff_prover]
#[verifier::rlimit(60)]
proof fn lemma_with_mention_join(a: ContentView, c: ContentView, u: UriView, content: MentionContentView)
    ensures
        with_mention(join_content(a, c), u, content) == join_content(a, with_mention(c, u, content)),
{
    let d = byte_len(a.text) as int;
    let ac = join_content(a, c);
    lemma_byte_len_concat(a.text, c.text);
    assert(byte_len(ac.text) == d + byte_len(c.text));
    let f = |m: MentionView| shift_mention(m, d);
    let cm = with_mention(c, u, content).mentions;
    let x = cm.last();
    let l = with_mention(ac, u, content);
    let lx = l.mentions.last();
    assert(cm =~= c.mentions.push(x));
    assert(l.mentions =~= ac.mentions.push(lx));
    assert(lx == f(x));
    assert(cm.map_values(f) =~= c.mentions.map_values(f).push(f(x)));
    let r = join_content(a, with_mention(c, u, content));
    assert(l.text =~= r.text);
    assert(l.mentions =~= r.mentions);
}

proof fn lemma_with_block_join(a: ContentView, c: ContentView, b: BlockView)
    ensures
        with_block(join_content(a, c), b) == join_content(a, with_block(c, b)),
{
    match b {
        BlockView::Text(t) => {
            let l = with_block(join_content(a, c), b);
            let r = join_content(a, with_block(c, b));
            assert(l.text =~= r.text);
            assert(l.mentions =~= r.mentions);
        },
        BlockView::Resource(Some(u), text) => {
            lemma_with_mention_join(a, c, u, MentionContentView::Text(text));
        },
        BlockView::ResourceLink(Some(u)) => {
            lemma_with_mention_join(a, c, u, MentionContentView::Link);
        },
        BlockView::Image(Some(u), data, Some(f)) => {
            lemma_with_mention_join(a, c, u, MentionContentView::Image(data, f));
        },
        _ => {},
    }
}

proof fn lemma_extend_join(a: ContentView, c: ContentView, ys: Seq<BlockView>)
    ensures
        extend_with_blocks(join_content(a, c), ys) == join_content(a, extend_with_blocks(c, ys)),
    decreases ys.len(),
{
    if ys.len() > 0 {
        lemma_extend_join(a, c, ys.drop_last());
        lemma_with_block_join(a, extend_with_blocks(c, ys.drop_last()), ys.last());
    }
}

/// The message built from `xs` followed by `ys` is the message built from
/// `xs` joined with the one built from `ys`: texts concatenated, and the
/// mentions of `ys` shifted right by the byte length of the text of `xs`.
pub proof fn lemma_content_of_blocks_concat(xs: Seq<BlockView>, ys: Seq<BlockView>)
    ensures
        content_of_blocks(xs + ys) == join_content(content_of_blocks(xs), content_of_blocks(ys)),
{
    let a = content_of_blocks(xs);
    lemma_content_of_blocks_split(xs, ys);
    assert(join_content(a, empty_content()) =~= a) by {
        assert(a.text + Seq::<char>::empty() =~= a.text);
        assert(join_content(a, empty_content()).mentions =~= a.mentions);
    }
    lemma_extend_join(a, empty_content(), ys);
    lemma_extend_empty(ys);
}

/// A dropped block changes nothing, wherever it stands: the blocks after it
/// are still read, as if it were not there.
pub proof fn lemma_dropped_block_changes_nothing(xs: Seq<BlockView>, b: BlockView, ys: Seq<BlockView>)
    requires
        is_dropped(b),
    ensures
        content_of_blocks(xs.push(b) + ys) == content_of_blocks(xs + ys),
{
    lemma_content_of_blocks_split(xs.push(b), ys);
    lemma_content_of_blocks_split(xs, ys);
    assert(xs.push(b).drop_last() =~= xs);
    assert(content_of_blocks(xs.push(b)) == content_of_blocks(xs));
}


/// A text block adds its text, with line endings normalised, to the end of
/// the message, whatever that text is, and adds no mention; a message of one
/// text block is that block's normalised text.
pub proof fn lemma_text_block_appends_its_text(xs: Seq<BlockView>, t: Seq<char>)
    ensures
        content_of_blocks(xs.push(BlockView::Text(t))).text == content_of_blocks(xs).text
            + normalize(t),
        content_of_blocks(xs.push(BlockView::Text(t))).mentions == content_of_blocks(xs).mentions,
        content_of_blocks(seq![BlockView::Text(t)]).text == normalize(t),
        content_of_blocks(seq![BlockView::Text(t)]).mentions.len() == 0,
{
    assert(xs.push(BlockView::Text(t)).drop_last() =~= xs);
    let one = seq![BlockView::Text(t)];
    assert(one.drop_last() =~= Seq::<BlockView>::empty());
    assert(one.last() == BlockView::Text(t));
    assert(content_of_blocks(Seq::<BlockView>::empty()) == empty_content());
    assert(content_of_blocks(one) == with_block(empty_content(), BlockView::Text(t)));
    assert(Seq::<char>::empty() + normalize(t) =~= normalize(t));
}

/// A resource, link or image whose URI parsed (and, for an image, whose
/// format is known) adds its URI's normalised link to the end of the text,
/// and one mention standing exactly over those bytes, labelled `@` and the
/// URI's normalised name, carrying what the block carries.
pub proof fn lemma_mention_block_appends_its_link(xs: Seq<BlockView>, b: BlockView)
    requires
        !is_dropped(b),
        !(b is Text),
    ensures
        ({
            let before = content_of_blocks(xs);
            let after = content_of_blocks(xs.push(b));
            let u = match b {
                BlockView::Resource(Some(u), _) => u,
                BlockView::ResourceLink(Some(u)) => u,
                BlockView::Image(Some(u), _, _) => u,
                _ => arbitrary(),
            };
            let content = match b {
                BlockView::Resource(_, text) => MentionContentView::Text(text),
                BlockView::Image(_, data, Some(f)) => MentionContentView::Image(data, f),
                _ => MentionContentView::Link,
            };
            &&& after.text == before.text + normalize(u.link)
            &&& after.mentions.len() == before.mentions.len() + 1
            &&& after.mentions.drop_last() == before.mentions
            &&& after.mentions.last().range == Span {
                start: byte_len(before.text) as int,
                end: (byte_len(before.text) + byte_len(normalize(u.link))) as int,
            }
            &&& after.mentions.last().uri == u
            &&& after.mentions.last().label == normalize(seq!['@'] + u.name)
            &&& after.mentions.last().content == content
        }),
{
    assert(xs.push(b).drop_last() =~= xs);
    let before = content_of_blocks(xs);
    let after = content_of_blocks(xs.push(b));
    assert(after.mentions.drop_last() =~= before.mentions);
}


/// Segment `s` shows byte `x` of the text: `x` lies in the source range of
/// prose that `s` shows, or in the range of a mention of `ms` that `s` shows.
pub open spec fn shows_byte(ms: Seq<MentionView>, s: SegmentView, x: int) -> bool {
    ||| (s.content is Text && (s.source matches Some(r) && r.start <= x < r.end))
    ||| exists|k: int|
        0 <= k < ms.len() && s.content == SegmentContentView::Mention(
            (#[trigger] ms[k]).uri,
            ms[k].label,
        ) && ms[k].range.start <= x < ms[k].range.end
}

/// Some segment of `segs` shows byte `x`.
pub open spec fn is_shown(ms: Seq<MentionView>, segs: Seq<SegmentView>, x: int) -> bool {
    exists|j: int| 0 <= j < segs.len() && shows_byte(ms, #[trigger] segs[j], x)
}

proof fn lemma_shown_concat(ms: Seq<MentionView>, a: Seq<SegmentView>, b: Seq<SegmentView>, x: int)
    requires
        is_shown(ms, a, x) || is_shown(ms, b, x),
    ensures
        is_shown(ms, a + b, x),
{
    if is_shown(ms, a, x) {
        let j = choose|j: int| 0 <= j < a.len() && shows_byte(ms, #[trigger] a[j], x);
        assert((a + b)[j] == a[j]);
    } else {
        let j = choose|j: int| 0 <= j < b.len() && shows_byte(ms, #[trigger] b[j], x);
        assert((a + b)[a.len() + j] == b[j]);
    }
}

/// The trimmed prose of `cs[i..j]` holds every char of it that is not whitespace.
proof fn lemma_trimmed_segment_shows(cs: Seq<char>, ms: Seq<MentionView>, i: int, j: int, p: int)
    requires
        0 <= i <= p < j <= cs.len(),
        !is_whitespace(cs[p]),
    ensures
        is_shown(ms, trimmed_segment(cs, i, j), byte_offset(cs, p) as int),
{
    lemma_first_non_blank_from(cs, i);
    let s0 = first_non_blank_from(cs, i);
    assert(s0 <= p);
    lemma_end_of_non_blank(cs, s0, j);
    let e0 = end_of_non_blank(cs, s0, j);
    assert(e0 > p);
    assert(is_trimmed(cs, i, j, s0, e0));
    let (s, e) = choose|s: int, e: int| is_trimmed(cs, i, j, s, e);
    assert(s <= p < e) by {
        if p < s {
            assert(is_whitespace(cs[p]));
        }
        if p >= e {
            assert(is_whitespace(cs[p]));
        }
    }
    lemma_byte_offset_mono(cs, s, p);
    lemma_byte_offset_strict(cs, p, e);
    let segs = trimmed_segment(cs, i, j);
    assert(shows_byte(ms, segs[0], byte_offset(cs, p) as int));
}

/// The prose between two boundaries holds every char between them that is not whitespace.
proof fn lemma_text_segment_shows(cs: Seq<char>, ms: Seq<MentionView>, from: int, to: int, p: int)
    requires
        is_boundary(cs, from),
        is_boundary(cs, to),
        0 <= p < cs.len(),
        !is_whitespace(cs[p]),
        from <= byte_offset(cs, p) < to,
    ensures
        is_shown(ms, text_segment(cs, from, to), byte_offset(cs, p) as int),
{
    let i = char_at_byte(cs, from);
    let j = char_at_byte(cs, to);
    if p < i {
        lemma_byte_offset_strict(cs, p, i);
    }
    if j <= p {
        lemma_byte_offset_mono(cs, j, p);
    }
    lemma_trimmed_segment_shows(cs, ms, i, j, p);
}

proof fn lemma_line_segments_show(c: ContentView, k: int, cursor: int, lo: int, hi: int, p: int)
    requires
        well_formed(c),
        0 <= k,
        is_boundary(c.text, cursor),
        is_boundary(c.text, hi),
        lo <= cursor <= hi,
        0 <= p < c.text.len(),
        !is_whitespace(c.text[p]),
        cursor <= byte_offset(c.text, p) < hi,
    ensures
        is_shown(c.mentions, line_segments(c.text, c.mentions, k, cursor, lo, hi), byte_offset(c.text, p) as int),
    decreases c.mentions.len() - k,
{
    let cs = c.text;
    let ms = c.mentions;
    let x = byte_offset(cs, p) as int;
    if 0 <= k < ms.len() {
        if ms[k].range.start < lo {
            lemma_line_segments_show(c, k + 1, cursor, lo, hi, p);
        } else if ms[k].range.end > hi {
            lemma_text_segment_show_line(c, cursor, hi, p);
        } else {
            let m = ms[k];
            let before = text_segment(cs, cursor, m.range.start);
            let one = seq![mention_segment(m)];
            let after = line_segments(cs, ms, k + 1, m.range.end, lo, hi);
            if x < m.range.start {
                lemma_text_segment_shows(cs, ms, cursor, m.range.start, p);
                lemma_shown_concat(ms, before, one, x);
            } else if x < m.range.end {
                assert(shows_byte(ms, one[0], x));
                lemma_shown_concat(ms, before, one, x);
            } else {
                lemma_line_segments_show(c, k + 1, m.range.end, lo, hi, p);
                lemma_shown_concat(ms, before + one, after, x);
            }
            if x < m.range.end {
                lemma_shown_concat(ms, before + one, after, x);
            }
        }
    } else {
        lemma_text_segment_show_line(c, cursor, hi, p);
    }
}

proof fn lemma_text_segment_show_line(c: ContentView, cursor: int, hi: int, p: int)
    requires
        is_boundary(c.text, cursor),
        is_boundary(c.text, hi),
        0 <= p < c.text.len(),
        !is_whitespace(c.text[p]),
        cursor <= byte_offset(c.text, p) < hi,
    ensures
        is_shown(c.mentions, text_segment(c.text, cursor, hi), byte_offset(c.text, p) as int),
{
    lemma_text_segment_shows(c.text, c.mentions, cursor, hi, p);
}

/// Nothing of the first line is left out: every char of it that is not
/// whitespace is shown, either inside the source range of a prose segment or
/// inside the range of a mention that has a segment.
pub proof fn lemma_first_line_shows_every_char(c: ContentView, p: int)
    requires
        well_formed(c),
        first_line_of(c).source matches Some(line) && line.start <= byte_offset(c.text, p)
            < line.end,
        0 <= p < c.text.len(),
        !is_whitespace(c.text[p]),
    ensures
        is_shown(c.mentions, first_line_of(c).segments, byte_offset(c.text, p) as int),
{
    lemma_first_line_span_exists(c.text);
    let (a, b) = choose|a: int, b: int| is_first_line_span(c.text, a, b);
    let lo = byte_offset(c.text, a) as int;
    let hi = byte_offset(c.text, b) as int;
    lemma_char_at_byte_offset(c.text, a);
    lemma_char_at_byte_offset(c.text, b);
    lemma_line_segments_show(c, 0, lo, lo, hi, p);
}

} // verus!
