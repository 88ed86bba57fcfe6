use agent_ui::sticky_preview::{
    sticky_preview_layout, sticky_user_message_search_highlights, StickyPreviewLayout,
    StickyUserMessageFit,
};
use agent_ui::user_message_content::{
    MentionUri, UserMessageContentLineSegment, UserMessageContentSegment,
};
use std::ops::Range;

fn text_segment(text: &str, source_range: Range<usize>) -> UserMessageContentLineSegment {
    UserMessageContentLineSegment {
        content: UserMessageContentSegment::Text(text.to_string()),
        source_range: Some(source_range),
    }
}

fn mention_segment(label: &str, source_range: Option<Range<usize>>) -> UserMessageContentLineSegment {
    UserMessageContentLineSegment {
        content: UserMessageContentSegment::Mention {
            uri: MentionUri {
                name: label.trim_start_matches('@').to_string(),
                link: format!("[{}](file:///x)", label),
            },
            label: label.to_string(),
        },
        source_range,
    }
}

#[test]
fn search_highlights_are_mapped_to_display_segments() {
    let segments = [
        text_segment("first", 0..5),
        text_segment("reference", 6..15),
        text_segment("more content", 16..28),
    ];
    let highlights =
        sticky_user_message_search_highlights(&segments, &[(7..11, false), (20..24, true)])
            .expect("expected matches in sticky preview");

    assert_eq!(highlights.segment_ranges[0], Vec::new());
    assert_eq!(highlights.segment_ranges[1].len(), 1);
    assert_eq!(highlights.segment_ranges[1][0].range, 1..5);
    assert!(!highlights.segment_ranges[1][0].is_active);
    assert_eq!(highlights.segment_ranges[2].len(), 1);
    assert_eq!(highlights.segment_ranges[2][0].range, 4..8);
    assert!(highlights.segment_ranges[2][0].is_active);
}

#[test]
fn search_highlights_skip_empty_and_invalid_utf8_ranges() {
    let segments = [text_segment("éclair", 0..7)];

    assert_eq!(
        sticky_user_message_search_highlights(&segments, &[(0..0, false), (1..3, true)]),
        None
    );
}

#[test]
fn search_highlights_go_to_the_first_segment_that_holds_the_match() {
    let segments = [
        mention_segment("@main.rs", Some(7..15)),
        text_segment("main.rs", 8..15),
        mention_segment("@none", None),
    ];
    let highlights = sticky_user_message_search_highlights(&segments, &[(9..12, true), (9..12, false)])
        .expect("both matches land in the mention");
    assert_eq!(highlights.segment_ranges.len(), 3);
    assert_eq!(highlights.segment_ranges[0].len(), 2);
    assert_eq!(highlights.segment_ranges[0][0].range, 2..5);
    assert!(highlights.segment_ranges[0][0].is_active);
    assert!(!highlights.segment_ranges[0][1].is_active);
    assert!(highlights.segment_ranges[1].is_empty());
}

#[test]
fn search_highlights_skip_matches_past_the_display_text() {
    let segments = [text_segment("ab", 0..10)];
    assert_eq!(sticky_user_message_search_highlights(&segments, &[(1..5, true)]), None);
    assert_eq!(sticky_user_message_search_highlights(&segments, &[(11..12, true)]), None);
    let found = sticky_user_message_search_highlights(&segments, &[(1..2, false)]).unwrap();
    assert_eq!(found.segment_ranges[0][0].range, 1..2);
}

#[test]
fn layout_keeps_a_dropped_text_segment_instead_of_an_ellipsis() {
    let segments = [mention_segment("@a", None), text_segment("long text", 3..12)];
    let layout = sticky_preview_layout(
        &segments,
        StickyUserMessageFit {
            visible_segment_count: 1,
            show_ellipsis: true,
        },
    );
    assert_eq!(
        layout,
        StickyPreviewLayout {
            visible_segment_count: 2,
            truncated_text_index: Some(1),
            show_ellipsis: false,
        }
    );
}

#[test]
fn layout_shows_an_ellipsis_after_a_dropped_mention() {
    let segments = [text_segment("see", 0..3), mention_segment("@a", None)];
    let layout = sticky_preview_layout(
        &segments,
        StickyUserMessageFit {
            visible_segment_count: 1,
            show_ellipsis: false,
        },
    );
    assert_eq!(
        layout,
        StickyPreviewLayout {
            visible_segment_count: 1,
            truncated_text_index: None,
            show_ellipsis: true,
        }
    );
}

#[test]
fn layout_truncates_a_lone_text_segment() {
    let segments = [text_segment("only", 0..4)];
    let layout = sticky_preview_layout(
        &segments,
        StickyUserMessageFit {
            visible_segment_count: 1,
            show_ellipsis: true,
        },
    );
    assert_eq!(
        layout,
        StickyPreviewLayout {
            visible_segment_count: 1,
            truncated_text_index: Some(0),
            show_ellipsis: true,
        }
    );
    let all_fit = sticky_preview_layout(
        &[mention_segment("@a", None), mention_segment("@b", None)],
        StickyUserMessageFit {
            visible_segment_count: 2,
            show_ellipsis: false,
        },
    );
    assert_eq!(
        all_fit,
        StickyPreviewLayout {
            visible_segment_count: 2,
            truncated_text_index: None,
            show_ellipsis: false,
        }
    );
}

#[test]
fn unplaced_matches_change_nothing() {
    let segments = [text_segment("first", 0..5), text_segment("éclair", 6..13)];
    let with_unplaced = sticky_user_message_search_highlights(
        &segments,
        &[(1..3, true), (4..4, false), (5..6, true), (7..9, false), (8..10, true)],
    );
    let without = sticky_user_message_search_highlights(&segments, &[(1..3, true), (8..10, true)]);
    assert_eq!(with_unplaced, without);
    assert_eq!(without.unwrap().segment_ranges[1][0].range, 2..4);
}
