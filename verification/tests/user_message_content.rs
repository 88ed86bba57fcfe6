use agent_ui::user_message_content::{
    ContentBlock, ImageFormat, Mention, MentionUri, UserMessageContent,
    UserMessageContentLineSegment, UserMessageContentSegment,
};

fn file_uri(name: &str, path: &str) -> MentionUri {
    MentionUri {
        name: name.to_string(),
        link: format!("[@{}](file://{})", name, path),
    }
}

fn text(s: &str) -> ContentBlock {
    ContentBlock::Text(s.to_string())
}

#[test]
fn first_line_uses_the_same_normalized_mentions_as_the_editor() {
    let content = UserMessageContent::from_blocks(vec![
        text("Check "),
        ContentBlock::ResourceLink {
            uri: Some(file_uri("main.rs", "/project/main.rs")),
        },
        text(" now"),
    ]);

    assert_eq!(content.mentions().len(), 1);
    let range = content.mentions()[0].range.clone();
    assert_eq!(&content.text()[range], "[@main.rs](file:///project/main.rs)");
    assert!(matches!(
        content.first_line().segments.as_slice(),
        [
            UserMessageContentLineSegment {
                content: UserMessageContentSegment::Text(_),
                ..
            },
            UserMessageContentLineSegment {
                content: UserMessageContentSegment::Mention { .. },
                ..
            },
            UserMessageContentLineSegment {
                content: UserMessageContentSegment::Text(_),
                ..
            }
        ]
    ));
    assert_eq!(
        content
            .first_line()
            .segments
            .into_iter()
            .map(|segment| segment.source_range)
            .collect::<Vec<_>>(),
        vec![Some(0..5), Some(7..15), Some(42..45)]
    );
    assert_eq!(content.first_line().source_range(), Some(&(0..45)));
}

#[test]
fn first_line_uses_image_label_instead_of_serialized_link() {
    let content = UserMessageContent::from_blocks(vec![
        ContentBlock::Image {
            uri: Some(MentionUri {
                name: "Diagram".to_string(),
                link: "[@Diagram](zed:///agent/pasted-image?name=Diagram)".to_string(),
            }),
            data: "ignored".to_string(),
            format: Some(ImageFormat::Png),
        },
        text("\nExplain this diagram"),
    ]);

    let line = content.first_line();
    assert!(matches!(
        line.segments.as_slice(),
        [UserMessageContentLineSegment {
            content: UserMessageContentSegment::Mention { label, .. },
            ..
        }] if label == "@Diagram"
    ));
    assert!(line.has_more_content);
}

#[test]
fn first_line_uses_the_first_non_empty_line() {
    let content = UserMessageContent::from_blocks(vec![text("\n  First line  \n\nSecond line")]);

    let line = content.first_line();
    assert_eq!(line.segments.len(), 1);
    assert_eq!(line.segments[0].display_text(), "First line");
    assert_eq!(line.segments[0].source_range, Some(3..13));
    assert_eq!(line.source_range(), Some(&(3..13)));
    assert!(line.has_more_content);
}

#[test]
fn first_line_falls_back_for_empty_content() {
    let content = UserMessageContent::from_blocks(vec![text("\n   \n")]);

    let line = content.first_line();
    assert_eq!(line.segments.len(), 1);
    assert_eq!(line.segments[0].display_text(), "Message");
    assert_eq!(line.segments[0].source_range, None);
    assert_eq!(line.source_range(), None);
    assert!(!line.has_more_content);
}

#[test]
fn invalid_resources_are_omitted_like_the_message_editor() {
    let content = UserMessageContent::from_blocks(vec![
        ContentBlock::ResourceLink { uri: None },
        ContentBlock::Resource {
            uri: None,
            text: "contents".to_string(),
        },
    ]);

    assert!(content.text().is_empty());
    assert!(content.mentions().is_empty());
    let line = content.first_line();
    assert_eq!(line.segments.len(), 1);
    assert_eq!(line.segments[0].display_text(), "Message");
    assert_eq!(line.segments[0].source_range, None);
}

#[test]
fn first_line_omits_whitespace_between_mentions() {
    let content = UserMessageContent::from_blocks(vec![
        ContentBlock::ResourceLink {
            uri: Some(file_uri("main.rs", "/project/main.rs")),
        },
        text(" \t "),
        ContentBlock::ResourceLink {
            uri: Some(file_uri("lib.rs", "/project/lib.rs")),
        },
    ]);

    let line = content.first_line();
    assert_eq!(line.segments.len(), 2);
    assert!(line.segments.iter().all(|segment| matches!(
        segment.content,
        UserMessageContentSegment::Mention { .. }
    )));
}

#[test]
fn text_blocks_are_normalized_one_by_one() {
    let content = UserMessageContent::from_blocks(vec![text("a\r"), text("\nb\r\nc\rd")]);
    assert_eq!(content.text().as_str(), "a\n\nb\nc\nd");
}

#[test]
fn mention_records_its_link_label_and_content() {
    let content = UserMessageContent::from_blocks(vec![
        text("é "),
        ContentBlock::Resource {
            uri: Some(file_uri("notes.md", "/notes.md")),
            text: "body".to_string(),
        },
    ]);
    let mention = &content.mentions()[0];
    assert_eq!(mention.range, 3..32);
    assert_eq!(&content.text()[mention.range.clone()], "[@notes.md](file:///notes.md)");
    assert_eq!(mention.label, "@notes.md");
    assert_eq!(mention.label_range, Some(4..13));
    assert_eq!(&content.text()[4..13], "@notes.md");
    assert_eq!(
        mention.content,
        Mention::Text {
            content: "body".to_string()
        }
    );
}

#[test]
fn label_range_is_absent_when_the_link_does_not_hold_the_label() {
    let content = UserMessageContent::from_blocks(vec![ContentBlock::ResourceLink {
        uri: Some(MentionUri {
            name: "Thread".to_string(),
            link: "[Untitled](zed:///agent/thread/1)".to_string(),
        }),
    }]);
    assert_eq!(content.mentions()[0].label_range, None);
    let line = content.first_line();
    assert_eq!(line.segments.len(), 1);
    assert_eq!(line.segments[0].display_text(), "@Thread");
    assert_eq!(line.segments[0].source_range, None);
}

#[test]
fn image_with_unknown_format_is_omitted() {
    let content = UserMessageContent::from_blocks(vec![
        ContentBlock::Image {
            uri: Some(file_uri("a.png", "/a.png")),
            data: "x".to_string(),
            format: None,
        },
        ContentBlock::Other,
        text("hi"),
    ]);
    assert!(content.mentions().is_empty());
    assert_eq!(content.text().as_str(), "hi");
}

#[test]
fn unicode_whitespace_is_trimmed_by_bytes() {
    let content = UserMessageContent::from_blocks(vec![text("\u{3000}Hi\u{a0}there\u{2003}\n")]);
    let line = content.first_line();
    assert_eq!(line.source_range(), Some(&(3..12)));
    assert_eq!(line.segments[0].display_text(), "Hi\u{a0}there");
    assert!(!line.has_more_content);
    assert_eq!(
        content.first_non_empty_line(),
        Some((3..12, false))
    );
}

#[test]
fn a_mention_that_runs_past_the_line_ends_it() {
    let content = UserMessageContent::from_blocks(vec![
        text("see "),
        ContentBlock::ResourceLink {
            uri: Some(MentionUri {
                name: "two\nlines".to_string(),
                link: "[@two\nlines](file:///x)".to_string(),
            }),
        },
        text(" after"),
    ]);
    let line = content.first_line();
    assert_eq!(line.source_range(), Some(&(0..9)));
    assert_eq!(line.segments.len(), 1);
    assert_eq!(line.segments[0].display_text(), "see [@two");
    assert!(line.has_more_content);
}

#[test]
fn same_projection_compares_text_ranges_and_uris() {
    let blocks = || {
        vec![
            text("a "),
            ContentBlock::ResourceLink {
                uri: Some(file_uri("b", "/b")),
            },
        ]
    };
    let one = UserMessageContent::from_blocks(blocks());
    let two = UserMessageContent::from_blocks(blocks());
    assert!(one.has_same_projection(&two));
    assert!(one.has_same_projection(&one));

    let other_content = UserMessageContent::from_blocks(vec![
        text("a "),
        ContentBlock::Resource {
            uri: Some(file_uri("b", "/b")),
            text: "different".to_string(),
        },
    ]);
    assert!(one.has_same_projection(&other_content));

    let other_uri = UserMessageContent::from_blocks(vec![
        text("a "),
        ContentBlock::ResourceLink {
            uri: Some(MentionUri {
                name: "c".to_string(),
                link: "[@b](file:///b)".to_string(),
            }),
        },
    ]);
    assert!(!one.has_same_projection(&other_uri));

    let other_text = UserMessageContent::from_blocks(vec![text("a ")]);
    assert!(!one.has_same_projection(&other_text));
}

#[test]
fn into_parts_returns_text_and_mentions() {
    let content = UserMessageContent::from_blocks(vec![
        text("x"),
        ContentBlock::ResourceLink {
            uri: Some(file_uri("y", "/y")),
        },
    ]);
    let message_text = content.first_line().message_text().clone();
    let (t, mentions) = content.into_parts();
    assert_eq!(t, "x[@y](file:///y)");
    assert_eq!(message_text, t);
    assert_eq!(mentions.len(), 1);
    assert_eq!(mentions[0].range, 1..16);
}

#[test]
fn cloned_message_is_equal() {
    let content = UserMessageContent::from_blocks(vec![
        text("a "),
        ContentBlock::ResourceLink {
            uri: Some(file_uri("b", "/b")),
        },
    ]);
    let copy = content.clone();
    assert_eq!(copy, content);
    assert!(copy.has_same_projection(&content));
    let line = content.first_line();
    assert_eq!(line.clone(), line);
}

#[test]
fn line_getters_expose_segments_and_more_content() {
    let content = UserMessageContent::from_blocks(vec![text("one\ntwo")]);
    let line = content.first_line();
    assert_eq!(line.segments().len(), 1);
    assert_eq!(line.segments()[0].display_text(), "one");
    assert!(line.has_more_content());
}

#[test]
fn joined_blocks_join_texts_and_shift_mentions() {
    let first = vec![text("héllo "), ContentBlock::ResourceLink { uri: Some(file_uri("a", "/a")) }];
    let second = vec![text(" x "), ContentBlock::ResourceLink { uri: Some(file_uri("b", "/b")) }];
    let a = UserMessageContent::from_blocks(first.clone());
    let b = UserMessageContent::from_blocks(second.clone());
    let both = UserMessageContent::from_blocks(first.into_iter().chain(second).collect());
    assert_eq!(both.text().as_str(), format!("{}{}", a.text(), b.text()));
    let shift = a.text().len();
    assert_eq!(both.mentions().len(), 2);
    assert_eq!(both.mentions()[0].range, a.mentions()[0].range);
    let moved = &b.mentions()[0];
    assert_eq!(both.mentions()[1].range, moved.range.start + shift..moved.range.end + shift);
    let label_range = moved.label_range.clone().unwrap();
    assert_eq!(
        both.mentions()[1].label_range,
        Some(label_range.start + shift..label_range.end + shift)
    );
}

#[test]
fn dropped_blocks_change_nothing() {
    let with_dropped = UserMessageContent::from_blocks(vec![
        text("a"),
        ContentBlock::ResourceLink { uri: None },
        ContentBlock::Other,
        ContentBlock::Image {
            uri: Some(file_uri("i", "/i")),
            data: String::new(),
            format: None,
        },
        text("b"),
    ]);
    let without = UserMessageContent::from_blocks(vec![text("a"), text("b")]);
    assert_eq!(with_dropped, without);
}

#[test]
fn built_text_and_labels_hold_no_carriage_return() {
    let content = UserMessageContent::from_blocks(vec![
        text("a\r\nb\r"),
        ContentBlock::ResourceLink {
            uri: Some(MentionUri {
                name: "x\ry".to_string(),
                link: "[@x\ry](file:///x)".to_string(),
            }),
        },
    ]);
    assert!(!content.text().contains('\r'));
    assert_eq!(content.mentions()[0].label, "@x\ny");
    assert_eq!(content.mentions()[0].label_range, Some(5..9));
}
