# agent_ui

The logic behind the sticky header that repeats the first line of a user
message in an agent conversation, verified with Verus.

- `src/text.rs` — the text model: strings as char sequences, positions as
  byte offsets of their UTF-8 encoding, Unicode whitespace, substring search.
- `src/line_ending.rs` — line-ending normalisation (`\r\n` and `\r` to `\n`).
- `src/user_message_content.rs` — building a message from content blocks
  (prose and mentions serialised as links), its first non-blank line split
  into prose and mention segments, and comparing two messages.
- `src/sticky_preview.rs` — mapping search matches onto the header's
  segments, and which segments the header keeps once their widths are known.
- `app/lib.rs` — conversion from agent-protocol blocks, and the pixel-width
  fitting, which works in floating point.
