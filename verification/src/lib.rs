//! Building, summarising and searching the first line of a user message.
pub mod text;
pub mod line_ending;
pub mod user_message_content;
pub mod sticky_preview;
