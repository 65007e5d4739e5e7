pub mod card;
pub mod text;
pub mod buffers;
pub mod rules;
pub mod hand;
pub mod best;
pub mod completions;
pub mod equity;
