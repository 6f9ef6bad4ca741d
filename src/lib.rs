//! Color-scheme templates: placeholders such as `X7` in a template line are
//! replaced by the matching entry of a palette of color strings.
pub mod lemmas;
pub mod palette;
pub mod template;
pub mod text;
