pub mod chars;
pub mod segment;
pub mod language;
pub mod join;
pub mod annotate;
pub mod wrap;
pub mod dehyphenate;
