pub mod conversion;
pub mod draw_number;
pub mod draw_sentence;
pub mod draw_word;
pub mod sentence;
pub mod shape;
pub mod tree;
