pub mod dictionary;
pub mod model;
pub mod partition;
pub mod pipeline;
pub mod tokenizer;

pub use dictionary::{Dictionary, Entry};
pub use partition::{partition, Chunk};
pub use pipeline::{process_books, run_pipeline, BookSource, Warning};
pub use tokenizer::split_to_words;
