pub mod element;
pub mod html_parser;
pub mod html_tokenizer;
pub mod node;
pub mod text;
