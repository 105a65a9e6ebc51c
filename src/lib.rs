pub mod data;
pub mod text;
pub mod parser;
pub mod heading;
pub mod toc;
pub mod scrape;
pub mod render;
