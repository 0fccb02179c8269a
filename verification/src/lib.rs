mod random;
mod console;
pub mod domains;
pub mod graph;
pub mod relations;
pub mod text;
pub mod mythos;
pub mod description;
pub mod dot;
pub mod plains;
pub mod laws;
