pub mod diagnostic;
pub mod lexical;
pub mod pipeline;
pub mod semantic;
pub mod stage;
pub mod syntactic;
pub mod text;
