//! A first-order Markov chain over the tokens of lines of text: a tokenizer,
//! per-token successor counts, and a weighted random walk that produces replies.
pub mod token;
pub mod tokenizer;
pub mod context;
pub mod knowledge;
pub mod source;
