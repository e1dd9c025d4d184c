/// Text helpers: characters, substrings, decimal numbers, lowercase.
pub mod text;
/// Shell tokenizer for command lines.
pub mod tokenize;
/// Word-level rules: credential detection, name sanitizing, argument quoting.
pub mod words;
/// Function names made from a template's constant words.
pub mod names;
/// The mathematical model of a template: pieces, body, slots.
pub mod template;
/// Generalizing a cluster of commands into a template.
pub mod generalize;
/// Mining a history into functions.
pub mod mine;
/// Shells, rendering, hooks, paths and the manifest.
pub mod suggest;
/// Matching a command against the templates of the manifest.
pub mod matching;
/// Command-line options and replies.
pub mod cli;
/// How the tokenizer reads text built from tokens.
pub mod relex;
/// A mined template recognizes the commands it was mined from.
pub mod recognize;
