//! Front end for a compact, line-oriented notation of character-substitution
//! rules: a grammar that turns each line into a typed rule-element tree, an
//! assembler that numbers the rules of a script, and a resolver that tells
//! literal characters from class names and hands out binding indices.
//!
//! A script goes through the modules in this order:
//!
//! - `chars`, `grammar` and `parse` read one rule element from a text;
//!   `grammar_laws` states what holds of everything that is read.
//! - `line` reads one line, a class or a rule; `class_laws` states that a
//!   class line keeps its members as they stand and can be written out again.
//! - `script` reads all lines, numbers the rules and puts the configuration
//!   directive first; `directive` and `elem` hold what comes out, `names` the
//!   identifiers.
//! - `table`, `matcher`, `replacer` and `resolve` resolve the elements of a
//!   rule against the classes.
//!
//! `outline` lists a script of a simpler notation entry by entry.
//!
//! Every executable function says in its contract what it returns, over the
//! models of the data: `Element` for a rule element, `Matcher` and `Replacer`
//! for what it resolves to, `DirectiveModel` for a directive.

pub mod chars;
pub mod class_laws;
pub mod directive;
pub mod elem;
pub mod grammar;
pub mod grammar_laws;
pub mod line;
pub mod matcher;
pub mod names;
pub mod outline;
pub mod parse;
pub mod replacer;
pub mod resolve;
pub mod script;
pub mod table;
pub mod text;
