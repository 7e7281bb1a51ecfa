//! Reading grammar-rule definitions from a stream of tokens.
//!
//! The tokens a procedural macro receives are modelled by [`token::Token`].
//! Two rule syntaxes are read from them:
//! - [`rules`]: `name -> a | b | c;` (options) or `name -> a b.* c;`
//!   (a concatenation whose children carry `.` and `*` marks);
//! - [`option_rules`]: `name -> a & b.* | c;` (options made of children
//!   joined by `&`).
//!
//! [`rule_laws`] and [`option_rule_laws`] prove properties of the readers:
//! that a rule is read without looking past its end, and that rules written
//! back as tokens read back as themselves.

pub mod content;
pub mod token;
pub mod rules;
pub mod rule_laws;
pub mod option_rules;
pub mod option_rule_laws;
