//! An arithmetic expression parser with proofs.
//!
//! A line of text becomes tokens ([`lexer`]), the tokens are put into
//! postfix order by operator precedence ([`shunting`], [`parser`]), and the
//! postfix order is folded into a syntax tree ([`ast`]). Numbers are held
//! as exact decimals ([`number`]); what a tree is worth in floating point
//! is left to the caller.
//!
//! Every function states what it returns over the mathematical model of
//! its data. [`grammar`] holds the main theorem: an expression written by
//! the rules of precedence parses to the tree it stands for.
//! [`input`] holds the decisions of a line editor that lets through the
//! characters of expressions only.

pub mod ast;
pub mod error;
pub mod grammar;
pub mod input;
pub mod lexer;
pub mod number;
pub mod operator;
pub mod parser;
pub mod shunting;
pub mod views;
