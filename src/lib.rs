//! Katas: an arithmetic expression parser producing a syntax tree, a persistent
//! singly-linked list, and a bounded stack.
pub mod decimal;
pub mod ast;
pub mod list;
pub mod stack;
