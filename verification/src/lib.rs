//! Loader for compiled-program artifacts of a register-based virtual machine
//! that computes over a large prime field.
//!
//! An artifact is a tree of typed fields (strings, small integers, lists,
//! keyed records).  The loader validates the tree, decodes the instruction
//! stream into tagged machine words (field elements reduced modulo the
//! declared prime, or relocatable addresses), builds the symbol table, the
//! hint metadata and the reference manager, resolves the named entrypoint to
//! a program counter, and assembles everything into an immutable [`program::Program`].

pub mod artifact;
pub mod bignum;
pub mod program;
pub mod relocatable;
