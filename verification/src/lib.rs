//! A hash-consed boolean-expression engine with truth-table canonicalization.
//!
//! Variables (a character at a relative offset in a symbol sequence) and
//! boolean terms over them (`Var`, `Not`, `And`, `Or`) are interned in a
//! repository that keeps exactly one canonical instance per distinct value,
//! so structural equality of terms coincides with handle equality. Terms are
//! evaluated against contexts, canonicalized into truth tables that identify
//! semantically equivalent terms, scored for accuracy against a context
//! stream, and expanded level by level into the next complexity tier.

pub mod accuracy;
pub mod evaluate;
pub mod level;
pub mod repository;
pub mod text;
pub mod truth_table;
