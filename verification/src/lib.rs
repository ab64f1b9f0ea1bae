//! A streaming selector-matching virtual machine for HTML start and end tags.
//!
//! The machine owns a compiled set of selectors and the stack of open
//! elements. It is driven by a tokenizer: for each start tag it says which
//! selectors match the element, asking for the tag's attributes only where
//! the tag name alone cannot decide; for each end tag it says which matches
//! go out of scope.

pub mod ast;
pub mod attribute_matcher;
pub mod compiler;
pub mod error;
pub mod html;
pub mod laws;
pub mod matching;
pub mod program;
pub mod protocol;
pub mod schedule;
pub mod stack;
pub mod vm;

pub use crate::ast::Ast;
pub use crate::attribute_matcher::{AttributeMatcher, AuxStartTagInfo};
pub use crate::compiler::Compiler;
pub use crate::error::SelectorError;
pub use crate::html::{LocalName, Namespace};
pub use crate::matching::MatchInfo;
pub use crate::program::{ExecutionBranch, Program};
pub use crate::stack::{Stack, StackItem};
pub use crate::vm::{AuxStartTagInfoRequest, ExecutionCtx, SelectorMatchingVm};
