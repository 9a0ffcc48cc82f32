//! Abstract rendered-document domain for templated YAML: guarded fragment
//! trees, their condition algebra, and the source-layout planning that
//! decides which container owns content escaping a control region.

pub mod window;
pub mod predicate;
pub mod conditions;
pub mod domain;
pub mod child_index;
pub mod contributions;
pub mod text;
pub mod scalars;
pub mod tokens;
pub mod syntax;
pub mod layout;
pub mod adoption;
pub mod deferred;
pub mod placement;
pub mod steps;
pub mod disjunction;
