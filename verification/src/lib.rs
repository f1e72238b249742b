//! An arena-backed HTML document tree.
//!
//! Nodes live in a generational arena and are addressed through stable
//! handles; a handle to a deleted node goes stale and never resolves to a
//! reused slot.  A document facade offers creation, attachment, detachment
//! and deletion of subtrees, orphan tracking, selector-oriented per-node
//! predicates, and serialization of a subtree into a markup token stream
//! that an external writer renders.

mod arena;
mod builder;
mod document;
mod laws;
mod node;
mod predicates;
mod query;
mod serializer;
mod strutil;

pub use crate::arena::Arena;
pub use crate::arena::NodeHandle;
pub use crate::builder::DocumentBuilder;
pub use crate::builder::NodeOrText;
pub use crate::builder::append_text_rel;
pub use crate::document::Document;
pub use crate::document::QuirksMode;
pub use crate::laws::law_append_reparents_once;
pub use crate::laws::law_delete_leaves_orphans;
pub use crate::laws::law_delete_orphans_children;
pub use crate::laws::law_generation_safety;
pub use crate::laws::law_remove_retires_children;
pub use crate::laws::law_stale_survives_reuse;
pub use crate::laws::law_text_append_coalesces;
pub use crate::node::Attr;
pub use crate::node::CaseSensitivity;
pub use crate::node::Comment;
pub use crate::node::Doctype;
pub use crate::node::Element;
pub use crate::node::Node;
pub use crate::node::ProcessingInstruction;
pub use crate::node::QualName;
pub use crate::node::Text;
pub use crate::predicates::NonTSPseudoClass;
pub use crate::predicates::NsConstraint;
pub use crate::predicates::PseudoElement;
pub use crate::predicates::attr_values_matching;
pub use crate::predicates::has_class;
pub use crate::predicates::has_id;
pub use crate::predicates::has_local_name;
pub use crate::predicates::has_namespace;
pub use crate::predicates::is_empty_el;
pub use crate::predicates::is_link;
pub use crate::predicates::is_root_el;
pub use crate::predicates::is_same_type;
pub use crate::predicates::next_element_sibling;
pub use crate::predicates::prev_element_sibling;
pub use crate::query::MatchScope;
pub use crate::query::law_children_scope_excludes_root;
pub use crate::query::Matches;
pub use crate::query::Selection;
pub use crate::serializer::SerToken;
pub use crate::strutil::split_whitespace_words;
