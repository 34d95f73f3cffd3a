//! Resolution of translated strings from hierarchical translation tables.
//!
//! Files arrive as parsed tables; the loader validates them into trees and
//! orders them by the overlap policy; the resolver walks a dot-separated
//! path to a template, and the template engine fills in placeholders.
pub mod collection;
pub mod config;
pub mod language;
pub mod node;
pub mod template;
pub mod text;
pub mod translations;
