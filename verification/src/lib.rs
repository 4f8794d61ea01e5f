//! Translates P4 programs into graphs of guarded commands.
//!
//! A program comes as a typed intermediate representation ([`ir`]). Its translation
//! ([`to_gcl`]) puts nodes and edges into a graph ([`graph`]): a node holds commands that run
//! in order, and an edge may be taken when its predicate is true ([`gcl`]).
//!
//! [`translation`] says what each part of a program is translated into, node by node and edge
//! by edge. [`meaning`] says how such a graph runs and what a program means, and proves that
//! the graph of a program does what the program means.
//!
//! Further laws say what can be relied on without the whole translation in view: when a part can
//! be translated ([`contracts`], [`calls`]), how much it adds ([`numbers`]), what its nodes and
//! edges look like ([`shapes`]) and how they are joined ([`wiring`], [`placement`]), and which
//! functions there are afterwards ([`registered`]).

pub mod calls;
pub mod contracts;
pub mod count;
pub mod gcl;
pub mod graph;
pub mod growth;
pub mod ir;
pub mod meaning;
pub mod metadata;
pub mod numbers;
pub mod placement;
pub mod registered;
pub mod shapes;
pub mod store;
pub mod text;
pub mod to_gcl;
pub mod translation;
pub mod wiring;
