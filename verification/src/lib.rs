//! A heap object-graph snapshotter.
//!
//! A live object graph is walked from its roots and written out as a relocatable
//! data image: a sequence of labelled, sized, aligned regions whose pointers are
//! symbolic labels, fixed up when the image is linked and loaded. A loader records
//! where the image lies in the running process, and an allocator guard keeps the
//! process's allocator from freeing or resizing memory that lies inside it.
//!
//! The values of the graph describe themselves to a [`dumper::Dumper`]; the
//! engine, [`asm_dumper::AsmDumper`], writes what they describe. What a dump is
//! at every moment is the mathematical value [`state::DumpState`], and every
//! operation is a function on it. [`laws`] states what holds of every dump.
pub mod address;
pub mod fault;
pub mod label;
pub mod image;
pub mod layout;
pub mod registry;
pub mod references;
pub mod assembly;
pub mod state;
pub mod linking;
pub mod placing;
pub mod invariants;
pub mod laws;
pub mod dumper;
pub mod dump_list;
pub mod graph;
pub mod asm_dumper;
pub mod text;
pub mod loader;
pub mod guard;
pub mod rust_std;
