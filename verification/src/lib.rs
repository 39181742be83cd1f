//! A minimal incremental computation engine.
//!
//! A graph of mutable source cells ([`signal::Signal`]) and derived, memoized
//! values ([`computed::Computed`]) that recompute lazily when read and are
//! invalidated eagerly when a source they depend on is written.  All nodes
//! live in one arena, the [`graph::Graph`]; handles are stable integer
//! indices into it, and indices are never reused, so a handle to a destroyed
//! node is recognised by the node's `alive` flag alone.

pub mod base64;
pub mod book_things;
pub mod chart_core;
pub mod color_things;
pub mod computed;
pub mod graph;
pub mod hilbert;
pub mod local_messager;
pub mod login_machine;
pub mod messager_things;
pub mod sig_traits;
pub mod signal;

pub use computed::Computed;
pub use graph::AddConst;
pub use graph::Graph;
pub use graph::Recompute;
pub use sig_traits::SigBlocker;
pub use sig_traits::SignalLike;
pub use sig_traits::Waker;
pub use sig_traits::notify;
pub use sig_traits::on_trigger;
pub use signal::Signal;
pub use signal::and_2;
pub use signal::and_3;
