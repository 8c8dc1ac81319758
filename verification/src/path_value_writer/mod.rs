//! The sink interface: the consumer of (path, leaf value) pairs.
use vstd::prelude::*;

use crate::model::Emission;
use crate::{view_comps, JsonAtom, PathComponent};

pub mod json_pointer;

verus! {

/// A sink refused a write (for example, an output stream error in an
/// implementation that forwards to one).
#[derive(Clone, Copy, Debug)]
pub struct WriteError;

/// A sink for (path, leaf value) pairs.  The tracker calls `write_path_and_value`
/// synchronously once per emission; the path and value reference the
/// traversal's transient buffers and must be copied if they are to be
/// retained beyond the call.
pub trait PathValueWriter: Sized {
    /// Whatever the sink fixes at construction (separators, flags);
    /// writes never change it.
    type Config;

    /// The sink's internal consistency; established at construction and
    /// preserved by every write.
    spec fn wf(&self) -> bool;

    /// The sink's fixed configuration.
    spec fn config(&self) -> Self::Config;

    /// Whether this sink never refuses a write.  A sink that claims so
    /// is held to it: every call returns `Ok`, and a traversal into it
    /// can never end in a sink failure.
    spec fn infallible(&self) -> bool;

    /// Every pair the sink has accepted so far, in order.
    spec fn emitted(&self) -> Seq<Emission>;

    /// Accept one (path, value) pair.  On success the pair is appended to
    /// the record of accepted pairs; a refused pair leaves that record
    /// unchanged, and the whole traversal stops with it.
    fn write_path_and_value(&mut self, path: &[PathComponent<'_>], value: JsonAtom<'_>) -> (r: Result<
        (),
        WriteError,
    >)
        requires
            old(self).wf(),
        ensures
            final(self).wf(),
            final(self).config() == old(self).config(),
            final(self).infallible() == old(self).infallible(),
            old(self).infallible() ==> r is Ok,
            r is Ok ==> final(self).emitted() == old(self).emitted().push(
                Emission { path: view_comps(path@), atom: value@ },
            ),
            r is Err ==> final(self).emitted() == old(self).emitted(),
    ;
}

} // verus!
