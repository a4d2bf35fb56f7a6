use vstd::prelude::*;

verus! {

/// `std::io::Error`, carried through unread.
#[verifier::external_type_specification]
#[verifier::external_body]
pub struct ExIoError(std::io::Error);

/// `mio::Waker`, held by the context and used only to wake the worker.
#[verifier::external_type_specification]
#[verifier::external_body]
pub struct ExWaker(mio::Waker);

/// A waker together with the record of the wakes made through it: the
/// outcome of each, oldest first, `true` for one that succeeded. Only `wake`
/// adds to the record.
pub(crate) struct WakerHandle {
    waker: mio::Waker,
    wakes: Ghost<Seq<bool>>,
}

impl WakerHandle {
    /// The waker held.
    pub(crate) closed spec fn waker(&self) -> mio::Waker {
        self.waker
    }

    /// The outcomes of the wakes made through this handle, oldest first.
    pub(crate) closed spec fn wakes(&self) -> Seq<bool> {
        self.wakes@
    }

    /// Holds `waker`, through which no wake has been made yet.
    pub(crate) fn new(waker: mio::Waker) -> (r: Self)
        ensures
            r.waker() == waker,
            r.wakes() == Seq::<bool>::empty(),
    {
        WakerHandle { waker, wakes: Ghost(Seq::empty()) }
    }

    /// Calls `mio::Waker::wake` on the held waker, which makes the `Poll` the
    /// waker was registered with return a readable event for the waker's
    /// token. Whether the wake succeeds depends on the operating system, so
    /// nothing is promised of the outcome; the contract claims only that the
    /// waker was woken once, by recording the outcome returned, and that the
    /// handle keeps the same waker.
    #[verifier::external_body]
    pub(crate) fn wake(&mut self) -> (r: Result<(), std::io::Error>)
        ensures
            final(self).waker() == old(self).waker(),
            final(self).wakes() == old(self).wakes().push(r is Ok),
    {
        self.waker.wake()
    }
}

} // verus!
