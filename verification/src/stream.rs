use vstd::prelude::*;

verus! {

/// The ways a streaming transform can reject its input. Each one signals a
/// violated precondition of the data handed in, not a transient condition:
/// proof construction must stop rather than continue on malformed data.
#[derive(Clone, Copy, Debug, PartialEq, Eq, Structural)]
pub enum StreamError {
    /// The address sequence is not non-increasing, or an address overtook the
    /// live position cursor of the sorted merge.
    MalformedOrdering,
    /// A fold that needs a wraparound partner was handed an empty sequence.
    EmptySequence,
    /// The declared number of rows differs from the end-of-row markers
    /// actually present in the matrix stream.
    RowCountMismatch,
}

/// One enumeration pass over a streamable sequence: a forward-only, single
/// pass source of items. `future()` is the sequence of items the pass has yet
/// to produce, in production order; a fresh enumerator's `future()` is the
/// whole sequence, and every produced item pops its head.
pub trait Enumerator<T>: Sized {
    /// Well-formedness of the enumerator's state.
    spec fn wf(&self) -> bool;

    /// The items this enumerator has yet to produce, in production order.
    spec fn future(&self) -> Seq<T>;

    /// Produce the next item, or report that the pass is over.
    fn next_item(&mut self) -> (r: Option<T>)
        requires
            old(self).wf(),
        ensures
            final(self).wf(),
            old(self).future().len() == 0 ==> r is None
                && final(self).future() == old(self).future(),
            old(self).future().len() > 0 ==> r == Some(old(self).future()[0])
                && final(self).future() == old(self).future().skip(1),
    ;
}

/// A fresh enumeration of a vector, front to back. Enumerating the same
/// vector again just builds a new `VecStream`; the source is never mutated.
pub struct VecStream<'a, T> {
    pub data: &'a Vec<T>,
    pub pos: usize,
}

impl<'a, T: Copy> VecStream<'a, T> {
    pub fn new(data: &'a Vec<T>) -> (r: Self)
        ensures
            r.wf(),
            r.future() == data@,
    {
        let r = VecStream { data, pos: 0 };
        proof {
            assert(r.future() =~= data@);
        }
        r
    }
}

impl<'a, T: Copy> Enumerator<T> for VecStream<'a, T> {
    open spec fn wf(&self) -> bool {
        self.pos <= self.data@.len()
    }

    open spec fn future(&self) -> Seq<T> {
        self.data@.skip(self.pos as int)
    }

    fn next_item(&mut self) -> (r: Option<T>) {
        if self.pos < self.data.len() {
            let x = self.data[self.pos];
            self.pos = self.pos + 1;
            proof {
                assert(self.data@.skip(old(self).pos as int).skip(1)
                    =~= self.data@.skip(self.pos as int));
            }
            Some(x)
        } else {
            None
        }
    }
}

} // verus!
