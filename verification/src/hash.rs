use vstd::prelude::*;
use crate::field::{Scalar, fr_sum, fr_prod, fr_val, fr_add, fr_mul, fr_from_u64};
use crate::sorted::{
    SortedIterator,
    check_addresses,
    lemma_sorted_merge_length,
    merged,
    valid_addresses,
};
use crate::stream::{Enumerator, StreamError};

verus! {

/// One output term of the algebraic hash: `y·(1+z) + prev + z·cur`, with
/// `y1z` standing for the precomputed `y·(1+z)`.
pub open spec fn hash_term(y1z: Scalar, z: Scalar, prev: Scalar, cur: Scalar) -> Scalar {
    fr_sum(fr_sum(y1z, prev), fr_prod(z, cur))
}

/// The whole algebraic-hash column for input `w` and challenges `y`, `z`:
/// output `i` binds `w[i]` to its cyclic successor `w[(i+1) mod w.len()]`.
pub open spec fn alg_hash_output(w: Seq<Scalar>, y: Scalar, z: Scalar) -> Seq<Scalar> {
    Seq::new(
        w.len(),
        |i: int|
            hash_term(
                fr_prod(y, fr_sum(fr_val(1), z)),
                z,
                w[i],
                w[if i + 1 == w.len() { 0int } else { i + 1 }],
            ),
    )
}

/// Folds an underlying pass of field elements pairwise, with a cyclic
/// wraparound from the last element back to the first. The input pass must
/// hold at least one element: the wraparound has no meaning on an empty one.
pub struct AlgHashIterator<I> {
    /// The precomputed `y·(1+z)`.
    pub y1z: Scalar,
    /// The second challenge.
    pub z: Scalar,
    /// The first input element, retained as the wraparound partner.
    pub first: Scalar,
    /// The input element consumed most recently, or `None` once the
    /// wraparound term has been emitted.
    pub previous: Option<Scalar>,
    /// The underlying pass.
    pub it: I,
}

impl<I: Enumerator<Scalar>> AlgHashIterator<I> {
    /// Start the fold: consume the first input element and precompute
    /// `y·(1+z)`. The input pass must be non-empty.
    pub fn new(it: I, y: Scalar, z: Scalar) -> (r: Self)
        requires
            it.wf(),
            it.future().len() > 0,
        ensures
            r.wf(),
            r.future() == alg_hash_output(it.future(), y, z),
    {
        match Self::try_new(it, y, z) {
            Ok(h) => h,
            Err(_) => vstd::pervasive::unreached(),
        }
    }

    /// Checked start of the fold: an empty input pass, on which the
    /// wraparound is undefined, is rejected with the empty-sequence error.
    pub fn try_new(it: I, y: Scalar, z: Scalar) -> (r: Result<Self, StreamError>)
        requires
            it.wf(),
        ensures
            it.future().len() == 0 ==> r == Err::<Self, StreamError>(StreamError::EmptySequence),
            it.future().len() > 0 ==> (r matches Ok(h) && h.wf() && h.future() == alg_hash_output(
                it.future(),
                y,
                z,
            )),
    {
        let ghost w = it.future();
        let mut inner = it;
        let first: Scalar = match inner.next_item() {
            Some(f) => f,
            None => {
                return Err(StreamError::EmptySequence);
            },
        };
        let one = fr_from_u64(1);
        let y1z = fr_mul(y, fr_add(one, z));
        let r = AlgHashIterator { y1z, z, first, previous: Some(first), it: inner };
        proof {
            assert(w[0] == first);
            let chain = seq![first] + r.it.future() + seq![r.first];
            assert forall|i: int| 0 <= i < w.len() implies chain[i] == w[i] by {
                if i > 0 {
                    assert(r.it.future()[i - 1] == w[i]);
                }
            }
            assert(chain[w.len() as int] == w[0]);
            assert(r.future() =~= alg_hash_output(w, y, z));
        }
        Ok(r)
    }
}

impl<I: Enumerator<Scalar>> Enumerator<Scalar> for AlgHashIterator<I> {
    open spec fn wf(&self) -> bool {
        &&& self.it.wf()
        &&& (self.previous is None ==> self.it.future().len() == 0)
    }

    /// What the fold still owes: one term per input element left, then the
    /// wraparound term against the retained first element.
    open spec fn future(&self) -> Seq<Scalar> {
        match self.previous {
            None => Seq::empty(),
            Some(prev) => {
                let chain = seq![prev] + self.it.future() + seq![self.first];
                Seq::new(
                    self.it.future().len() + 1,
                    |i: int| hash_term(self.y1z, self.z, chain[i], chain[i + 1]),
                )
            },
        }
    }

    fn next_item(&mut self) -> (r: Option<Scalar>) {
        let ghost f = self.it.future();
        let n = self.it.next_item();
        match (n, self.previous) {
            (Some(cur), Some(prev)) => {
                self.previous = Some(cur);
                let out = fr_add(fr_add(self.y1z, prev), fr_mul(self.z, cur));
                proof {
                    let old_chain = seq![prev] + f + seq![self.first];
                    let new_chain = seq![cur] + self.it.future() + seq![self.first];
                    assert forall|i: int| 0 <= i < new_chain.len() implies new_chain[i]
                        == old_chain[i + 1] by {
                        if 0 < i < new_chain.len() - 1 {
                            assert(self.it.future()[i - 1] == f[i]);
                        }
                    }
                    assert(out == old(self).future()[0]);
                    assert(self.future() =~= old(self).future().skip(1));
                }
                Some(out)
            },
            (None, Some(prev)) => {
                self.previous = None;
                let out = fr_add(fr_add(self.y1z, prev), fr_mul(self.z, self.first));
                proof {
                    assert(old(self).future().len() == 1);
                    assert(out == old(self).future()[0]);
                    assert(self.future() =~= old(self).future().skip(1));
                }
                Some(out)
            },
            (None, None) => {
                proof {
                    assert(old(self).future().len() == 0);
                }
                None
            },
            (Some(_), None) => {
                proof {
                    assert(false);
                }
                None
            },
        }
    }
}

/// The lookup column builder: borrows a base value sequence (enumerated
/// highest position first) and a non-increasing address sequence, and streams
/// the algebraic hash of their sorted merge. The sources are only borrowed:
/// every call of `stream` starts an independent, fresh pass over both.
#[derive(Clone, Copy)]
pub struct LookupSortedStreamer<'a> {
    pub base_streamer: &'a Vec<Scalar>,
    pub addr_streamer: &'a Vec<usize>,
    pub y: Scalar,
    pub z: Scalar,
}

impl<'a> LookupSortedStreamer<'a> {
    pub fn new(base_streamer: &'a Vec<Scalar>, addr_streamer: &'a Vec<usize>, y: Scalar, z: Scalar) -> (r:
        Self)
        ensures
            r.base_streamer@ == base_streamer@,
            r.addr_streamer@ == addr_streamer@,
            r.y == y,
            r.z == z,
    {
        Self { base_streamer, addr_streamer, y, z }
    }

    /// A fresh pass over the whole lookup column: the algebraic hash of the
    /// sorted merge of base and addresses, one term per merged element.
    pub fn stream(&self) -> (r: AlgHashIterator<SortedIterator<'a, Scalar>>)
        requires
            valid_addresses(self.addr_streamer@, self.base_streamer@.len() as int),
            self.base_streamer@.len() > 0,
        ensures
            r.wf(),
            r.future() == alg_hash_output(
                merged(self.base_streamer@, self.addr_streamer@),
                self.y,
                self.z,
            ),
            r.future().len() == self.base_streamer@.len() + self.addr_streamer@.len(),
    {
        let base_iter = SortedIterator::new(
            self.base_streamer,
            self.addr_streamer,
            self.base_streamer.len(),
        );
        proof {
            lemma_sorted_merge_length(self.base_streamer@, self.addr_streamer@);
        }
        AlgHashIterator::new(base_iter, self.y, self.z)
    }

    /// Like `stream`, but tests its own preconditions: a malformed address
    /// pattern and an empty base are rejected with their error kinds instead
    /// of being ruled out by contract.
    pub fn try_stream(&self) -> (r: Result<
        AlgHashIterator<SortedIterator<'a, Scalar>>,
        StreamError,
    >)
        ensures
            !valid_addresses(self.addr_streamer@, self.base_streamer@.len() as int) ==> r
                == Err::<AlgHashIterator<SortedIterator<'a, Scalar>>, StreamError>(
                StreamError::MalformedOrdering,
            ),
            valid_addresses(self.addr_streamer@, self.base_streamer@.len() as int)
                && self.base_streamer@.len() == 0 ==> r == Err::<
                AlgHashIterator<SortedIterator<'a, Scalar>>,
                StreamError,
            >(StreamError::EmptySequence),
            valid_addresses(self.addr_streamer@, self.base_streamer@.len() as int)
                && self.base_streamer@.len() > 0 ==> (r matches Ok(h) && h.wf() && h.future()
                == alg_hash_output(
                merged(self.base_streamer@, self.addr_streamer@),
                self.y,
                self.z,
            )),
    {
        if !check_addresses(self.addr_streamer, self.base_streamer.len()) {
            return Err(StreamError::MalformedOrdering);
        }
        if self.base_streamer.len() == 0 {
            return Err(StreamError::EmptySequence);
        }
        Ok(self.stream())
    }

    /// The declared length of the lookup column: one slot per base element
    /// plus one per address.
    pub fn len(&self) -> (r: usize)
        requires
            self.base_streamer@.len() + self.addr_streamer@.len() <= usize::MAX,
        ensures
            r == self.base_streamer@.len() + self.addr_streamer@.len(),
    {
        self.base_streamer.len() + self.addr_streamer.len()
    }
}

} // verus!
