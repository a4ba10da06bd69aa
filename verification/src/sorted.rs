use vstd::prelude::*;
use crate::stream::{Enumerator, StreamError};

verus! {

// ---------------------------------------------------------------------------
// Specification of the sorted merge
// ---------------------------------------------------------------------------

/// How many entries of `s` equal `v`.
pub open spec fn count_eq(s: Seq<usize>, v: int) -> nat
    decreases s.len(),
{
    if s.len() == 0 {
        0
    } else {
        (if s[0] == v { 1nat } else { 0nat }) + count_eq(s.skip(1), v)
    }
}

/// `x` repeated `k` times.
pub open spec fn repeated<T>(x: T, k: nat) -> Seq<T> {
    Seq::new(k, |i: int| x)
}

/// The sequence is non-increasing in enumeration order.
pub open spec fn non_increasing(s: Seq<usize>) -> bool {
    forall|i: int, j: int| #![trigger s[i], s[j]] 0 <= i <= j < s.len() ==> s[i] >= s[j]
}

/// Every entry is below `n`.
pub open spec fn all_below(s: Seq<usize>, n: int) -> bool {
    forall|i: int| 0 <= i < s.len() ==> #[trigger] s[i] < n
}

/// A well-formed address sequence for a base of length `n`: a non-increasing
/// run of positions drawn from `{0, ..., n-1}`.
pub open spec fn valid_addresses(s: Seq<usize>, n: int) -> bool {
    non_increasing(s) && all_below(s, n)
}

/// The sorted-merge output for the base suffix starting at index `j`. The
/// base is given in enumeration order, so element `j` sits at position
/// `base.len() - 1 - j`; it is emitted once for the draining cursor passing
/// it, plus once per occurrence of its position among the addresses.
pub open spec fn merged_from<T>(base: Seq<T>, addrs: Seq<usize>, j: int) -> Seq<T>
    decreases base.len() - j,
{
    if j < 0 || j >= base.len() {
        Seq::empty()
    } else {
        repeated(base[j], 1 + count_eq(addrs, base.len() - 1 - j)) + merged_from(base, addrs, j + 1)
    }
}

/// The full sorted-merge output: each base element, in descending-position
/// order, replicated once per occurrence of its position in the addresses,
/// on top of the one direct emission.
pub open spec fn merged<T>(base: Seq<T>, addrs: Seq<usize>) -> Seq<T> {
    merged_from(base, addrs, 0)
}

// ---------------------------------------------------------------------------
// Lemmas about the merged sequence
// ---------------------------------------------------------------------------

proof fn lemma_count_eq_zero(s: Seq<usize>, v: int)
    requires
        forall|i: int| 0 <= i < s.len() ==> s[i] != v,
    ensures
        count_eq(s, v) == 0,
    decreases s.len(),
{
    if s.len() > 0 {
        assert forall|i: int| 0 <= i < s.skip(1).len() implies s.skip(1)[i] != v by {
            assert(s.skip(1)[i] == s[i + 1]);
        }
        lemma_count_eq_zero(s.skip(1), v);
    }
}

/// Dropping an address that lies above every position still to be drained
/// does not change the merge of that suffix.
proof fn lemma_merged_from_drop_head<T>(base: Seq<T>, s: Seq<usize>, j: int)
    requires
        s.len() > 0,
        s[0] > base.len() - 1 - j,
    ensures
        merged_from(base, s, j) == merged_from(base, s.skip(1), j),
    decreases base.len() - j,
{
    if 0 <= j && j < base.len() {
        assert(count_eq(s, base.len() - 1 - j) == count_eq(s.skip(1), base.len() - 1 - j));
        lemma_merged_from_drop_head(base, s, j + 1);
    }
}

/// When no remaining position occurs among the addresses, the merge of the
/// suffix is just the suffix itself.
proof fn lemma_merged_from_unit<T>(base: Seq<T>, s: Seq<usize>, j: int)
    requires
        0 <= j <= base.len(),
        forall|q: int| q <= base.len() - 1 - j ==> count_eq(s, q) == 0,
    ensures
        merged_from(base, s, j) == base.skip(j),
    decreases base.len() - j,
{
    if j == base.len() {
        assert(merged_from(base, s, j) =~= base.skip(j));
    } else {
        lemma_merged_from_unit(base, s, j + 1);
        assert(count_eq(s, base.len() - 1 - j) == 0);
        assert(repeated(base[j], 1) + base.skip(j + 1) =~= base.skip(j));
    }
}

/// Consuming one address whose position is still to be drained adds exactly
/// one emission to the merge of the suffix.
proof fn lemma_merged_from_len_step<T>(base: Seq<T>, s: Seq<usize>, j: int)
    requires
        0 <= j <= base.len(),
        s.len() > 0,
        s[0] <= base.len() - 1 - j,
    ensures
        merged_from(base, s, j).len() == merged_from(base, s.skip(1), j).len() + 1,
    decreases base.len() - j,
{
    let pos = base.len() - 1 - j;
    if s[0] == pos {
        lemma_merged_from_drop_head(base, s, j + 1);
        assert(count_eq(s, pos) == 1 + count_eq(s.skip(1), pos));
    } else {
        assert(count_eq(s, pos) == count_eq(s.skip(1), pos));
        lemma_merged_from_len_step(base, s, j + 1);
    }
}

/// Length invariant of the sorted merge: the combined column holds one slot
/// per base element plus one per address occurrence.
pub proof fn lemma_sorted_merge_length<T>(base: Seq<T>, addrs: Seq<usize>)
    requires
        valid_addresses(addrs, base.len() as int),
    ensures
        merged(base, addrs).len() == base.len() + addrs.len(),
    decreases addrs.len(),
{
    if addrs.len() == 0 {
        assert forall|q: int| q <= base.len() - 1 implies count_eq(addrs, q) == 0 by {}
        lemma_merged_from_unit(base, addrs, 0);
    } else {
        lemma_merged_from_len_step(base, addrs, 0);
        assert forall|i: int, j: int|
            #![trigger addrs.skip(1)[i], addrs.skip(1)[j]]
            0 <= i <= j < addrs.skip(1).len() implies addrs.skip(1)[i] >= addrs.skip(1)[j] by {
            assert(addrs.skip(1)[i] == addrs[i + 1]);
            assert(addrs.skip(1)[j] == addrs[j + 1]);
        }
        assert forall|i: int| 0 <= i < addrs.skip(1).len() implies addrs.skip(1)[i] < base.len() by {
            assert(addrs.skip(1)[i] == addrs[i + 1]);
        }
        lemma_sorted_merge_length(base, addrs.skip(1));
    }
}


/// A non-increasing run can only fail to be one by holding a strict ascent.
pub open spec fn has_ascent(s: Seq<usize>) -> bool {
    exists|i: int, j: int| 0 <= i <= j < s.len() && s[i] < s[j]
}

proof fn lemma_ascent(s: Seq<usize>)
    ensures
        !non_increasing(s) ==> has_ascent(s),
{
    if !has_ascent(s) {
        assert forall|i: int, j: int|
            #![trigger s[i], s[j]]
            0 <= i <= j < s.len() implies s[i] >= s[j] by {
            if s[i] < s[j] {
                assert(has_ascent(s));
            }
        }
    }
}



proof fn lemma_adjacent_non_increasing(s: Seq<usize>, i: int, j: int)
    requires
        forall|k: int| 0 <= k && k + 1 < s.len() ==> #[trigger] s[k] >= s[k + 1],
        0 <= i <= j < s.len(),
    ensures
        s[i] >= s[j],
    decreases j - i,
{
    if i < j {
        lemma_adjacent_non_increasing(s, i + 1, j);
    }
}

/// Decides, in one pass, whether an address sequence is a well-formed access
/// pattern for a base of length `n`: callers that cannot know this about
/// their input test it here before starting a merge.
pub fn check_addresses(addrs: &Vec<usize>, n: usize) -> (r: bool)
    ensures
        r == valid_addresses(addrs@, n as int),
{
    let mut k: usize = 0;
    while k < addrs.len()
        invariant
            k <= addrs@.len(),
            forall|i: int| 0 <= i < k ==> addrs@[i] < n,
            forall|i: int| 0 <= i < k && i + 1 < addrs@.len() ==> #[trigger] addrs@[i] >= addrs@[i + 1],
        decreases addrs@.len() - k,
    {
        if addrs[k] >= n {
            proof {
                assert(!all_below(addrs@, n as int));
            }
            return false;
        }
        if k + 1 < addrs.len() {
            if addrs[k] < addrs[k + 1] {
                proof {
                    assert(!non_increasing(addrs@));
                }
                return false;
            }
        }
        k = k + 1;
    }
    proof {
        assert forall|i: int, j: int|
            #![trigger addrs@[i], addrs@[j]]
            0 <= i <= j < addrs@.len() implies addrs@[i] >= addrs@[j] by {
            lemma_adjacent_non_increasing(addrs@, i, j);
        }
    }
    true
}

proof fn lemma_out_of_range(s: Seq<usize>, n: int)
    ensures
        !all_below(s, n) ==> exists|i: int| 0 <= i < s.len() && #[trigger] s[i] >= n,
{
    if !(exists|i: int| 0 <= i < s.len() && #[trigger] s[i] >= n) {
        assert forall|i: int| 0 <= i < s.len() implies #[trigger] s[i] < n by {
            if s[i] >= n {
                assert(exists|i: int| 0 <= i < s.len() && #[trigger] s[i] >= n);
            }
        }
    }
}

/// Runs one full pass of the sorted merge and collects everything it emits.
/// A well-formed address sequence yields exactly the merged column and no
/// error; any other — one that is not non-increasing, or one that leaves the
/// valid position range — hits the malformed-ordering fatal path. The merge
/// is never silently truncated or mis-merged.
#[verifier::rlimit(60)]
pub fn sorted_merge<T: Copy>(base: &Vec<T>, addrs: &Vec<usize>) -> (r: Result<
    Vec<T>,
    StreamError,
>)
    ensures
        valid_addresses(addrs@, base@.len() as int) ==> (r matches Ok(v) && v@ == merged(
            base@,
            addrs@,
        )),
        !valid_addresses(addrs@, base@.len() as int) ==> r == Err::<Vec<T>, StreamError>(
            StreamError::MalformedOrdering,
        ),
{
    let ghost n = base@.len() as int;
    let ghost bad = all_below(addrs@, n) && !non_increasing(addrs@);
    let ghost oor = !all_below(addrs@, n);
    let mut it = SortedIterator::new(base, addrs, base.len());
    let mut out: Vec<T> = Vec::new();
    proof {
        lemma_ascent(addrs@);
        lemma_out_of_range(addrs@, n);
        if bad {
            // an ascent needs two entries, so there is a pending address
            assert(addrs@.len() >= 2);
            assert(it.rem_addrs() =~= addrs@);
        }
        if oor {
            // the offending address is ahead of the fresh pass
            let k0 = choose|k: int| 0 <= k < addrs@.len() && #[trigger] addrs@[k] >= n;
            assert(0 <= k0 < addrs@.len());
        }
        if valid_addresses(addrs@, n) {
            assert(out@ + it.remaining() =~= it.remaining());
        }
    }
    loop
        invariant
            n == base@.len() as int,
            bad == (all_below(addrs@, n) && !non_increasing(addrs@)),
            it.inv(),
            it.base@ == base@,
            it.addrs@ == addrs@,
            valid_addresses(addrs@, n) ==> it.valid() && out@ + it.remaining() == merged(
                base@,
                addrs@,
            ),
            bad ==> match it.current_address {
                Some(a) => all_below(it.rem_addrs(), n) && (a > it.current_it || has_ascent(
                    it.rem_addrs(),
                )),
                None => false,
            },
            oor == !all_below(addrs@, n),
            oor ==> it.current_address is Some && exists|k: int|
                it.addr_pos - 1 <= k < addrs@.len() && #[trigger] addrs@[k] >= n,
        decreases 2 * (base@.len() - it.base_pos) + 2 * (addrs@.len() - it.addr_pos) + (
        if it.current_address is Some {
            1int
        } else {
            0int
        }),
    {
        let ghost prev = it;
        match it.next() {
            Ok(Some(x)) => {
                proof {
                    if valid_addresses(addrs@, n) {
                        assert(prev.remaining().len() > 0);
                        assert(out@.push(x) + it.remaining() =~= out@ + prev.remaining());
                    }
                    if bad {
                        match prev.current_address {
                            Some(a) => {
                                let rem = prev.rem_addrs();
                                if prev.current_it > a {
                                    // the pending suffix is untouched
                                    assert(it.rem_addrs() =~= rem);
                                    assert(has_ascent(rem));
                                } else {
                                    // a match: the pending suffix advanced
                                    assert(prev.current_it == a);
                                    assert(has_ascent(rem));
                                    let (i0, j0) = choose|i: int, j: int|
                                        0 <= i <= j < rem.len() && rem[i] < rem[j];
                                    assert(rem[i0] < rem[j0]);
                                    assert(i0 < j0);
                                    assert(rem.len() >= 2);
                                    // so the addresses were not exhausted
                                    assert(prev.addr_pos < addrs@.len());
                                    let rem2 = it.rem_addrs();
                                    assert(rem2 =~= rem.skip(1));
                                    assert forall|q: int| 0 <= q < rem2.len() implies
                                        #[trigger] rem2[q] < n by {
                                        assert(rem2[q] == rem[q + 1]);
                                    }
                                    if i0 >= 1 {
                                        assert(rem2[i0 - 1] == rem[i0]);
                                        assert(rem2[j0 - 1] == rem[j0]);
                                        assert(0 <= i0 - 1 <= j0 - 1 < rem2.len() && rem2[i0 - 1]
                                            < rem2[j0 - 1]);
                                        assert(has_ascent(rem2));
                                    } else {
                                        if rem2[0] > it.current_it {
                                        } else {
                                            assert(rem2[0] == rem[1]);
                                            assert(rem2[0] <= it.current_it);
                                            assert(it.current_it == a);
                                            assert(rem[i0] == a);
                                            assert(rem2[j0 - 1] == rem[j0]);
                                            assert(0 <= 0 <= j0 - 1 < rem2.len() && rem2[0] < rem2[
                                                j0 - 1]);
                                            assert(has_ascent(rem2));
                                        }
                                    }
                                }
                            },
                            None => {},
                        }
                    }
                    if oor {
                        match prev.current_address {
                            Some(a) => {
                                let k0 = choose|k: int|
                                    prev.addr_pos - 1 <= k < addrs@.len() && #[trigger] addrs@[k]
                                        >= n;
                                if prev.current_it > a {
                                    // pending suffix untouched, the witness still serves
                                    assert(it.addr_pos == prev.addr_pos);
                                } else {
                                    // a match: the matched address had a cached
                                    // element, hence lies in range, so the
                                    // offending one sits strictly ahead
                                    assert(prev.current_it == a);
                                    assert(prev.cache is Some);
                                    assert(prev.base_pos >= 1);
                                    assert(a < n);
                                    assert(addrs@[prev.addr_pos - 1] == a);
                                    assert(k0 >= prev.addr_pos);
                                    assert(prev.addr_pos < addrs@.len());
                                    assert(it.addr_pos == prev.addr_pos + 1);
                                    assert(it.current_address is Some);
                                    assert(it.addr_pos - 1 <= k0 < addrs@.len() && addrs@[k0]
                                        >= n);
                                }
                            },
                            None => {
                                assert(false);
                            },
                        }
                    }
                }
                out.push(x);
            },
            Ok(None) => {
                proof {
                    if valid_addresses(addrs@, n) {
                        assert(out@ + prev.remaining() =~= out@);
                    }
                    if bad {
                        // a clean end needs the addresses exhausted, yet one
                        // is still pending
                        assert(prev.current_address is Some);
                        assert(false);
                    }
                    if oor {
                        // the pass can only end once the addresses are
                        // exhausted, and the offending one never is: it can
                        // leave only through the fatal path
                        assert(prev.current_address is Some);
                        assert(false);
                    }
                }
                return Ok(out);
            },
            Err(e) => {
                return Err(e);
            },
        }
    }
}

// ---------------------------------------------------------------------------
// The sorted-merge enumerator
// ---------------------------------------------------------------------------

/// One enumeration pass of the sorted merge: drains the base sequence from
/// its high position down, re-emitting the cached element once per matching
/// address. The sources are borrowed; a new pass never disturbs them.
pub struct SortedIterator<'a, T> {
    /// Base values, highest position first (element `j` has position
    /// `base.len() - 1 - j`).
    pub base: &'a Vec<T>,
    /// How many base elements were consumed so far.
    pub base_pos: usize,
    /// The live position cursor.
    pub current_it: usize,
    /// The most recently consumed base element.
    pub cache: Option<T>,
    /// The address sequence, non-increasing position indices.
    pub addrs: &'a Vec<usize>,
    /// How many addresses were consumed from `addrs` (the pending one
    /// included).
    pub addr_pos: usize,
    /// The pending address, or `None` once the addresses are exhausted.
    pub current_address: Option<usize>,
}

impl<'a, T: Copy> SortedIterator<'a, T> {
    /// Structural well-formedness of the cursor state.
    pub open spec fn inv(&self) -> bool {
        &&& self.base_pos <= self.base@.len()
        &&& self.addr_pos <= self.addrs@.len()
        &&& match self.current_address {
            Some(a) => {
                &&& self.addr_pos >= 1
                &&& a == self.addrs@[self.addr_pos - 1]
                &&& self.current_it + self.base_pos == self.base@.len()
                &&& (self.base_pos > 0 ==> self.cache == Some(self.base@[self.base_pos - 1]))
                &&& (self.base_pos == 0 ==> self.cache is None)
            },
            None => self.addr_pos == self.addrs@.len(),
        }
    }

    /// The addresses not yet matched, the pending one first.
    pub open spec fn rem_addrs(&self) -> Seq<usize> {
        self.addrs@.skip(self.addr_pos as int - 1)
    }

    /// The pending addresses form a valid access pattern for the live cursor.
    pub open spec fn valid(&self) -> bool {
        match self.current_address {
            None => true,
            Some(a) => {
                &&& non_increasing(self.rem_addrs())
                &&& all_below(self.rem_addrs(), self.base@.len() as int)
                &&& a <= self.current_it
            },
        }
    }

    /// The re-emissions of the cached element still owed for the pending
    /// addresses that match the live cursor position.
    pub open spec fn cache_reps(&self) -> Seq<T> {
        match self.cache {
            Some(c) => repeated(c, count_eq(self.rem_addrs(), self.current_it as int)),
            None => Seq::empty(),
        }
    }

    /// Everything this pass has yet to emit.
    pub open spec fn remaining(&self) -> Seq<T> {
        match self.current_address {
            None => self.base@.skip(self.base_pos as int),
            Some(a) => self.cache_reps() + merged_from(
                self.base@,
                self.rem_addrs(),
                self.base_pos as int,
            ),
        }
    }

    /// Start a pass: position the cursor at `len`, the base length, and read
    /// the first pending address.
    pub fn new(base: &'a Vec<T>, addrs: &'a Vec<usize>, len: usize) -> (r: Self)
        requires
            len == base@.len(),
        ensures
            r.inv(),
            r.base@ == base@,
            r.addrs@ == addrs@,
            r.base_pos == 0,
            r.current_it == len,
            r.cache is None,
            r.addr_pos == if addrs@.len() > 0 { 1int } else { 0int },
            r.current_address == if addrs@.len() > 0 { Some(addrs@[0]) } else { None::<usize> },
            valid_addresses(addrs@, base@.len() as int) ==> r.valid() && r.remaining() == merged(
                base@,
                addrs@,
            ),
    {
        let current_address: Option<usize> = if addrs.len() > 0 {
            Some(addrs[0])
        } else {
            None
        };
        let r = SortedIterator {
            base,
            base_pos: 0,
            current_it: len,
            cache: None,
            addrs,
            addr_pos: if addrs.len() > 0 { 1 } else { 0 },
            current_address,
        };
        proof {
            if valid_addresses(addrs@, base@.len() as int) {
                if addrs@.len() > 0 {
                    assert(r.rem_addrs() =~= addrs@);
                    assert(r.remaining() =~= merged_from(base@, addrs@, 0));
                } else {
                    assert forall|q: int| q <= base@.len() - 1 implies count_eq(addrs@, q)
                        == 0 by {}
                    lemma_merged_from_unit(base@, addrs@, 0);
                    assert(r.remaining() =~= base@.skip(0));
                }
            }
        }
        r
    }

    /// One step of the merge. Never fails on a valid address pattern; an
    /// address that overtakes the live cursor, or one met at the initial
    /// cursor position (outside the valid range, so nothing was cached for
    /// it), is the malformed-ordering fatal path.
    pub fn next(&mut self) -> (r: Result<Option<T>, StreamError>)
        requires
            old(self).inv(),
        ensures
            final(self).inv(),
            final(self).base == old(self).base,
            final(self).addrs == old(self).addrs,
            // exact account of the step taken
            match old(self).current_address {
                None => {
                    &&& final(self).current_address is None
                    &&& final(self).addr_pos == old(self).addr_pos
                    &&& final(self).current_it == old(self).current_it
                    &&& final(self).cache == old(self).cache
                    &&& if old(self).base_pos < old(self).base@.len() {
                        r == Ok::<Option<T>, StreamError>(
                            Some(old(self).base@[old(self).base_pos as int]),
                        ) && final(self).base_pos == old(self).base_pos + 1
                    } else {
                        r == Ok::<Option<T>, StreamError>(None) && final(self).base_pos == old(self).base_pos
                    }
                },
                Some(a) => {
                    if old(self).current_it > a {
                        &&& r == Ok::<Option<T>, StreamError>(
                            Some(old(self).base@[old(self).base_pos as int]),
                        )
                        &&& final(self).base_pos == old(self).base_pos + 1
                        &&& final(self).current_it == old(self).current_it - 1
                        &&& final(self).cache == Some(old(self).base@[old(self).base_pos as int])
                        &&& final(self).current_address == old(self).current_address
                        &&& final(self).addr_pos == old(self).addr_pos
                    } else if old(self).current_it == a {
                        &&& final(self).base_pos == old(self).base_pos
                        &&& final(self).current_it == old(self).current_it
                        &&& final(self).cache == old(self).cache
                        &&& if old(self).cache is Some {
                            &&& r == Ok::<Option<T>, StreamError>(old(self).cache)
                            &&& if old(self).addr_pos < old(self).addrs@.len() {
                                final(self).addr_pos == old(self).addr_pos + 1 && final(self).current_address == Some(old(self).addrs@[old(self).addr_pos as int])
                            } else {
                                final(self).addr_pos == old(self).addr_pos && final(self).current_address is None
                            }
                        } else {
                            &&& r == Err::<Option<T>, StreamError>(StreamError::MalformedOrdering)
                            &&& final(self).addr_pos == old(self).addr_pos
                            &&& final(self).current_address == old(self).current_address
                        }
                    } else {
                        &&& r == Err::<Option<T>, StreamError>(StreamError::MalformedOrdering)
                        &&& final(self).base_pos == old(self).base_pos
                        &&& final(self).current_it == old(self).current_it
                        &&& final(self).cache == old(self).cache
                        &&& final(self).addr_pos == old(self).addr_pos
                        &&& final(self).current_address == old(self).current_address
                    }
                },
            },
            // the semantic step: on a valid pattern the pass pops the head of
            // what it still owes
            old(self).valid() ==> final(self).valid() && if old(self).remaining().len() > 0 {
                r == Ok::<Option<T>, StreamError>(Some(old(self).remaining()[0])) && final(self).remaining() == old(self).remaining().skip(1)
            } else {
                r == Ok::<Option<T>, StreamError>(None) && final(self).remaining() == old(self).remaining()
            },
    {
        let blen = self.base.len();
        match self.current_address {
            None => {
                if self.base_pos < self.base.len() {
                    let x = self.base[self.base_pos];
                    self.base_pos = self.base_pos + 1;
                    proof {
                        assert(old(self).base@.skip(old(self).base_pos as int).skip(1)
                            =~= self.base@.skip(self.base_pos as int));
                    }
                    Ok(Some(x))
                } else {
                    proof {
                        assert(old(self).remaining().len() == 0);
                    }
                    Ok(None)
                }
            },
            Some(a) => {
                if self.current_it > a {
                    self.current_it = self.current_it - 1;
                    let x = self.base[self.base_pos];
                    self.base_pos = self.base_pos + 1;
                    self.cache = Some(x);
                    proof {
                        if old(self).valid() {
                            let os = *old(self);
                            let rem = os.rem_addrs();
                            let b = os.base@;
                            let p = os.current_it as int;
                            assert forall|i: int| 0 <= i < rem.len() implies rem[i] != p by {
                                assert(rem[i] <= rem[0]);
                            }
                            lemma_count_eq_zero(rem, p);
                            assert(os.cache_reps() =~= Seq::<T>::empty());
                            assert(os.remaining() =~= merged_from(b, rem, os.base_pos as int));
                            // unfold one level of merged_from
                            assert(merged_from(b, rem, os.base_pos as int) == repeated(
                                b[os.base_pos as int],
                                1 + count_eq(rem, b.len() - 1 - os.base_pos),
                            ) + merged_from(b, rem, os.base_pos + 1));
                            assert(self.rem_addrs() =~= rem);
                            assert(b.len() - 1 - os.base_pos == self.current_it as int);
                            assert(self.cache_reps() == repeated(
                                b[os.base_pos as int],
                                count_eq(rem, self.current_it as int),
                            ));
                            assert(os.remaining()[0] == b[os.base_pos as int]);
                            assert(self.remaining() =~= os.remaining().skip(1));
                        }
                    }
                    Ok(Some(x))
                } else if self.current_it == a {
                    let ghost os = *old(self);
                    if self.cache.is_none() {
                        // the pending address sits at the initial cursor
                        // position, outside the valid range: nothing was
                        // cached for it, and re-emitting nothing would drop
                        // the whole base silently
                        proof {
                            if os.valid() {
                                assert(os.rem_addrs()[0] == a);
                                assert(false);
                            }
                        }
                        return Err(StreamError::MalformedOrdering);
                    }
                    if self.addr_pos < self.addrs.len() {
                        self.current_address = Some(self.addrs[self.addr_pos]);
                        self.addr_pos = self.addr_pos + 1;
                    } else {
                        self.current_address = None;
                    }
                    proof {
                        if os.valid() {
                            let rem = os.rem_addrs();
                            let b = os.base@;
                            let p = os.current_it as int;
                            // the pending address is below the base length,
                            // so at least one base element was consumed
                            assert(rem[0] == a);
                            assert(a < b.len());
                            assert(os.base_pos >= 1);
                            let c = os.cache->Some_0;
                            assert(count_eq(rem, p) >= 1);
                            assert(os.remaining()[0] == c);
                            if os.addr_pos < os.addrs@.len() {
                                assert(self.rem_addrs() =~= rem.skip(1));
                                assert(count_eq(rem.skip(1), p) == count_eq(rem, p) - 1);
                                assert(rem[0] > b.len() - 1 - os.base_pos);
                                lemma_merged_from_drop_head(b, rem, os.base_pos as int);
                                // the remaining suffix of addresses is still valid
                                assert forall|i: int, j: int|
                                    #![trigger rem.skip(1)[i], rem.skip(1)[j]]
                                    0 <= i <= j < rem.skip(1).len() implies rem.skip(1)[i]
                                    >= rem.skip(1)[j] by {
                                    assert(rem.skip(1)[i] == rem[i + 1]);
                                    assert(rem.skip(1)[j] == rem[j + 1]);
                                }
                                assert forall|i: int| 0 <= i < rem.skip(1).len() implies rem.skip(
                                    1,
                                )[i] < b.len() by {
                                    assert(rem.skip(1)[i] == rem[i + 1]);
                                }
                                assert(rem.skip(1)[0] == rem[1]);
                                assert(rem[1] <= rem[0]);
                                assert(self.valid());
                                assert(self.remaining() =~= os.remaining().skip(1));
                            } else {
                                // that was the last address: what is owed now
                                // is the plain drain of the base
                                assert(rem =~= seq![a]);
                                assert(rem.skip(1).len() == 0);
                                assert(count_eq(rem.skip(1), p) == 0);
                                assert(count_eq(rem, p) == 1);
                                assert forall|q: int| q <= b.len() - 1 - os.base_pos implies
                                    count_eq(rem, q) == 0 by {
                                    assert(rem[0] == p);
                                    assert(q < p);
                                    assert(count_eq(rem.skip(1), q) == 0);
                                }
                                lemma_merged_from_unit(b, rem, os.base_pos as int);
                                assert(self.remaining() =~= os.remaining().skip(1));
                            }
                        }
                    }
                    Ok(self.cache)
                } else {
                    proof {
                        if old(self).valid() {
                            assert(false);
                        }
                    }
                    Err(StreamError::MalformedOrdering)
                }
            },
        }
    }
}

impl<'a, T: Copy> Enumerator<T> for SortedIterator<'a, T> {
    open spec fn wf(&self) -> bool {
        self.inv() && self.valid()
    }

    open spec fn future(&self) -> Seq<T> {
        self.remaining()
    }

    fn next_item(&mut self) -> (r: Option<T>) {
        match self.next() {
            Ok(o) => o,
            Err(_) => {
                proof {
                    assert(false);
                }
                None
            },
        }
    }
}

} // verus!
