//! The result-slot protocol of one dispatch. A backend computes units (or
//! chunks of units) wherever it likes; every result it produces carries its
//! index and input, and is committed into an index-addressed slot array that
//! refuses a second write to a slot and a result for the wrong input. A
//! dispatch is finished only when every slot holds the kernel of its input.
use vstd::prelude::*;
use crate::kernel::{kernel, process_value};
use crate::partition::is_chunking;

verus! {

/// Why a dispatch could not commit a result or be finished.
#[derive(Debug, Clone, Copy, PartialEq, Eq, Structural)]
pub enum DispatchFailure {
    /// A result names a slot outside the workload.
    IndexOutOfRange,
    /// A result was computed from another input than the workload holds at
    /// its index.
    InputMismatch,
    /// A result targets a slot that already holds one.
    AlreadyWritten,
    /// The dispatch was finished while some slot was still empty.
    Incomplete,
}

/// The kernel's output for one unit of the workload, together with the index
/// and the input it was computed from.
pub struct UnitResult {
    index: usize,
    input: u32,
    output: u32,
}

impl UnitResult {
    #[verifier::type_invariant]
    spec fn computed(self) -> bool {
        self.output == kernel(self.input)
    }

    pub closed spec fn spec_index(&self) -> usize {
        self.index
    }

    pub closed spec fn spec_input(&self) -> u32 {
        self.input
    }

    /// Runs the kernel on `input`, the unit at `index`.
    pub fn compute(index: usize, input: u32) -> (r: UnitResult)
        ensures
            r.spec_index() == index,
            r.spec_input() == input,
    {
        UnitResult { index, input, output: process_value(input) }
    }

    #[verifier::when_used_as_spec(spec_index)]
    pub fn index(&self) -> (r: usize)
        ensures
            r == self.spec_index(),
    {
        self.index
    }

    #[verifier::when_used_as_spec(spec_input)]
    pub fn input(&self) -> (r: u32)
        ensures
            r == self.spec_input(),
    {
        self.input
    }

    pub fn output(&self) -> (r: u32)
        ensures
            r == kernel(self.spec_input()),
    {
        proof {
            use_type_invariant(self);
        }
        self.output
    }
}

/// The kernel's outputs for a contiguous run of units starting at `start`.
pub struct ChunkResult {
    start: usize,
    inputs: Vec<u32>,
    outputs: Vec<u32>,
}

impl ChunkResult {
    #[verifier::type_invariant]
    spec fn computed(self) -> bool {
        &&& self.outputs@.len() == self.inputs@.len()
        &&& forall|k: int| 0 <= k < self.inputs@.len() ==> self.outputs@[k] == kernel(
            #[trigger] self.inputs@[k],
        )
    }

    pub closed spec fn spec_start(&self) -> usize {
        self.start
    }

    pub closed spec fn spec_inputs(&self) -> Seq<u32> {
        self.inputs@
    }

    /// Runs the kernel on each of `inputs`, the units from index `start` on.
    pub fn compute(start: usize, inputs: Vec<u32>) -> (r: ChunkResult)
        ensures
            r.spec_start() == start,
            r.spec_inputs() == inputs@,
    {
        let mut outputs: Vec<u32> = Vec::with_capacity(inputs.len());
        let mut k: usize = 0;
        while k < inputs.len()
            invariant
                k <= inputs@.len(),
                outputs@.len() == k,
                forall|j: int| 0 <= j < k ==> outputs@[j] == kernel(#[trigger] inputs@[j]),
            decreases inputs@.len() - k,
        {
            outputs.push(process_value(inputs[k]));
            k = k + 1;
        }
        ChunkResult { start, inputs, outputs }
    }

    #[verifier::when_used_as_spec(spec_start)]
    pub fn start(&self) -> (r: usize)
        ensures
            r == self.spec_start(),
    {
        self.start
    }

    pub fn len(&self) -> (r: usize)
        ensures
            r == self.spec_inputs().len(),
    {
        self.inputs.len()
    }

    /// The outputs, one per input and in the same order.
    pub fn outputs(&self) -> (r: &Vec<u32>)
        ensures
            r@.len() == self.spec_inputs().len(),
            forall|k: int| 0 <= k < r@.len() ==> r@[k] == kernel(#[trigger] self.spec_inputs()[k]),
    {
        proof {
            use_type_invariant(self);
        }
        &self.outputs
    }
}

/// What committing the result of the unit at `index`, computed from `input`,
/// does to the slots `s` of a dispatch over workload `w`.
pub open spec fn unit_commit(w: Seq<u32>, s: Seq<Option<u32>>, index: int, input: u32) -> Result<
    Seq<Option<u32>>,
    DispatchFailure,
> {
    if !(0 <= index < w.len()) {
        Err(DispatchFailure::IndexOutOfRange)
    } else if w[index] != input {
        Err(DispatchFailure::InputMismatch)
    } else if s[index] is Some {
        Err(DispatchFailure::AlreadyWritten)
    } else {
        Ok(s.update(index, Some(kernel(input))))
    }
}

/// What committing a chunk computed from `inputs`, starting at `start`, does
/// to the slots `s` of a dispatch over workload `w`.
pub open spec fn chunk_commit(w: Seq<u32>, s: Seq<Option<u32>>, start: int, inputs: Seq<u32>) -> Result<
    Seq<Option<u32>>,
    DispatchFailure,
> {
    if !(0 <= start && start + inputs.len() <= w.len()) {
        Err(DispatchFailure::IndexOutOfRange)
    } else if w.subrange(start, start + inputs.len()) != inputs {
        Err(DispatchFailure::InputMismatch)
    } else if exists|k: int| 0 <= k < inputs.len() && (#[trigger] s[start + k]) is Some {
        Err(DispatchFailure::AlreadyWritten)
    } else {
        Ok(
            Seq::new(
                s.len(),
                |i: int|
                    if start <= i < start + inputs.len() {
                        Some(kernel(w[i]))
                    } else {
                        s[i]
                    },
            ),
        )
    }
}

/// Every slot is filled.
pub open spec fn all_written(s: Seq<Option<u32>>) -> bool {
    forall|i: int| 0 <= i < s.len() ==> (#[trigger] s[i]) is Some
}

/// A successful commit fills the slots it covers with the kernel of the
/// workload's units there, and leaves every other slot as it was.
pub proof fn lemma_commit_fills(w: Seq<u32>, s: Seq<Option<u32>>, index: int, input: u32, start: int, inputs: Seq<u32>)
    requires
        s.len() == w.len(),
    ensures
        unit_commit(w, s, index, input) matches Ok(s2) ==> s2.len() == s.len() && s2[index] == Some(kernel(w[index]))
            && forall|i: int| 0 <= i < s.len() && i != index ==> s2[i] == s[i],
        chunk_commit(w, s, start, inputs) matches Ok(s2) ==> s2.len() == s.len() && forall|i: int| 0 <= i < s.len() ==> s2[i] == if start <= i < start + inputs.len() {
            Some(kernel(w[i]))
        } else {
            s[i]
        },
{
}

/// A slot is written at most once: while it holds a result, every commit that
/// reaches it, of a unit or of a chunk, is refused.
pub proof fn lemma_written_slot_refuses(w: Seq<u32>, s: Seq<Option<u32>>, index: int, input: u32, start: int, inputs: Seq<u32>)
    requires
        s.len() == w.len(),
        0 <= index < s.len(),
        s[index] is Some,
    ensures
        unit_commit(w, s, index, input) is Err,
        start <= index < start + inputs.len() ==> chunk_commit(w, s, start, inputs) is Err,
{
    if start <= index < start + inputs.len() && 0 <= start && start + inputs.len() <= w.len()
        && w.subrange(start, start + inputs.len()) == inputs {
        assert(s[start + (index - start)] is Some);
    }
}

/// The slots after committing, in order and from empty slots, one chunk per
/// range, each computed from the workload's units in that range.
pub open spec fn commit_chunks(w: Seq<u32>, ranges: Seq<(usize, usize)>) -> Result<Seq<Option<u32>>, DispatchFailure>
    decreases ranges.len(),
{
    if ranges.len() == 0 {
        Ok(Seq::new(w.len(), |i: int| None::<u32>))
    } else {
        match commit_chunks(w, ranges.drop_last()) {
            Ok(s) => chunk_commit(w, s, ranges.last().0 as int, w.subrange(ranges.last().0 as int, ranges.last().1 as int)),
            Err(e) => Err(e),
        }
    }
}

/// Slots holding the kernel of every unit below `end`, and nothing above.
pub open spec fn filled_below(w: Seq<u32>, end: int) -> Seq<Option<u32>> {
    Seq::new(w.len(), |i: int| if i < end { Some(kernel(w[i])) } else { None::<u32> })
}

proof fn lemma_chunk_count(len: int, size: int, n: int)
    requires
        len >= 0,
        size > 0,
        n == (len + size - 1) / size,
    ensures
        n >= 0,
        n * size >= len,
        n > 0 ==> (n - 1) * size < len,
{
    vstd::arithmetic::div_mod::lemma_fundamental_div_mod(len + size - 1, size);
    vstd::arithmetic::div_mod::lemma_mod_bound(len + size - 1, size);
    vstd::arithmetic::div_mod::lemma_div_pos_is_pos(len + size - 1, size);
    let r = (len + size - 1) % size;
    assert(n * size == len + size - 1 - r) by (nonlinear_arith)
        requires len + size - 1 == size * n + r;
    assert((n - 1) * size == n * size - size) by (nonlinear_arith);
}

proof fn lemma_commit_chunk_prefix(w: Seq<u32>, ranges: Seq<(usize, usize)>, size: nat, k: int)
    requires
        is_chunking(ranges, w.len(), size),
        0 <= k <= ranges.len(),
    ensures
        commit_chunks(w, ranges.subrange(0, k)) == Ok::<Seq<Option<u32>>, DispatchFailure>(
            filled_below(w, if k == 0 { 0 } else { ranges[k - 1].1 as int }),
        ),
    decreases k,
{
    let len = w.len() as int;
    let sz = size as int;
    if k == 0 {
        assert(ranges.subrange(0, 0).len() == 0);
        assert(filled_below(w, 0) =~= Seq::new(w.len(), |i: int| None::<u32>));
    } else {
        let prefix = ranges.subrange(0, k);
        assert(prefix.drop_last() =~= ranges.subrange(0, k - 1));
        lemma_commit_chunk_prefix(w, ranges, size, k - 1);
        lemma_chunk_count(len, sz, ranges.len() as int);
        let start = ranges[k - 1].0 as int;
        let end = ranges[k - 1].1 as int;
        assert(start == (k - 1) * sz);
        assert((k - 1) * sz <= (ranges.len() - 1) * sz) by (nonlinear_arith)
            requires k - 1 <= ranges.len() - 1, sz > 0;
        assert(start < len);
        assert(k * sz == (k - 1) * sz + sz) by (nonlinear_arith);
        let before = if k - 1 == 0 { 0 } else { ranges[k - 2].1 as int };
        if k - 1 > 0 {
            assert(ranges[k - 2].1 == if (k - 1) * sz < len { (k - 1) * sz } else { len });
        } else {
            assert(0 * sz == 0);
        }
        assert(before == start);
        let s = filled_below(w, before);
        let inputs = w.subrange(start, end);
        assert(!(exists|j: int| 0 <= j < inputs.len() && (#[trigger] s[start + j]) is Some));
        assert(prefix.last() == ranges[k - 1]);
        let after = Seq::new(s.len(), |i: int| if start <= i < start + inputs.len() { Some(kernel(w[i])) } else { s[i] });
        assert(after =~= filled_below(w, end));
    }
}

/// Committing the chunks of a chunking of the workload, in order, into a
/// fresh dispatch succeeds at every step and leaves every slot holding the
/// kernel of its unit: the chunks neither overlap nor leave a gap.
pub proof fn lemma_chunked_dispatch_completes(w: Seq<u32>, ranges: Seq<(usize, usize)>, size: nat)
    requires
        is_chunking(ranges, w.len(), size),
    ensures
        commit_chunks(w, ranges) matches Ok(s) && all_written(s) && s.len() == w.len()
            && forall|i: int| 0 <= i < w.len() ==> s[i] == Some(kernel(#[trigger] w[i])),
{
    let n = ranges.len() as int;
    lemma_commit_chunk_prefix(w, ranges, size, n);
    assert(ranges.subrange(0, n) =~= ranges);
    lemma_chunk_count(w.len() as int, size as int, n);
    if n > 0 {
        assert(ranges[n - 1].1 == w.len());
    }
}

/// The slots after committing, in order and from empty slots, the result of
/// the unit at each of `indices`, computed from the workload's unit there.
pub open spec fn commit_units(w: Seq<u32>, indices: Seq<usize>) -> Result<Seq<Option<u32>>, DispatchFailure>
    decreases indices.len(),
{
    if indices.len() == 0 {
        Ok(Seq::new(w.len(), |i: int| None::<u32>))
    } else {
        match commit_units(w, indices.drop_last()) {
            Ok(s) => unit_commit(w, s, indices.last() as int, w[indices.last() as int]),
            Err(e) => Err(e),
        }
    }
}

/// Slots holding the kernel of the units at `indices`, and nothing elsewhere.
pub open spec fn filled_at(w: Seq<u32>, indices: Seq<usize>) -> Seq<Option<u32>> {
    Seq::new(w.len(), |i: int| if indices.contains(i as usize) { Some(kernel(w[i])) } else { None::<u32> })
}

/// Committing units at a list of in-range indices succeeds exactly when no
/// index repeats, and then the slots hold the kernel of the units listed and
/// nothing else. With every index listed once, every slot is written once.
pub proof fn lemma_unit_dispatch(w: Seq<u32>, indices: Seq<usize>)
    requires
        w.len() <= usize::MAX,
        forall|k: int| 0 <= k < indices.len() ==> (#[trigger] indices[k]) < w.len(),
    ensures
        commit_units(w, indices) == if indices.no_duplicates() {
            Ok::<Seq<Option<u32>>, DispatchFailure>(filled_at(w, indices))
        } else {
            Err(DispatchFailure::AlreadyWritten)
        },
    decreases indices.len(),
{
    if indices.len() == 0 {
        assert(filled_at(w, indices) =~= Seq::new(w.len(), |i: int| None::<u32>));
    } else {
        let prev = indices.drop_last();
        let x = indices.last();
        lemma_unit_dispatch(w, prev);
        assert(indices =~= prev.push(x));
        if prev.no_duplicates() {
            let s = filled_at(w, prev);
            if prev.contains(x) {
                let j = choose|j: int| 0 <= j < prev.len() && prev[j] == x;
                assert(indices[j] == indices[indices.len() - 1]);
                assert(!indices.no_duplicates());
                assert(s[x as int] is Some);
            } else {
                assert(indices.no_duplicates()) by {
                    assert forall|a: int, b: int| 0 <= a < indices.len() && 0 <= b < indices.len() && a != b
                        implies indices[a] != indices[b] by {
                        if a == indices.len() - 1 {
                            assert(prev[b] == indices[b]);
                        } else if b == indices.len() - 1 {
                            assert(prev[a] == indices[a]);
                        } else {
                            assert(prev[a] == indices[a] && prev[b] == indices[b]);
                        }
                    }
                }
                assert forall|i: int| 0 <= i < w.len() implies #[trigger] s.update(x as int, Some(kernel(w[x as int])))[i]
                    == filled_at(w, indices)[i] by {
                    if i == x as int {
                        assert(indices[indices.len() - 1] == x);
                    } else if prev.contains(i as usize) {
                        let j = choose|j: int| 0 <= j < prev.len() && prev[j] == i as usize;
                        assert(indices[j] == i as usize);
                    } else if indices.contains(i as usize) {
                        let j = choose|j: int| 0 <= j < indices.len() && indices[j] == i as usize;
                        if j < prev.len() {
                            assert(prev[j] == i as usize);
                        }
                    }
                }
                assert(s.update(x as int, Some(kernel(w[x as int]))) =~= filled_at(w, indices));
            }
        } else {
            assert(!indices.no_duplicates()) by {
                let (a, b) = choose|a: int, b: int| 0 <= a < prev.len() && 0 <= b < prev.len() && a != b && prev[a] == prev[b];
                assert(indices[a] == indices[b]);
            }
        }
    }
}

/// One dispatch of the kernel over a workload: the workload and its
/// zero-initialised result slots, with a record of which slots were written.
pub struct Dispatch {
    workload: Vec<u32>,
    values: Vec<u32>,
    written: Vec<bool>,
}

impl Dispatch {
    #[verifier::type_invariant]
    spec fn consistent(self) -> bool {
        &&& self.values@.len() == self.workload@.len()
        &&& self.written@.len() == self.workload@.len()
        &&& forall|i: int|
            0 <= i < self.workload@.len() && #[trigger] self.written@[i] ==> self.values@[i]
                == kernel(self.workload@[i])
    }

    /// The workload being dispatched.
    pub closed spec fn workload(self) -> Seq<u32> {
        self.workload@
    }

    /// The slots: `Some(v)` where `v` was committed, `None` where nothing was.
    pub closed spec fn slots(self) -> Seq<Option<u32>> {
        Seq::new(
            self.workload@.len(),
            |i: int|
                if self.written@[i] {
                    Some(self.values@[i])
                } else {
                    None
                },
        )
    }

    /// A dispatch over `workload` with every slot empty.
    pub fn new(workload: Vec<u32>) -> (d: Dispatch)
        ensures
            d.workload() == workload@,
            d.slots() == Seq::new(workload@.len(), |i: int| None::<u32>),
    {
        let n = workload.len();
        let mut values: Vec<u32> = Vec::with_capacity(n);
        let mut written: Vec<bool> = Vec::with_capacity(n);
        let mut i: usize = 0;
        while i < n
            invariant
                n == workload@.len(),
                i <= n,
                values@.len() == i,
                written@.len() == i,
                forall|k: int| 0 <= k < i ==> !(#[trigger] written@[k]),
            decreases n - i,
        {
            values.push(0);
            written.push(false);
            i = i + 1;
        }
        let d = Dispatch { workload, values, written };
        assert(d.slots() =~= Seq::new(n as nat, |i: int| None::<u32>));
        d
    }

    pub fn len(&self) -> (r: usize)
        ensures
            r == self.workload().len(),
    {
        proof {
            use_type_invariant(self);
        }
        self.workload.len()
    }

    /// The workload's unit at `index`.
    pub fn input(&self, index: usize) -> (r: Option<u32>)
        ensures
            r == if index < self.workload().len() {
                Some(self.workload()[index as int])
            } else {
                None::<u32>
            },
    {
        if index < self.workload.len() {
            Some(self.workload[index])
        } else {
            None
        }
    }

    /// Commits one unit's result into its slot. A result for a slot outside
    /// the workload, for another input than the workload holds there, or for
    /// a slot already written is refused and changes nothing.
    pub fn commit(&mut self, unit: UnitResult) -> (r: Result<(), DispatchFailure>)
        ensures
            final(self).workload() == old(self).workload(),
            match unit_commit(old(self).workload(), old(self).slots(), unit.spec_index() as int, unit.spec_input()) {
                Ok(s) => r is Ok && final(self).slots() == s,
                Err(e) => r == Err::<(), DispatchFailure>(e) && final(self).slots() == old(self).slots(),
            },
    {
        proof {
            use_type_invariant(&*self);
        }
        let index = unit.index();
        if index >= self.workload.len() {
            return Err(DispatchFailure::IndexOutOfRange);
        }
        if self.workload[index] != unit.input() {
            return Err(DispatchFailure::InputMismatch);
        }
        if self.written[index] {
            return Err(DispatchFailure::AlreadyWritten);
        }
        let ghost old_slots = self.slots();
        let out = unit.output();
        let mut taken = Dispatch { workload: Vec::new(), values: Vec::new(), written: Vec::new() };
        std::mem::swap(self, &mut taken);
        let Dispatch { workload, mut values, mut written } = taken;
        values.set(index, out);
        written.set(index, true);
        *self = Dispatch { workload, values, written };
        assert(self.slots() =~= old_slots.update(index as int, Some(kernel(unit.spec_input()))));
        Ok(())
    }

    /// Commits a chunk's results into the slots it covers. A chunk that runs
    /// past the workload, whose inputs differ from the workload there, or
    /// that reaches a slot already written is refused and changes nothing.
    pub fn commit_chunk(&mut self, chunk: &ChunkResult) -> (r: Result<(), DispatchFailure>)
        ensures
            final(self).workload() == old(self).workload(),
            match chunk_commit(old(self).workload(), old(self).slots(), chunk.spec_start() as int, chunk.spec_inputs()) {
                Ok(s) => r is Ok && final(self).slots() == s,
                Err(e) => r == Err::<(), DispatchFailure>(e) && final(self).slots() == old(self).slots(),
            },
    {
        proof {
            use_type_invariant(&*self);
            use_type_invariant(chunk);
        }
        let start = chunk.start();
        let len = chunk.len();
        let n = self.workload.len();
        if start > n || len > n - start {
            return Err(DispatchFailure::IndexOutOfRange);
        }
        let inputs = &chunk.inputs;
        let ghost w = self.workload@;
        let mut k: usize = 0;
        while k < len
            invariant
                inputs@ == chunk.spec_inputs(),
                start == chunk.spec_start(),
                len == inputs@.len(),
                start + len <= n,
                n == w.len(),
                w == self.workload@,
                k <= len,
                forall|j: int| 0 <= j < k ==> w[start + j] == inputs@[j],
            decreases len - k,
        {
            if self.workload[start + k] != inputs[k] {
                assert(w.subrange(start as int, start + len)[k as int] != inputs@[k as int]);
                return Err(DispatchFailure::InputMismatch);
            }
            k = k + 1;
        }
        assert(w.subrange(start as int, start + len) =~= inputs@);
        let mut k: usize = 0;
        while k < len
            invariant
                inputs@ == chunk.spec_inputs(),
                start == chunk.spec_start(),
                len == inputs@.len(),
                start + len <= n,
                n == self.written@.len(),
                w == self.workload@,
                w.subrange(start as int, start + len) == inputs@,
                self.slots().len() == n,
                k <= len,
                forall|i: int| start <= i < start + k ==> !self.written@[i],
            decreases len - k,
        {
            if self.written[start + k] {
                assert(self.slots()[start as int + k as int] is Some);
                return Err(DispatchFailure::AlreadyWritten);
            }
            k = k + 1;
        }
        let ghost old_slots = self.slots();
        assert(forall|i: int| start <= i < start + len ==> (#[trigger] old_slots[i]) is None);
        let outputs = chunk.outputs();
        let mut taken = Dispatch { workload: Vec::new(), values: Vec::new(), written: Vec::new() };
        std::mem::swap(self, &mut taken);
        let Dispatch { workload, mut values, mut written } = taken;
        let mut k: usize = 0;
        while k < len
            invariant
                inputs@ == chunk.spec_inputs(),
                start == chunk.spec_start(),
                len == inputs@.len(),
                outputs@.len() == len,
                forall|j: int| 0 <= j < len ==> outputs@[j] == kernel(#[trigger] inputs@[j]),
                start + len <= n,
                n == workload@.len(),
                w == workload@,
                values@.len() == n,
                written@.len() == n,
                w.subrange(start as int, start + len) == inputs@,
                k <= len,
                old_slots.len() == n,
                forall|i: int| start <= i < start + len ==> (#[trigger] old_slots[i]) is None,
                forall|i: int| 0 <= i < n && #[trigger] written@[i] ==> values@[i] == kernel(w[i]),
                forall|i: int| 0 <= i < n ==> (#[trigger] written@[i]) == (old_slots[i] is Some || (start <= i < start + k)),
                forall|i: int| 0 <= i < n && old_slots[i] is Some ==> old_slots[i] == Some(#[trigger] values@[i]),
            decreases len - k,
        {
            assert(w[start + k as int] == inputs@[k as int]) by {
                assert(w.subrange(start as int, start + len)[k as int] == w[start + k as int]);
            }
            values.set(start + k, outputs[k]);
            written.set(start + k, true);
            k = k + 1;
        }
        *self = Dispatch { workload, values, written };
        assert(self.slots() =~= Seq::new(
            old_slots.len(),
            |i: int| if start <= i < start + len { Some(kernel(w[i])) } else { old_slots[i] },
        ));
        Ok(())
    }

    /// Hands back the result array once every slot is written: the kernel of
    /// each unit, at that unit's index. With a slot still empty the dispatch
    /// failed and nothing is handed back.
    pub fn finish(self) -> (r: Result<Vec<u32>, DispatchFailure>)
        ensures
            match r {
                Ok(v) => {
                    &&& all_written(self.slots())
                    &&& v@.len() == self.workload().len()
                    &&& forall|i: int| 0 <= i < v@.len() ==> v@[i] == kernel(#[trigger] self.workload()[i])
                },
                Err(e) => !all_written(self.slots()) && e == DispatchFailure::Incomplete,
            },
    {
        proof {
            use_type_invariant(&self);
        }
        let n = self.written.len();
        let mut i: usize = 0;
        while i < n
            invariant
                n == self.written@.len(),
                n == self.workload@.len(),
                i <= n,
                forall|k: int| 0 <= k < i ==> #[trigger] self.written@[k],
            decreases n - i,
        {
            if !self.written[i] {
                assert(self.slots()[i as int] is None);
                return Err(DispatchFailure::Incomplete);
            }
            i = i + 1;
        }
        assert(all_written(self.slots()));
        assert forall|i: int| 0 <= i < n implies self.values@[i] == kernel(#[trigger] self.workload@[i]) by {
            assert(self.written@[i]);
        }
        let Dispatch { workload, values, written } = self;
        Ok(values)
    }
}

} // verus!
