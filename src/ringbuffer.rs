//! The indexed ring buffer: variable-length byte records kept contiguous in a
//! fixed arena of `N` bytes, with a bounded index of record start offsets.

use crate::record_index::{
    index_get, index_items, index_len, index_new, index_pop_front, index_push_back, RecordIndex,
    INDEX_CAPACITY,
};
use vstd::prelude::*;

verus! {

/// Why `try_add` refused a record.
#[derive(Debug, PartialEq, Eq, Structural)]
pub enum Error {
    /// Not enough free bytes in the arena, or the record index is full.
    NoSpace,
}

/// The abstract state of a ring buffer: its arena, the start offset of each
/// live record (oldest first), the write pointer and the bytes skipped at the
/// arena's end by the last wrap of the write pointer.
pub struct RingView {
    pub cap: int,
    pub arena: Seq<u8>,
    pub starts: Seq<int>,
    pub wp: int,
    pub skipped: int,
}

impl RingView {
    pub open spec fn len(self) -> int {
        self.starts.len() as int
    }

    /// Start of the oldest record; 0 when there is none.
    pub open spec fn first(self) -> int {
        if self.starts.len() == 0 {
            0
        } else {
            self.starts[0]
        }
    }

    /// Record `i` lies beyond the write pointer: the write pointer has wrapped
    /// to the arena's start since it was written.
    pub open spec fn wrapped_past(self, i: int) -> bool {
        self.starts[i] > self.wp
    }

    /// Bytes available without eviction, one byte being held back so that a
    /// full arena differs from an empty one.
    pub open spec fn free(self) -> int {
        if self.wp >= self.first() {
            if self.cap - self.wp >= self.first() {
                self.cap - self.wp - 1
            } else {
                self.first() - 1
            }
        } else {
            self.first() - self.wp - 1
        }
    }

    /// End (exclusive) of record `i`: the next record's start when both lie on
    /// the same side of the write pointer, else the end of the used tail of
    /// the arena for a wrapped-past record, else the write pointer.
    pub open spec fn end_of(self, i: int) -> int {
        if i + 1 < self.len() && self.wrapped_past(i + 1) == self.wrapped_past(i) {
            self.starts[i + 1]
        } else if self.wrapped_past(i) {
            self.cap - self.skipped
        } else {
            self.wp
        }
    }

    /// The bytes of record `i`.
    pub open spec fn record(self, i: int) -> Seq<u8> {
        self.arena.subrange(self.starts[i], self.end_of(i))
    }

    /// All live records, oldest first.
    pub open spec fn records(self) -> Seq<Seq<u8>> {
        Seq::new(self.starts.len(), |i: int| self.record(i))
    }

    /// The records from logical position `offset` on, oldest first.
    pub open spec fn oldest_from(self, offset: int) -> Seq<Seq<u8>> {
        if offset < self.len() {
            self.records().subrange(offset, self.len())
        } else {
            Seq::empty()
        }
    }

    /// The records newest first, the `offset` newest ones left out.
    pub open spec fn newest_from(self, offset: int) -> Seq<Seq<u8>> {
        Seq::new(
            if offset < self.len() {
                (self.len() - offset) as nat
            } else {
                0
            },
            |k: int| self.records()[self.len() - 1 - offset - k],
        )
    }

    /// The layout invariant: the write pointer lies inside the arena, the
    /// records wrapped past it come first, each side is in ascending order,
    /// and the wrapped-past records end before the skipped tail bytes.
    pub open spec fn wf(self) -> bool {
        &&& self.cap >= 1
        &&& self.arena.len() == self.cap
        &&& 0 <= self.wp < self.cap
        &&& self.starts.len() <= INDEX_CAPACITY
        &&& 0 <= self.skipped <= self.cap
        &&& self.starts.len() == 0 ==> self.wp == 0
        &&& forall|i: int| 0 <= i < self.starts.len() ==> 0 <= #[trigger] self.starts[i]
        &&& forall|i: int|
            0 <= i < self.starts.len() && #[trigger] self.wrapped_past(i) ==> self.starts[i]
                <= self.cap - self.skipped
        &&& forall|i: int, j: int|
            0 <= i < j < self.starts.len() && #[trigger] self.wrapped_past(j) ==> #[trigger] self.wrapped_past(i)
        &&& forall|i: int, j: int|
            0 <= i < j < self.starts.len() && self.wrapped_past(i) == self.wrapped_past(j)
                ==> #[trigger] self.starts[i] <= #[trigger] self.starts[j]
    }

    /// Placing `size` bytes at the write pointer would run past the arena's
    /// end, so the write pointer goes back to 0.
    pub open spec fn wraps(self, size: int) -> bool {
        self.wp >= self.first() && self.cap - self.wp - 1 < size
    }

    /// The state after making room for `size` contiguous bytes.
    pub open spec fn after_wrap(self, size: int) -> RingView {
        if self.wraps(size) {
            RingView { wp: 0, skipped: self.cap - self.wp, ..self }
        } else {
            self
        }
    }

    /// `try_add` takes a record of `size` bytes.
    pub open spec fn accepts(self, size: int) -> bool {
        size <= self.free() && self.starts.len() < INDEX_CAPACITY
    }

    /// The state after a record holding `bytes` was added.
    pub open spec fn after_add(self, bytes: Seq<u8>) -> RingView {
        let w = self.after_wrap(bytes.len() as int);
        RingView {
            arena: w.arena.subrange(0, w.wp) + bytes + w.arena.subrange(
                w.wp + bytes.len(),
                w.cap,
            ),
            starts: w.starts.push(w.wp),
            wp: w.wp + bytes.len(),
            ..w
        }
    }

    /// The state after the oldest record was evicted.
    pub open spec fn after_pop(self) -> RingView {
        if self.starts.len() == 0 {
            self
        } else {
            let rest = self.starts.drop_first();
            RingView {
                starts: rest,
                skipped: if rest.len() > 0 && rest[0] < self.starts[0] {
                    0
                } else {
                    self.skipped
                },
                wp: if rest.len() == 0 {
                    0
                } else {
                    self.wp
                },
                ..self
            }
        }
    }

    /// The state after `add`: oldest records are evicted until the new one
    /// fits, or until none is left.
    pub open spec fn after_add_evicting(self, bytes: Seq<u8>) -> RingView
        decreases self.starts.len(),
    {
        if self.accepts(bytes.len() as int) {
            self.after_add(bytes)
        } else if self.starts.len() == 0 {
            self
        } else {
            self.after_pop().after_add_evicting(bytes)
        }
    }
}


/// Each live record lies inside the arena, its start not after its end.
pub proof fn lemma_record_span(v: RingView, i: int)
    requires
        v.wf(),
        0 <= i < v.len(),
    ensures
        0 <= v.starts[i] <= v.end_of(i) <= v.cap,
{
    if i + 1 < v.len() && v.wrapped_past(i + 1) == v.wrapped_past(i) {
        assert(v.starts[i] <= v.starts[i + 1]);
    }
}

/// Between nothing and all but the held-back byte is free.
pub proof fn lemma_free_bounds(v: RingView)
    requires
        v.wf(),
    ensures
        0 <= v.free() <= v.cap - 1,
{
    if v.len() > 0 {
        assert(v.starts[0] >= 0);
        if v.wrapped_past(0) {
            assert(v.starts[0] <= v.cap - v.skipped);
        }
    }
}

/// Evicting the oldest record keeps the others as they were.
proof fn lemma_pop_keeps_records(v: RingView)
    requires
        v.wf(),
        v.len() > 0,
    ensures
        v.after_pop().wf(),
        v.after_pop().records() == v.records().drop_first(),
{
    let p = v.after_pop();
    if p.len() > 0 && p.starts[0] < v.starts[0] {
        // The first wrapped-past record went; none is left.
        assert(!v.wrapped_past(1)) by {
            if v.wrapped_past(1) {
                assert(v.wrapped_past(0));
                assert(v.starts[0] <= v.starts[1]);
            }
        }
        assert forall|j: int| 0 <= j < p.len() implies !p.wrapped_past(j) by {
            if p.wrapped_past(j) && j > 0 {
                assert(v.wrapped_past(j + 1));
                assert(v.wrapped_past(1));
            }
        }
    }
    assert forall|i: int, j: int|
        0 <= i < j < p.starts.len() && #[trigger] p.wrapped_past(j) implies #[trigger] p.wrapped_past(i) by {
        assert(v.wrapped_past(j + 1) ==> v.wrapped_past(i + 1));
    }
    assert forall|i: int, j: int|
        0 <= i < j < p.starts.len() && p.wrapped_past(i) == p.wrapped_past(j) implies #[trigger] p.starts[i]
        <= #[trigger] p.starts[j] by {
        assert(v.starts[i + 1] <= v.starts[j + 1]);
    }
    assert forall|i: int| 0 <= i < p.len() implies #[trigger] p.records()[i] == v.records().drop_first()[i] by {
        assert(p.starts[i] == v.starts[i + 1]);
        assert(p.end_of(i) == v.end_of(i + 1));
    }
    assert(p.records() =~= v.records().drop_first());
    assert forall|i: int| 0 <= i < p.starts.len() implies 0 <= #[trigger] p.starts[i] by {
        assert(v.starts[i + 1] >= 0);
    }
    assert forall|i: int|
        0 <= i < p.starts.len() && #[trigger] p.wrapped_past(i) implies p.starts[i] <= p.cap
            - p.skipped by {
        assert(v.wrapped_past(i + 1));
    }
}

/// Wrapping the write pointer to the arena's start keeps every record, as
/// long as the oldest record does not itself start there.
proof fn lemma_wrap_keeps_records(v: RingView, size: int)
    requires
        v.wf(),
        v.wraps(size) ==> v.len() == 0 || v.first() > 0,
    ensures
        v.after_wrap(size).wf(),
        v.after_wrap(size).records() == v.records(),
{
    let w = v.after_wrap(size);
    if v.wraps(size) && v.len() > 0 {
        assert forall|i: int| 0 <= i < v.len() implies !v.wrapped_past(i) by {
            if v.wrapped_past(i) && i > 0 {
                assert(v.wrapped_past(0));
            }
        }
        assert forall|i: int| 0 <= i < v.len() implies #[trigger] w.wrapped_past(i) by {
            if i > 0 {
                assert(v.starts[0] <= v.starts[i]);
            }
        }
        assert forall|i: int| 0 <= i < w.len() implies #[trigger] w.records()[i] == v.records()[i] by {
            assert(w.wrapped_past(i));
            if i + 1 < w.len() {
                assert(w.wrapped_past(i + 1));
            }
            assert(w.end_of(i) == v.end_of(i));
        }
        assert(w.records() =~= v.records());
    } else if v.wraps(size) {
        assert(w.records() =~= v.records());
    }
}

/// Adding a record that `accepts` admits keeps the layout invariant and
/// every earlier record, and appends the new one.
proof fn lemma_add_keeps_records(v: RingView, bytes: Seq<u8>)
    requires
        v.wf(),
        v.accepts(bytes.len() as int),
    ensures
        v.wraps(bytes.len() as int) ==> v.len() == 0 || v.first() > 0,
        v.after_wrap(bytes.len() as int).wp + bytes.len() < v.cap,
        v.after_add(bytes).wf(),
        v.after_add(bytes).records() == v.records().push(bytes),
{
    let len = bytes.len() as int;
    let w = v.after_wrap(len);
    let a = v.after_add(bytes);
    let s = w.wp;
    if v.len() > 0 && v.wrapped_past(0) {
        assert(v.first() > v.wp);
    }
    if v.wraps(len) && v.len() > 0 {
        assert(v.first() >= len + 1);
    }
    lemma_wrap_keeps_records(v, len);
    assert(s + len < v.cap);
    // Records beyond the write pointer start after the new bytes; the others
    // end at or before the new record's start.
    assert forall|i: int| 0 <= i < w.len() && #[trigger] w.wrapped_past(i) implies w.starts[i] > s
        + len by {
        if i > 0 {
            assert(w.wrapped_past(0));
            assert(w.starts[0] <= w.starts[i]);
        }
        if !v.wraps(len) {
            if !v.wrapped_past(0) {
                assert(v.first() <= v.wp);
            }
        }
    }
    assert forall|i: int| 0 <= i < w.len() && !w.wrapped_past(i) implies w.end_of(i) <= s by {
        if i + 1 < w.len() && !w.wrapped_past(i + 1) {
            assert(w.starts[i + 1] <= w.wp);
        } else if i + 1 < w.len() {
            assert(w.wrapped_past(i));
        }
    }
    assert forall|i: int| 0 <= i < w.len() implies #[trigger] a.wrapped_past(i) == w.wrapped_past(i) by {
        assert(a.starts[i] == w.starts[i]);
    }
    assert(!a.wrapped_past(w.len()));
    assert forall|i: int, j: int|
        0 <= i < j < a.starts.len() && #[trigger] a.wrapped_past(j) implies #[trigger] a.wrapped_past(i) by {
        assert(w.wrapped_past(j) ==> w.wrapped_past(i));
    }
    assert forall|i: int, j: int|
        0 <= i < j < a.starts.len() && a.wrapped_past(i) == a.wrapped_past(j) implies #[trigger] a.starts[i]
        <= #[trigger] a.starts[j] by {
        if j == w.len() {
            lemma_record_span(w, i);
            assert(w.end_of(i) <= s);
        } else {
            assert(w.starts[i] <= w.starts[j]);
        }
    }
    assert forall|i: int| 0 <= i < a.starts.len() implies 0 <= #[trigger] a.starts[i] by {
        if i < w.len() {
            assert(w.starts[i] >= 0);
        }
    }
    assert forall|i: int|
        0 <= i < a.starts.len() && #[trigger] a.wrapped_past(i) implies a.starts[i] <= a.cap
            - a.skipped by {
        assert(w.wrapped_past(i));
    }
    assert(a.wf());
    assert forall|i: int| 0 <= i < a.len() implies #[trigger] a.records()[i] == v.records().push(
        bytes,
    )[i] by {
        if i < w.len() {
            lemma_record_span(w, i);
            assert(a.end_of(i) == w.end_of(i));
            if w.wrapped_past(i) {
                assert(w.starts[i] > s + len);
            } else {
                assert(w.end_of(i) <= s);
            }
            assert(a.record(i) =~= w.record(i));
            assert(w.records()[i] == v.records()[i]);
        } else {
            assert(a.end_of(i) == s + len);
            assert(a.record(i) =~= bytes);
        }
    }
    assert(a.records() =~= v.records().push(bytes));
}

/// Sum of the lengths of `rs`.
pub open spec fn total_len(rs: Seq<Seq<u8>>) -> int
    decreases rs.len(),
{
    if rs.len() == 0 {
        0
    } else {
        total_len(rs.drop_last()) + rs.last().len()
    }
}

/// A bound on the bytes held by the `k` oldest records.
spec fn prefix_bound(v: RingView, k: int) -> int {
    if k == 0 {
        0
    } else if v.wrapped_past(0) && !v.wrapped_past(k - 1) {
        v.cap - v.skipped - v.first() + v.end_of(k - 1)
    } else {
        v.end_of(k - 1) - v.first()
    }
}

proof fn lemma_prefix_len(v: RingView, k: int)
    requires
        v.wf(),
        0 <= k <= v.len(),
    ensures
        total_len(v.records().take(k)) <= prefix_bound(v, k),
    decreases k,
{
    if k > 0 {
        lemma_prefix_len(v, k - 1);
        assert(v.records().take(k).drop_last() =~= v.records().take(k - 1));
        lemma_record_span(v, k - 1);
        if k >= 2 {
            lemma_record_span(v, k - 2);
            if v.wrapped_past(k - 1) {
                assert(v.wrapped_past(k - 2));
            }
            if v.wrapped_past(0) && !v.wrapped_past(k - 2) {
                assert(!v.wrapped_past(k - 1));
            }
        }
        if v.wrapped_past(0) {
            assert(v.starts[0] <= v.cap - v.skipped);
        }
    }
}

/// The free bytes and the bytes of the live records never add up to more
/// than the arena less the held-back byte.
pub proof fn lemma_free_and_live_bytes(v: RingView)
    requires
        v.wf(),
    ensures
        v.free() + total_len(v.records()) <= v.cap - 1,
{
    lemma_prefix_len(v, v.len());
    assert(v.records().take(v.len()) =~= v.records());
    if v.len() > 0 {
        lemma_record_span(v, v.len() - 1);
        assert(v.starts[0] >= 0);
        if v.wrapped_past(0) {
            assert(v.first() > v.wp);
        }
    }
}

/// `add` keeps the layout invariant, and the records it leaves are the newest
/// of the old records followed by the new one, or none at all when the new
/// one is longer than the arena can ever hold.
pub proof fn lemma_add_keeps_newest(v: RingView, bytes: Seq<u8>)
    requires
        v.wf(),
    ensures
        v.after_add_evicting(bytes).wf(),
        bytes.len() < v.cap ==> exists|k: int|
            0 <= k <= v.len() && v.after_add_evicting(bytes).records() == v.records().subrange(
                k,
                v.len(),
            ).push(bytes),
        bytes.len() >= v.cap ==> v.after_add_evicting(bytes).records().len() == 0,
    decreases v.len(),
{
    let r = v.after_add_evicting(bytes);
    if v.accepts(bytes.len() as int) {
        lemma_add_keeps_records(v, bytes);
        lemma_free_bounds(v);
        assert(v.records().subrange(0, v.len()) =~= v.records());
    } else if v.len() == 0 {
        assert(v.records().len() == 0);
    } else {
        let p = v.after_pop();
        lemma_pop_keeps_records(v);
        lemma_add_keeps_newest(p, bytes);
        if bytes.len() < v.cap {
            let k = choose|k: int|
                0 <= k <= p.len() && p.after_add_evicting(bytes).records() == p.records().subrange(
                    k,
                    p.len(),
                ).push(bytes);
            assert(p.records().subrange(k, p.len()) =~= v.records().subrange(k + 1, v.len()));
        }
    }
}

/// Once a record that fits in the arena has been added, it is the first
/// record of a newest-first walk.
pub proof fn lemma_newest_first(v: RingView, bytes: Seq<u8>)
    requires
        v.wf(),
        bytes.len() < v.cap,
    ensures
        v.after_add_evicting(bytes).newest_from(0).len() > 0,
        v.after_add_evicting(bytes).newest_from(0)[0] == bytes,
{
    lemma_add_keeps_newest(v, bytes);
    let r = v.after_add_evicting(bytes);
    let k = choose|k: int|
        0 <= k <= v.len() && r.records() == v.records().subrange(k, v.len()).push(bytes);
    assert(r.records().len() == r.len());
}

/// A ring buffer of `N` bytes that holds up to sixteen variable-length
/// records, each in one contiguous span of the arena.
#[derive(Debug)]
pub struct Ringbuffer<const N: usize> {
    buffer: [u8; N],
    line_pointers: RecordIndex,
    wp: usize,
    skipped: usize,
}

impl<const N: usize> View for Ringbuffer<N> {
    type V = RingView;

    closed spec fn view(&self) -> RingView {
        RingView {
            cap: N as int,
            arena: self.buffer@,
            starts: index_items(self.line_pointers).map_values(|s: usize| s as int),
            wp: self.wp as int,
            skipped: self.skipped as int,
        }
    }
}

impl<const N: usize> Ringbuffer<N> {
    /// The layout invariant holds of an arena of `N` bytes.
    pub open spec fn wf(&self) -> bool {
        self@.wf() && self@.cap == N
    }

    /// An empty buffer with a zeroed arena.
    pub fn new() -> (r: Self)
        requires
            N >= 1,
        ensures
            r.wf(),
            r@.arena == Seq::new(N as nat, |i: int| 0u8),
            r@.starts.len() == 0,
            r@.wp == 0,
            r@.skipped == 0,
    {
        let r = Ringbuffer { buffer: [0u8; N], line_pointers: index_new(), wp: 0, skipped: 0 };
        assert(r@.arena =~= Seq::new(N as nat, |i: int| 0u8));
        r
    }

    fn first_start(&self) -> (r: usize)
        requires
            self.wf(),
        ensures
            r == self@.first(),
    {
        match index_get(&self.line_pointers, 0) {
            Some(i) => i,
            None => 0,
        }
    }

    /// Number of bytes that a new record can take without eviction.
    pub fn free(&self) -> (r: usize)
        requires
            self.wf(),
        ensures
            r == self@.free(),
    {
        let first_index = self.first_start();
        let free = if self.wp >= first_index {
            if N - self.wp >= first_index {
                N - self.wp
            } else {
                first_index
            }
        } else {
            first_index - self.wp
        };
        free - 1
    }

    /// The bytes of the record at `index`, 0 being the oldest; `None` when
    /// there is no such record.
    pub fn element(&self, index: usize) -> (r: Option<&[u8]>)
        requires
            self.wf(),
        ensures
            match r {
                Some(s) => index < self@.len() && s@ == self@.records()[index as int],
                None => index >= self@.len(),
            },
    {
        let n = index_len(&self.line_pointers);
        if index >= n {
            return None;
        }
        let start = match index_get(&self.line_pointers, index) {
            Some(s) => s,
            None => 0,
        };
        let tail = start > self.wp;
        let end = if index + 1 < n {
            let next = match index_get(&self.line_pointers, index + 1) {
                Some(s) => s,
                None => 0,
            };
            if (next > self.wp) == tail {
                next
            } else if tail {
                N - self.skipped
            } else {
                self.wp
            }
        } else if tail {
            N - self.skipped
        } else {
            self.wp
        };
        proof {
            lemma_record_span(self@, index as int);
        }
        Some(vstd::slice::slice_subrange(self.buffer.as_slice(), start, end))
    }

    /// Moves the write pointer to the arena's start when `size` bytes would
    /// not fit between it and the arena's end, remembering the bytes skipped
    /// there, so that no record is split. The records stay as they were.
    pub fn wrap_wp(&mut self, size: usize)
        requires
            old(self).wf(),
            old(self)@.wraps(size as int) ==> old(self)@.len() == 0 || old(self)@.first() > 0,
        ensures
            final(self).wf(),
            final(self)@ == old(self)@.after_wrap(size as int),
            final(self)@.records() == old(self)@.records(),
    {
        let first_index = self.first_start();
        if self.wp >= first_index && N - self.wp - 1 < size {
            self.skipped = N - self.wp;
            self.wp = 0;
        }
        proof {
            lemma_wrap_keeps_records(old(self)@, size as int);
        }
    }

    /// Adds `bytes` as the newest record when it fits without eviction;
    /// otherwise fails with `NoSpace` and changes nothing.
    pub fn try_add(&mut self, bytes: &[u8]) -> (r: Result<(), Error>)
        requires
            old(self).wf(),
        ensures
            final(self).wf(),
            r is Ok <==> old(self)@.accepts(bytes@.len() as int),
            r is Ok ==> final(self)@ == old(self)@.after_add(bytes@),
            r is Ok ==> final(self)@.records() == old(self)@.records().push(bytes@),
            r is Err ==> r == Err::<(), Error>(Error::NoSpace) && final(self)@ == old(self)@,
    {
        if bytes.len() > self.free() {
            return Err(Error::NoSpace);
        }
        if index_len(&self.line_pointers) >= INDEX_CAPACITY {
            return Err(Error::NoSpace);
        }
        proof {
            lemma_add_keeps_records(old(self)@, bytes@);
        }
        self.wrap_wp(bytes.len());
        let ghost w = self@;
        let pushed = index_push_back(&mut self.line_pointers, self.wp);
        let mut k: usize = 0;
        while k < bytes.len()
            invariant
                0 <= k <= bytes@.len(),
                w.wp + bytes@.len() < N,
                self.wp == w.wp + k,
                self.skipped == w.skipped,
                index_items(self.line_pointers).map_values(|s: usize| s as int) == w.starts.push(
                    w.wp,
                ),
                self.buffer@ == w.arena.subrange(0, w.wp) + bytes@.subrange(0, k as int)
                    + w.arena.subrange(w.wp + k, N as int),
                w.arena.len() == N,
            decreases bytes@.len() - k,
        {
            let ghost before = self.buffer@;
            self.buffer[self.wp] = bytes[k];
            proof {
                vstd::arithmetic::div_mod::lemma_small_mod((self.wp + 1) as nat, N as nat);
                assert(self.buffer@ =~= w.arena.subrange(0, w.wp) + bytes@.subrange(0, k + 1)
                    + w.arena.subrange(w.wp + k + 1, N as int));
            }
            self.wp = (self.wp + 1) % N;
            k = k + 1;
        }
        proof {
            assert(bytes@.subrange(0, k as int) =~= bytes@);
            assert(self@.starts =~= w.starts.push(w.wp));
            assert(self@ == old(self)@.after_add(bytes@));
        }
        Ok(())
    }

    /// Adds `bytes` as the newest record, evicting the oldest records until
    /// it fits. A record longer than `N - 1` bytes never fits: then every
    /// record is evicted and the buffer is left empty.
    pub fn add(&mut self, bytes: &[u8])
        requires
            old(self).wf(),
        ensures
            final(self).wf(),
            final(self)@ == old(self)@.after_add_evicting(bytes@),
    {
        loop
            invariant_except_break
                self.wf(),
                self@.after_add_evicting(bytes@) == old(self)@.after_add_evicting(bytes@),
            ensures
                self.wf(),
                self@ == old(self)@.after_add_evicting(bytes@),
            decreases self@.len(),
        {
            match self.try_add(bytes) {
                Ok(()) => break,
                Err(_) => {
                    if !self.pop() {
                        break;
                    }
                },
            }
        }
    }

    /// The records from logical position `offset` on, oldest first.
    pub fn iter(&self, offset: usize) -> (it: Iter<'_, N>)
        requires
            self.wf(),
        ensures
            it.wf(),
            it.items() == self@.oldest_from(offset as int),
    {
        let n = index_len(&self.line_pointers);
        let lo = if offset < n {
            offset
        } else {
            n
        };
        let it = Iter { buffer: self, lo, hi: n, forward: true };
        assert(it.items() =~= self@.oldest_from(offset as int));
        it
    }

    /// The records newest first, skipping the `offset` newest ones.
    pub fn reverse_iter(&self, offset: usize) -> (it: Iter<'_, N>)
        requires
            self.wf(),
        ensures
            it.wf(),
            it.items() == self@.newest_from(offset as int),
    {
        let n = index_len(&self.line_pointers);
        let hi = if offset < n {
            n - offset
        } else {
            0
        };
        let it = Iter { buffer: self, lo: 0, hi, forward: false };
        assert(it.items() =~= self@.newest_from(offset as int));
        it
    }

    /// Number of arena bytes not available to a new record.
    pub fn used(&self) -> (r: usize)
        requires
            self.wf(),
        ensures
            r == N - self@.free(),
    {
        proof {
            lemma_free_bounds(self@);
        }
        N - self.free()
    }

    /// Evicts the oldest record; returns whether there was one.
    pub fn pop(&mut self) -> (r: bool)
        requires
            old(self).wf(),
        ensures
            final(self).wf(),
            final(self)@ == old(self)@.after_pop(),
            r == (old(self)@.len() > 0),
            r ==> final(self)@.records() == old(self)@.records().drop_first(),
    {
        let popped = match index_pop_front(&mut self.line_pointers) {
            Some(i) => {
                let j = match index_get(&self.line_pointers, 0) {
                    Some(el) => el,
                    None => i,
                };
                // Past the last wrapped-past record: the skipped tail is free again.
                if j < i {
                    self.skipped = 0;
                }
                true
            },
            None => false,
        };
        if index_len(&self.line_pointers) == 0 {
            self.wp = 0;
        }
        proof {
            assert(self@.starts =~= old(self)@.after_pop().starts);
            if popped {
                lemma_pop_keeps_records(old(self)@);
            }
        }
        popped
    }
}

/// A newest-first walk depends on nothing but the buffer's state and the
/// offset, and reading leaves the buffer as it was: two walks that
/// `reverse_iter` starts from the same offset on an unchanged buffer yield the
/// same records; from offset 0, all live records in reverse order of addition.
pub proof fn lemma_reverse_walk_repeatable<const N: usize>(
    b: &Ringbuffer<N>,
    offset: usize,
    first: Iter<'_, N>,
    second: Iter<'_, N>,
)
    requires
        b.wf(),
        first.items() == b@.newest_from(offset as int),
        second.items() == b@.newest_from(offset as int),
    ensures
        first.items() == second.items(),
        offset == 0 ==> first.items() == b@.records().reverse(),
{
    if offset == 0 {
        assert(b@.newest_from(0) =~= b@.records().reverse());
    }
}

/// A walk over a window of a ring buffer's records, oldest first or newest
/// first. The buffer stays borrowed, so it cannot change during the walk.
pub struct Iter<'a, const N: usize> {
    buffer: &'a Ringbuffer<N>,
    lo: usize,
    hi: usize,
    forward: bool,
}

impl<'a, const N: usize> Iter<'a, N> {
    pub closed spec fn wf(&self) -> bool {
        self.buffer.wf() && self.lo <= self.hi <= self.buffer@.len()
    }

    /// The records that are still to come, in the order they come.
    pub closed spec fn items(&self) -> Seq<Seq<u8>> {
        let r = self.buffer@.records();
        if self.forward {
            Seq::new((self.hi - self.lo) as nat, |k: int| r[self.lo + k])
        } else {
            Seq::new((self.hi - self.lo) as nat, |k: int| r[self.hi - 1 - k])
        }
    }

    /// No record still to come is longer than the arena.
    pub proof fn lemma_items_fit(&self)
        requires
            self.wf(),
        ensures
            forall|k: int| 0 <= k < self.items().len() ==> #[trigger] self.items()[k].len() <= N,
    {
        assert forall|k: int| 0 <= k < self.items().len() implies #[trigger] self.items()[k].len()
            <= N by {
            let i = if self.forward {
                self.lo + k
            } else {
                self.hi - 1 - k
            };
            lemma_record_span(self.buffer@, i);
        }
    }

    /// The next record, or `None` once the walk is over.
    pub fn next(&mut self) -> (r: Option<&'a [u8]>)
        requires
            old(self).wf(),
        ensures
            final(self).wf(),
            old(self).items().len() == 0 ==> r is None && final(self).items() == old(self).items(),
            old(self).items().len() > 0 ==> r is Some && r->0@ == old(self).items()[0]
                && final(self).items() == old(self).items().drop_first(),
    {
        if self.lo >= self.hi {
            return None;
        }
        let i = if self.forward {
            self.lo
        } else {
            self.hi - 1
        };
        let r = self.buffer.element(i);
        if self.forward {
            self.lo = self.lo + 1;
        } else {
            self.hi = self.hi - 1;
        }
        assert(self.items() =~= old(self).items().drop_first());
        r
    }
}

} // verus!
