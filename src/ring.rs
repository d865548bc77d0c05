use vstd::prelude::*;

verus! {

/// Number of samples held by the capture buffer.
pub const AUDIO_BUFFER_LEN: usize = 8192;

/// The last `n` items of `s`, or all of `s` when it holds no more than `n`.
pub open spec fn keep_last<T>(s: Seq<T>, n: nat) -> Seq<T> {
    if s.len() <= n {
        s
    } else {
        s.subrange(s.len() - n, s.len() as int)
    }
}

/// All of `chunks`, joined in order.
pub open spec fn joined<T>(chunks: Seq<Seq<T>>) -> Seq<T>
    decreases chunks.len(),
{
    if chunks.len() == 0 {
        Seq::empty()
    } else {
        joined(chunks.drop_last()) + chunks.last()
    }
}

/// What a buffer of capacity `cap` that holds `start` holds after
/// `push_data` of each of `chunks` in turn.
pub open spec fn after_pushes<T>(start: Seq<T>, chunks: Seq<Seq<T>>, cap: nat) -> Seq<T>
    decreases chunks.len(),
{
    if chunks.len() == 0 {
        start
    } else {
        keep_last(after_pushes(start, chunks.drop_last(), cap) + chunks.last(), cap)
    }
}

/// Trimming to the last `n` items before appending changes nothing once the
/// result is trimmed again.
pub proof fn lemma_keep_last_absorbs<T>(s: Seq<T>, d: Seq<T>, n: nat)
    ensures
        keep_last(keep_last(s, n) + d, n) == keep_last(s + d, n),
        keep_last(s, n).len() <= n,
{
    if s.len() > n {
        let t = keep_last(s, n);
        assert(keep_last(t + d, n) =~= keep_last(s + d, n));
    }
}

/// However many chunks are pushed, the buffer never holds more than its
/// capacity, and it holds the latest samples pushed, in arrival order.
pub proof fn lemma_pushes_keep_latest<T>(start: Seq<T>, chunks: Seq<Seq<T>>, cap: nat)
    requires
        start.len() <= cap,
    ensures
        after_pushes(start, chunks, cap).len() <= cap,
        after_pushes(start, chunks, cap) == keep_last(start + joined(chunks), cap),
    decreases chunks.len(),
{
    if chunks.len() == 0 {
        assert(start + joined(chunks) =~= start);
    } else {
        let init = chunks.drop_last();
        lemma_pushes_keep_latest(start, init, cap);
        lemma_keep_last_absorbs(start + joined(init), chunks.last(), cap);
        lemma_keep_last_absorbs(after_pushes(start, init, cap) + chunks.last(), Seq::empty(), cap);
        assert(start + joined(init) + chunks.last() =~= start + joined(chunks));
    }
}

/// A chunk of exactly the capacity replaces whatever the buffer held.
pub proof fn lemma_full_chunk_replaces<T>(prev: Seq<T>, data: Seq<T>, cap: nat)
    requires
        prev.len() <= cap,
        data.len() == cap,
    ensures
        keep_last(prev + data, cap) == data,
{
    assert(keep_last(prev + data, cap) =~= data);
}

/// A bounded sample store: the occupied samples sit oldest-first at the
/// front of a fixed backing array.
pub struct AudioDataBuffer<T> {
    raw: Vec<T>,
    len: usize,
}

impl<T: Copy> AudioDataBuffer<T> {
    /// The whole backing array, occupied or not.
    pub closed spec fn storage(&self) -> Seq<T> {
        self.raw@
    }

    /// How many samples are occupied.
    pub closed spec fn occupied(&self) -> nat {
        self.len as nat
    }

    /// How many samples the buffer can hold.
    pub open spec fn cap(&self) -> nat {
        self.storage().len()
    }

    /// The buffered samples, oldest first.
    pub open spec fn contents(&self) -> Seq<T> {
        self.storage().subrange(0, self.occupied() as int)
    }

    /// The buffer has room for at least one sample and its occupied part
    /// fits in the backing array.
    pub open spec fn wf(&self) -> bool {
        &&& 0 < self.cap()
        &&& self.occupied() <= self.cap()
    }

    /// An empty buffer of `capacity` slots, each set to `fill`.
    pub fn with_capacity(capacity: usize, fill: T) -> (r: Self)
        requires
            capacity > 0,
        ensures
            r.wf(),
            r.occupied() == 0,
            r.storage() == Seq::new(capacity as nat, |_i: int| fill),
    {
        let mut raw: Vec<T> = Vec::new();
        let mut i: usize = 0;
        while i < capacity
            invariant
                i <= capacity,
                raw@ == Seq::new(i as nat, |_i: int| fill),
            decreases capacity - i,
        {
            raw.push(fill);
            i += 1;
            assert(raw@ =~= Seq::new(i as nat, |_i: int| fill));
        }
        AudioDataBuffer { raw, len: 0 }
    }

    /// An empty buffer of `AUDIO_BUFFER_LEN` slots, each set to `fill`.
    pub fn new(fill: T) -> (r: Self)
        ensures
            r.wf(),
            r.occupied() == 0,
            r.storage() == Seq::new(AUDIO_BUFFER_LEN as nat, |_i: int| fill),
    {
        Self::with_capacity(AUDIO_BUFFER_LEN, fill)
    }

    /// How many samples are buffered.
    pub fn len(&self) -> (r: usize)
        ensures
            r == self.occupied(),
    {
        self.len
    }

    /// How many samples the buffer can hold.
    pub fn capacity(&self) -> (r: usize)
        ensures
            r == self.cap(),
    {
        self.raw.len()
    }

    /// Copies `count` items of `src`, starting at `from`, into the backing
    /// array at `at`.
    fn copy_in(&mut self, at: usize, src: &[T], from: usize, count: usize)
        requires
            at + count <= old(self).raw@.len(),
            from + count <= src@.len(),
        ensures
            final(self).len == old(self).len,
            final(self).raw@ == old(self).raw@.subrange(0, at as int) + src@.subrange(
                from as int,
                from + count,
            ) + old(self).raw@.subrange(at + count, old(self).raw@.len() as int),
    {
        let ghost before = self.raw@;
        let src_len = src.len();
        let raw_len = self.raw.len();
        let mut i: usize = 0;
        while i < count
            invariant
                i <= count,
                src_len == src@.len(),
                raw_len == before.len(),
                at + count <= before.len(),
                from + count <= src@.len(),
                self.len == old(self).len,
                before == old(self).raw@,
                self.raw@.len() == before.len(),
                forall|j: int| 0 <= j < i ==> #[trigger] self.raw@[at + j] == src@[from + j],
                forall|j: int|
                    0 <= j < before.len() && !(at <= j < at + i) ==> self.raw@[j] == before[j],
            decreases count - i,
        {
            let x: T = src[from + i];
            self.raw.set(at + i, x);
            i += 1;
        }
        let ghost expect = before.subrange(0, at as int) + src@.subrange(from as int, from + count)
            + before.subrange(at + count, before.len() as int);
        assert forall|j: int| 0 <= j < before.len() implies self.raw@[j] == expect[j] by {
            if at <= j < at + count {
                assert(self.raw@[at + (j - at)] == src@[from + (j - at)]);
            }
        }
        assert(self.raw@ =~= expect);
    }

    /// Moves the occupied samples from `by` on to the front of the backing
    /// array and drops the first `by`.
    fn shift_out(&mut self, by: usize)
        requires
            by <= old(self).len <= old(self).raw@.len(),
        ensures
            final(self).len == old(self).len - by,
            final(self).raw@ == old(self).raw@.subrange(by as int, old(self).len as int)
                + old(self).raw@.subrange(old(self).len - by, old(self).raw@.len() as int),
    {
        let ghost before = self.raw@;
        let keep: usize = self.len - by;
        let mut i: usize = 0;
        while i < keep
            invariant
                i <= keep,
                keep + by == old(self).len,
                old(self).len <= before.len(),
                before == old(self).raw@,
                self.raw@.len() == before.len(),
                forall|j: int| 0 <= j < i ==> self.raw@[j] == before[j + by],
                forall|j: int| i <= j < before.len() ==> self.raw@[j] == before[j],
            decreases keep - i,
        {
            let x: T = self.raw[i + by];
            self.raw.set(i, x);
            i += 1;
        }
        self.len = keep;
        let ghost expect = before.subrange(by as int, old(self).len as int) + before.subrange(
            keep as int,
            before.len() as int,
        );
        assert(self.raw@ =~= expect);
    }

    /// Appends `data` after the buffered samples, dropping the oldest ones
    /// when they would not all fit.
    pub fn push_data(&mut self, data: &[T])
        requires
            old(self).wf(),
        ensures
            final(self).wf(),
            final(self).cap() == old(self).cap(),
            final(self).occupied() == if old(self).occupied() + data@.len() <= old(self).cap() {
                old(self).occupied() + data@.len()
            } else {
                old(self).cap()
            },
            final(self).contents() == keep_last(old(self).contents() + data@, old(self).cap()),
            old(self).occupied() + data@.len() <= old(self).cap() ==> final(self).storage()
                == old(self).storage().subrange(0, old(self).occupied() as int) + data@
                + old(self).storage().subrange(
                (old(self).occupied() + data@.len()) as int,
                old(self).cap() as int,
            ),
    {
        let ghost prev = self.contents();
        let ghost all = prev + data@;
        let cap = self.raw.len();
        let k = data.len();
        if k >= cap {
            self.copy_in(0, data, k - cap, cap);
            self.len = cap;
            assert(self.contents() =~= keep_last(all, cap as nat));
            return;
        }
        if k > cap - self.len {
            self.shift_out(self.len - (cap - k));
        }
        let at = self.len;
        self.copy_in(at, data, 0, k);
        self.len = at + k;
        assert(self.contents() =~= keep_last(all, cap as nat));
    }

    /// Moves the oldest `min(dst.len(), len)` samples into the front of
    /// `dst` and returns how many were moved.
    pub fn pop_data(&mut self, dst: &mut [T]) -> (r: usize)
        requires
            old(self).wf(),
        ensures
            final(self).wf(),
            final(self).cap() == old(self).cap(),
            r == if old(dst)@.len() < old(self).occupied() {
                old(dst)@.len()
            } else {
                old(self).occupied()
            },
            final(dst)@ == old(self).contents().subrange(0, r as int) + old(dst)@.subrange(
                r as int,
                old(dst)@.len() as int,
            ),
            final(self).contents() == old(self).contents().subrange(
                r as int,
                old(self).occupied() as int,
            ),
            final(self).storage() == old(self).storage().subrange(
                r as int,
                old(self).occupied() as int,
            ) + old(self).storage().subrange(old(self).occupied() - r, old(self).cap() as int),
    {
        let ghost prev = self.contents();
        let ghost start = dst@;
        if self.len == 0 {
            assert(dst@ =~= prev.subrange(0, 0) + start.subrange(0, start.len() as int));
            assert(self.raw@ =~= self.raw@.subrange(0, 0) + self.raw@.subrange(
                0,
                self.raw@.len() as int,
            ));
            assert(self.contents() =~= prev.subrange(0, 0));
            return 0;
        }
        let n = if dst.len() < self.len {
            dst.len()
        } else {
            self.len
        };
        let mut i: usize = 0;
        while i < n
            invariant
                i <= n,
                n <= self.len <= self.raw@.len(),
                n <= dst@.len(),
                dst@.len() == start.len(),
                prev == self.raw@.subrange(0, self.len as int),
                forall|j: int| 0 <= j < i ==> dst@[j] == prev[j],
                forall|j: int| i <= j < dst@.len() ==> dst@[j] == start[j],
            decreases n - i,
        {
            let x: T = self.raw[i];
            dst[i] = x;
            i += 1;
        }
        assert(dst@ =~= prev.subrange(0, n as int) + start.subrange(n as int, start.len() as int));
        self.shift_out(n);
        assert(self.contents() =~= prev.subrange(n as int, prev.len() as int));
        n
    }

    /// A copy of the whole backing array; the buffer is left as it was.
    pub fn snapshot(&self) -> (r: Vec<T>)
        ensures
            r@ == self.storage(),
    {
        let mut out: Vec<T> = Vec::new();
        let mut i: usize = 0;
        while i < self.raw.len()
            invariant
                i <= self.raw@.len(),
                out@ == self.raw@.subrange(0, i as int),
            decreases self.raw@.len() - i,
        {
            let x: T = self.raw[i];
            out.push(x);
            i += 1;
            assert(out@ =~= self.raw@.subrange(0, i as int));
        }
        assert(out@ =~= self.raw@);
        out
    }
}

} // verus!
