use vstd::prelude::*;

verus! {

/// `n` copies of `value`.
pub open spec fn filled<T>(n: nat, value: T) -> Seq<T> {
    Seq::new(n, |r: int| value)
}

/// The recency-ordered contents `s` after one push of `item`: `item` comes
/// first and the oldest value falls off the end.
pub open spec fn pushed<T>(s: Seq<T>, item: T) -> Seq<T> {
    seq![item] + s.take(s.len() - 1)
}

/// The contents `s` after pushing each of `items`, first to last.
pub open spec fn pushed_all<T>(s: Seq<T>, items: Seq<T>) -> Seq<T>
    decreases items.len(),
{
    if items.len() == 0 {
        s
    } else {
        pushed(pushed_all(s, items.drop_last()), items.last())
    }
}

/// However many values are pushed, a buffer keeps its length, and rank `r`
/// holds the value pushed `r` pushes ago, or, once the pushes run out, the
/// value that stood that many ranks further back before them.
pub proof fn lemma_pushes_keep_capacity<T>(s: Seq<T>, items: Seq<T>)
    requires
        s.len() >= 1,
    ensures
        pushed_all(s, items).len() == s.len(),
        forall|r: int|
            0 <= r < s.len() ==> #[trigger] pushed_all(s, items)[r] == if r < items.len() {
                items[items.len() - 1 - r]
            } else {
                s[r - items.len()]
            },
    decreases items.len(),
{
    if items.len() > 0 {
        let prev = items.drop_last();
        lemma_pushes_keep_capacity(s, prev);
        let t = pushed_all(s, prev);
        assert forall|r: int| 0 <= r < s.len() implies #[trigger] pushed_all(s, items)[r] == if r
            < items.len() {
            items[items.len() - 1 - r]
        } else {
            s[r - items.len()]
        } by {
            if r > 0 {
                assert(pushed_all(s, items)[r] == t[r - 1]);
            }
        }
    }
}

/// A ring buffer of fixed capacity `N` that always holds `N` values.
///
/// `push` makes its argument the most recent value and drops the oldest one;
/// `get(r)` returns the value pushed `r` pushes ago (rank 0 is the newest).
pub struct CircularBuffer<T, const N: usize> {
    buffer: Vec<T>,
    start: usize,
}

impl<T: Copy, const N: usize> CircularBuffer<T, N> {
    /// The slots are kept in a vector of exactly `N` entries, and the head is
    /// an index into it.
    pub closed spec fn wf(&self) -> bool {
        &&& N >= 1
        &&& self.buffer@.len() == N
        &&& self.start < N
    }

    /// The slot that holds the value of rank `r`, counting on from the head
    /// and wrapping once past the end.
    spec fn slot(start: int, r: int) -> int {
        if start + r < N { start + r } else { start + r - N }
    }

    /// The values in recency order: index 0 is the most recently pushed one.
    pub closed spec fn view(&self) -> Seq<T> {
        Seq::new(N as nat, |r: int| self.buffer@[Self::slot(self.start as int, r)])
    }

    /// A buffer whose every slot holds `default`.
    pub fn new(default: T) -> (b: Self)
        requires
            N >= 1,
        ensures
            b.wf(),
            b@ == filled(N as nat, default),
    {
        let mut buffer: Vec<T> = Vec::with_capacity(N);
        while buffer.len() < N
            invariant
                buffer@.len() <= N,
                forall|k: int| 0 <= k < buffer@.len() ==> buffer@[k] == default,
            decreases N - buffer@.len(),
        {
            buffer.push(default);
        }
        let b = CircularBuffer { buffer, start: 0 };
        assert(b@ =~= filled(N as nat, default));
        b
    }

    /// Makes `item` the most recent value; the oldest one is dropped.
    pub fn push(&mut self, item: T)
        requires
            old(self).wf(),
        ensures
            final(self).wf(),
            final(self)@ == pushed(old(self)@, item),
    {
        self.start = if self.start == 0 { N - 1 } else { self.start - 1 };
        self.buffer.set(self.start, item);
        let ghost expected = pushed(old(self)@, item);
        assert forall|r: int| 0 <= r < N implies #[trigger] self@[r] == expected[r] by {
            if r > 0 {
                assert(Self::slot(self.start as int, r) == Self::slot(old(self).start as int, r - 1));
            }
        }
        assert(self@ =~= expected);
    }

    /// A well-formed buffer holds exactly `N` values.
    pub proof fn lemma_view_len(&self)
        requires
            self.wf(),
        ensures
            self@.len() == N,
    {
    }

    /// The value pushed `index` pushes ago (or the initial value).
    pub fn get(&self, index: usize) -> (r: &T)
        requires
            self.wf(),
            index < N,
        ensures
            *r == self@[index as int],
    {
        let slot = if index < N - self.start {
            self.start + index
        } else {
            index - (N - self.start)
        };
        &self.buffer[slot]
    }
}

} // verus!
