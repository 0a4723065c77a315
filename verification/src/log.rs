//! A short log of messages: the newest first, and no more than a fixed
//! number of them.

use std::collections::VecDeque;
use vstd::prelude::*;

verus! {

/// The last messages, newest first. A log for `N` messages drops the oldest
/// when one more comes in.
pub struct Log<const N: usize> {
    buffer: VecDeque<String>,
}

impl<const N: usize> View for Log<N> {
    type V = Seq<Seq<char>>;

    closed spec fn view(&self) -> Seq<Seq<char>> {
        self.buffer@.map_values(|msg: String| msg@)
    }
}

impl<const N: usize> Log<N> {
    /// An empty log.
    pub fn new() -> (r: Self)
        ensures
            r@ == Seq::<Seq<char>>::empty(),
    {
        let r = Self { buffer: VecDeque::with_capacity(N) };
        assert(r@ =~= Seq::<Seq<char>>::empty());
        r
    }

    /// Puts `msg` in front. A log that holds `N` messages loses its last one
    /// first (a log for no messages at all has none to lose, and grows).
    pub fn log(&mut self, msg: String)
        ensures
            final(self)@ == seq![msg@] + (if old(self)@.len() == N && N > 0 {
                old(self)@.drop_last()
            } else {
                old(self)@
            }),
    {
        let ghost text = msg@;
        if self.buffer.len() == N {
            self.buffer.pop_back();
        }
        self.buffer.push_front(msg);
        assert(self@ =~= seq![text] + (if old(self)@.len() == N && N > 0 {
            old(self)@.drop_last()
        } else {
            old(self)@
        }));
    }

    /// The messages, newest first.
    pub fn iter(&self) -> (r: Vec<&String>)
        ensures
            r@.len() == self@.len(),
            forall|i: int| 0 <= i < r@.len() ==> (#[trigger] r@[i])@ == self@[i],
    {
        let mut out: Vec<&String> = Vec::new();
        let mut i: usize = 0;
        while i < self.buffer.len()
            invariant
                i <= self.buffer@.len(),
                out@.len() == i,
                forall|k: int| 0 <= k < i ==> (#[trigger] out@[k])@ == self@[k],
            decreases self.buffer@.len() - i,
        {
            out.push(&self.buffer[i]);
            i += 1;
        }
        out
    }

    /// Number of messages.
    pub fn len(&self) -> (r: usize)
        ensures
            r == self@.len(),
    {
        self.buffer.len()
    }
}

} // verus!
