//! Detection of a repeating tail in a growing sequence of values.
//!
//! After each push the detector reports whether the values now end in an
//! echo: a suffix that reads the same twice in a row.  The reported index is
//! the start of the latest (hence shortest) such echo's second half.

use vstd::prelude::*;

verus! {

/// True when the values before `index` end with exactly the values from
/// `index` on, so the tail of the sequence appears twice in a row.
pub open spec fn reflects_at(s: Seq<usize>, index: int) -> bool {
    let head = s.take(index);
    let tail = s.skip(index);
    head.len() >= tail.len() && head.skip(head.len() - tail.len()) == tail
}

/// The largest index in `s.len() / 2 ..= i` at which `s` reflects, searched
/// downward from `i`.
pub open spec fn latest_reflection(s: Seq<usize>, i: int) -> Option<int>
    decreases i + 1 - s.len() as int / 2,
{
    if i < s.len() as int / 2 {
        None
    } else if reflects_at(s, i) {
        Some(i)
    } else {
        latest_reflection(s, i - 1)
    }
}

pub struct CycleDetector {
    pub stack: Vec<usize>,
}

impl CycleDetector {
    pub fn new() -> (r: Self)
        ensures
            r.stack@.len() == 0,
    {
        Self { stack: Vec::new() }
    }

    /// Appends `value` and answers whether the sequence now ends in an echo,
    /// reporting the start of the echo's second half.
    pub fn push(&mut self, value: usize) -> (r: Option<usize>)
        ensures
            final(self).stack@ == old(self).stack@.push(value),
            r is Some <==> latest_reflection(final(self).stack@, final(self).stack@.len() - 2)
                is Some,
            r is Some ==> r->0 == latest_reflection(
                final(self).stack@,
                final(self).stack@.len() - 2,
            )->0,
    {
        self.stack.push(value);
        self.has_cycle()
    }

    /// The start of the latest echo's second half, if the sequence ends in
    /// one.  Only proper suffixes count, so the search stops above the
    /// halfway point and below the last element.
    pub fn has_cycle(&self) -> (r: Option<usize>)
        requires
            self.stack@.len() >= 1,
        ensures
            r is Some <==> latest_reflection(self.stack@, self.stack@.len() - 2) is Some,
            r is Some ==> r->0 == latest_reflection(self.stack@, self.stack@.len() - 2)->0,
    {
        let len: usize = self.stack.len();
        let lo: usize = len / 2;
        let mut i: usize = len - 1;
        while i > lo
            invariant
                lo == self.stack@.len() as int / 2,
                lo <= i <= self.stack@.len() - 1,
                latest_reflection(self.stack@, self.stack@.len() - 2) == latest_reflection(
                    self.stack@,
                    i - 1,
                ),
            decreases i,
        {
            let at: usize = i - 1;
            if self.has_reflection_at_index(at) {
                return Some(at);
            }
            i = i - 1;
        }
        None
    }

    /// True when the values before `index` end with the values from `index`
    /// on.
    pub fn has_reflection_at_index(&self, index: usize) -> (r: bool)
        requires
            index <= self.stack@.len(),
        ensures
            r == reflects_at(self.stack@, index as int),
    {
        let len: usize = self.stack.len();
        let tail_len: usize = len - index;
        if index < tail_len {
            return false;
        }
        let offset: usize = index - tail_len;
        let mut t: usize = 0;
        while t < tail_len
            invariant
                len == self.stack@.len(),
                tail_len == self.stack@.len() - index,
                index <= self.stack@.len(),
                tail_len <= index,
                offset == index - tail_len,
                t <= tail_len,
                forall|j: int|
                    0 <= j < t ==> #[trigger] self.stack@[offset + j] == self.stack@[index + j],
            decreases tail_len - t,
        {
            if self.stack[offset + t] != self.stack[index + t] {
                proof {
                    let s = self.stack@;
                    let head = s.take(index as int);
                    let tail = s.skip(index as int);
                    assert(head.skip(head.len() - tail.len())[t as int] == s[offset + t]);
                    assert(tail[t as int] == s[index + t]);
                }
                return false;
            }
            t = t + 1;
        }
        proof {
            let s = self.stack@;
            let head = s.take(index as int);
            let tail = s.skip(index as int);
            assert forall|j: int| 0 <= j < tail.len() implies head.skip(
                head.len() - tail.len(),
            )[j] == tail[j] by {
                assert(head.skip(head.len() - tail.len())[j] == s[offset + j]);
                assert(tail[j] == s[index + j]);
                assert(s[offset + j] == s[index + j]);
            }
            assert(head.skip(head.len() - tail.len()) =~= tail);
        }
        true
    }

    pub fn len(&self) -> (r: usize)
        ensures
            r == self.stack@.len(),
    {
        self.stack.len()
    }

    /// The values between `start` and `end`, as stored.
    pub fn get_slice(&self, start: usize, end: usize) -> (r: &[usize])
        requires
            start <= end <= self.stack@.len(),
        ensures
            r@ == self.stack@.subrange(start as int, end as int),
    {
        &self.stack[start..end]
    }
}

} // verus!
