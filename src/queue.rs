//! The matchmaking queue: connections waiting for an opponent, first come
//! first matched, each at most once.

use vstd::prelude::*;

verus! {

/// `s` with the entry `x` taken out, if it holds one.
pub open spec fn without(s: Seq<u64>, x: u64) -> Seq<u64> {
    if s.contains(x) {
        s.remove(s.index_of(x))
    } else {
        s
    }
}

/// The waiting line after `id` asks to play, and the connection it is paired with.
///
/// An empty line takes `id`; a line headed by `id` itself stays as it is;
/// otherwise the head is paired with `id` and both leave the line.
pub open spec fn try_match_spec(q: Seq<u64>, id: u64) -> (Seq<u64>, Option<u64>) {
    if q.len() == 0 {
        (seq![id], None)
    } else if q[0] == id {
        (q, None)
    } else {
        (without(q.subrange(1, q.len() as int), id), Some(q[0]))
    }
}

/// The waiting line after `id` is added to it, unless it already waits.
pub open spec fn enqueue_spec(q: Seq<u64>, id: u64) -> Seq<u64> {
    if q.contains(id) {
        q
    } else {
        q.push(id)
    }
}

/// Taking an entry out keeps the entries distinct and drops exactly that one.
pub proof fn lemma_without(s: Seq<u64>, x: u64)
    requires
        s.no_duplicates(),
    ensures
        without(s, x).no_duplicates(),
        forall|y: u64| #[trigger] without(s, x).contains(y) <==> (s.contains(y) && y != x),
        without(s, x).len() == if s.contains(x) { s.len() - 1 } else { s.len() as int },
{
    if s.contains(x) {
        let k = s.index_of(x);
        let r = s.remove(k);
        assert forall|y: u64| #[trigger] r.contains(y) <==> (s.contains(y) && y != x) by {
            if r.contains(y) {
                let j = choose|j: int| 0 <= j < r.len() && r[j] == y;
                let oj = if j < k { j } else { j + 1 };
                assert(s[oj] == y);
                assert(oj != k);
            }
            if s.contains(y) && y != x {
                let j = choose|j: int| 0 <= j < s.len() && s[j] == y;
                assert(j != k);
                let rj = if j < k { j } else { j - 1 };
                assert(r[rj] == y);
            }
        }
        assert forall|a: int, b: int| 0 <= a < r.len() && 0 <= b < r.len() && a != b implies r[a]
            != r[b] by {
            let oa = if a < k { a } else { a + 1 };
            let ob = if b < k { b } else { b + 1 };
            assert(r[a] == s[oa] && r[b] == s[ob]);
        }
    }
}

/// Dropping the head keeps the entries distinct and drops exactly the head.
pub proof fn lemma_tail(s: Seq<u64>)
    requires
        s.no_duplicates(),
        s.len() > 0,
    ensures
        s.subrange(1, s.len() as int).no_duplicates(),
        forall|y: u64| #[trigger] s.subrange(1, s.len() as int).contains(y) <==> (s.contains(y) && y != s[0]),
{
    let t = s.subrange(1, s.len() as int);
    assert forall|y: u64| #[trigger] t.contains(y) <==> (s.contains(y) && y != s[0]) by {
        if t.contains(y) {
            let j = choose|j: int| 0 <= j < t.len() && t[j] == y;
            assert(s[j + 1] == y);
        }
        if s.contains(y) && y != s[0] {
            let j = choose|j: int| 0 <= j < s.len() && s[j] == y;
            assert(t[j - 1] == y);
        }
    }
}

/// Connections waiting for an opponent, earliest first.
pub struct MatchQueue {
    waiting: Vec<u64>,
}

impl View for MatchQueue {
    type V = Seq<u64>;

    closed spec fn view(&self) -> Seq<u64> {
        self.waiting@
    }
}

impl MatchQueue {
    /// No connection waits twice.
    pub open spec fn wf(&self) -> bool {
        self@.no_duplicates()
    }

    pub fn new() -> (r: MatchQueue)
        ensures
            r@ == Seq::<u64>::empty(),
            r.wf(),
    {
        MatchQueue { waiting: Vec::new() }
    }

    pub fn len(&self) -> (r: usize)
        ensures
            r == self@.len(),
    {
        self.waiting.len()
    }

    pub fn is_empty(&self) -> (r: bool)
        ensures
            r == (self@.len() == 0),
    {
        self.waiting.len() == 0
    }

    /// The connection at place `i` of the line, the earliest at 0.
    pub fn get(&self, i: usize) -> (r: u64)
        requires
            i < self@.len(),
        ensures
            r == self@[i as int],
    {
        self.waiting[i]
    }

    /// The position of `id` in the line, if it waits.
    fn position(&self, id: u64) -> (r: Option<usize>)
        ensures
            match r {
                Some(i) => i < self@.len() && self@[i as int] == id,
                None => !self@.contains(id),
            },
    {
        let mut i: usize = 0;
        while i < self.waiting.len()
            invariant
                i <= self.waiting@.len(),
                forall|k: int| 0 <= k < i ==> self.waiting@[k] != id,
            decreases self.waiting@.len() - i,
        {
            if self.waiting[i] == id {
                return Some(i);
            }
            i = i + 1;
        }
        None
    }

    pub fn contains(&self, id: u64) -> (r: bool)
        ensures
            r == self@.contains(id),
    {
        self.position(id).is_some()
    }

    /// Adds `id` at the end of the line, unless it already waits.
    pub fn enqueue(&mut self, id: u64)
        requires
            old(self).wf(),
        ensures
            final(self)@ == enqueue_spec(old(self)@, id),
            final(self).wf(),
    {
        if !self.contains(id) {
            self.waiting.push(id);
            proof {
                let s = self@;
                assert forall|a: int, b: int| 0 <= a < s.len() && 0 <= b < s.len() && a != b implies s[a]
                    != s[b] by {
                    if a == s.len() - 1 {
                        assert(old(self)@[b] != id);
                    } else if b == s.len() - 1 {
                        assert(old(self)@[a] != id);
                    }
                }
            }
        }
    }

    /// Takes `id` out of the line, if it waits.
    pub fn remove(&mut self, id: u64)
        requires
            old(self).wf(),
        ensures
            final(self)@ == without(old(self)@, id),
            final(self).wf(),
    {
        proof {
            lemma_without(self@, id);
        }
        match self.position(id) {
            Some(i) => {
                proof {
                    let k = self@.index_of(id);
                    assert(self@[k] == id);
                    assert(k == i);
                }
                self.waiting.remove(i);
            },
            None => {},
        }
    }

    /// Handles a request of `id` to play: either pairs it with the connection
    /// that waits longest, or leaves it waiting.
    pub fn try_match(&mut self, id: u64) -> (r: Option<u64>)
        requires
            old(self).wf(),
        ensures
            (final(self)@, r) == try_match_spec(old(self)@, id),
            final(self).wf(),
    {
        if self.waiting.len() == 0 {
            self.waiting.push(id);
            proof {
                assert(self@ =~= seq![id]);
            }
            return None;
        }
        let other = self.waiting[0];
        if other == id {
            return None;
        }
        self.waiting.remove(0);
        proof {
            lemma_tail(old(self)@);
            assert(self@ =~= old(self)@.subrange(1, old(self)@.len() as int));
        }
        self.remove(id);
        Some(other)
    }
}

} // verus!
