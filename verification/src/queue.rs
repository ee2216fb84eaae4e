//! Queues of threads, first come, first served.

use vstd::prelude::*;

verus! {

/// Threads waiting for something, by the address of their TCB, longest waiting
/// first.
pub struct Queue {
    pub items: Vec<u64>,
}

impl View for Queue {
    type V = Seq<u64>;

    open spec fn view(&self) -> Seq<u64> {
        self.items@
    }
}

/// A queue with the first occurrence of `a` taken out.
pub open spec fn without_first(s: Seq<u64>, a: u64) -> Seq<u64>
    decreases s.len(),
{
    if s.len() == 0 {
        s
    } else if s[0] == a {
        s.drop_first()
    } else {
        seq![s[0]] + without_first(s.drop_first(), a)
    }
}

impl Queue {
    pub fn new() -> (r: Self)
        ensures
            r@ == Seq::<u64>::empty(),
    {
        Queue { items: Vec::new() }
    }

    pub fn is_empty(&self) -> (r: bool)
        ensures
            r == (self@.len() == 0),
    {
        self.items.len() == 0
    }

    pub fn len(&self) -> (r: usize)
        ensures
            r == self@.len(),
    {
        self.items.len()
    }

    /// Put a thread at the back.
    pub fn push(&mut self, a: u64)
        ensures
            final(self)@ == old(self)@.push(a),
    {
        self.items.push(a);
    }

    /// Take the thread at the front.
    pub fn pop(&mut self) -> (r: Option<u64>)
        ensures
            old(self)@.len() == 0 ==> r is None && final(self)@ == old(self)@,
            old(self)@.len() > 0 ==> r == Some(old(self)@[0]) && final(self)@
                == old(self)@.drop_first(),
    {
        if self.items.len() == 0 {
            return None;
        }
        let first: u64 = self.items.remove(0);
        assert(self@ =~= old(self)@.drop_first());
        Some(first)
    }

    /// Take a thread out wherever it sits, and say whether it was there.
    pub fn remove(&mut self, a: u64) -> (r: bool)
        ensures
            r == old(self)@.contains(a),
            final(self)@ == without_first(old(self)@, a),
    {
        let count: usize = self.items.len();
        let mut i: usize = 0;
        while i < count
            invariant
                i <= count,
                count == self@.len(),
                self@ == old(self)@,
                forall|k: int| 0 <= k < i ==> self@[k] != a,
            decreases count - i,
        {
            if self.items[i] == a {
                proof {
                    lemma_without_first(self@, a, i as int);
                    assert(self@[i as int] == a);
                }
                self.items.remove(i);
                return true;
            }
            i = i + 1;
        }
        proof {
            lemma_without_absent(self@, a);
        }
        false
    }
}

proof fn lemma_without_first(s: Seq<u64>, a: u64, i: int)
    requires
        0 <= i < s.len(),
        s[i] == a,
        forall|k: int| 0 <= k < i ==> s[k] != a,
    ensures
        without_first(s, a) == s.remove(i),
    decreases s.len(),
{
    if i == 0 {
        assert(s.remove(0) =~= s.drop_first());
    } else {
        let rest = s.drop_first();
        assert(rest[i - 1] == a);
        assert forall|k: int| 0 <= k < i - 1 implies rest[k] != a by {
            assert(s[k + 1] != a);
        }
        lemma_without_first(rest, a, i - 1);
        assert(seq![s[0]] + rest.remove(i - 1) =~= s.remove(i));
    }
}

/// Taking out what is not there changes nothing.
pub proof fn lemma_without_absent(s: Seq<u64>, a: u64)
    requires
        !s.contains(a),
    ensures
        without_first(s, a) == s,
    decreases s.len(),
{
    if s.len() > 0 {
        let rest = s.drop_first();
        assert(s[0] != a);
        assert forall|k: int| 0 <= k < rest.len() implies rest[k] != a by {
            assert(s[k + 1] != a);
        }
        lemma_without_absent(rest, a);
        assert(seq![s[0]] + rest =~= s);
    }
}

/// Threads leave a queue in the order in which they joined it: one that was
/// there before another joined leaves before it.
pub proof fn queues_are_first_come_first_served(s: Seq<u64>, joined: Seq<u64>, n: nat)
    requires
        n <= s.len(),
    ensures
        (s + joined).take(n as int) == s.take(n as int),
        (s + joined).skip(n as int) == s.skip(n as int) + joined,
{
    assert((s + joined).take(n as int) =~= s.take(n as int));
    assert((s + joined).skip(n as int) =~= s.skip(n as int) + joined);
}

} // verus!
