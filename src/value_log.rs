use vstd::prelude::*;

verus! {

/// The log after offering `v`: unchanged if `v` is already present,
/// otherwise `v` is appended at the end.
pub open spec fn appended(log: Seq<usize>, v: usize) -> Seq<usize> {
    if log.contains(v) {
        log
    } else {
        log.push(v)
    }
}

/// The log after offering each of `vals` in order.
pub open spec fn merged(log: Seq<usize>, vals: Seq<usize>) -> Seq<usize>
    decreases vals.len(),
{
    if vals.len() == 0 {
        log
    } else {
        appended(merged(log, vals.drop_last()), vals.last())
    }
}

/// An append-only sequence of broadcast values in which no value appears twice.
pub struct ValueLog {
    values: Vec<usize>,
}

impl ValueLog {
    pub closed spec fn view(&self) -> Seq<usize> {
        self.values@
    }

    pub open spec fn wf(&self) -> bool {
        self@.no_duplicates()
    }

    /// An empty log.
    pub fn new() -> (r: ValueLog)
        ensures
            r.wf(),
            r@ == Seq::<usize>::empty(),
    {
        ValueLog { values: Vec::new() }
    }

    pub fn len(&self) -> (r: usize)
        ensures
            r == self@.len(),
    {
        self.values.len()
    }

    /// The position of `v` in the log, if it is there.
    pub fn position(&self, v: usize) -> (r: Option<usize>)
        ensures
            r is None <==> !self@.contains(v),
            r matches Some(i) ==> i < self@.len() && self@[i as int] == v,
    {
        let mut i: usize = 0;
        while i < self.values.len()
            invariant
                0 <= i <= self.values@.len(),
                forall|j: int| 0 <= j < i ==> self.values@[j] != v,
            decreases self.values@.len() - i,
        {
            if self.values[i] == v {
                return Some(i);
            }
            i = i + 1;
        }
        None
    }

    pub fn contains(&self, v: usize) -> (r: bool)
        ensures
            r == self@.contains(v),
    {
        self.position(v).is_some()
    }

    /// Appends `v` unless it is already present; returns its position either way.
    pub fn append(&mut self, v: usize) -> (r: usize)
        requires
            old(self).wf(),
        ensures
            final(self).wf(),
            final(self)@ == appended(old(self)@, v),
            r < final(self)@.len(),
            final(self)@[r as int] == v,
            old(self)@.contains(v) ==> r < old(self)@.len(),
            !old(self)@.contains(v) ==> r == old(self)@.len(),
    {
        match self.position(v) {
            Some(i) => i,
            None => {
                let n = self.values.len();
                self.values.push(v);
                n
            },
        }
    }

    /// Offers each of `vals` in order to the log.
    pub fn merge(&mut self, vals: &Vec<usize>)
        requires
            old(self).wf(),
        ensures
            final(self).wf(),
            final(self)@ == merged(old(self)@, vals@),
            final(self)@.len() >= old(self)@.len(),
    {
        let ghost start = self@;
        let mut i: usize = 0;
        while i < vals.len()
            invariant
                0 <= i <= vals@.len(),
                self.wf(),
                self@ == merged(start, vals@.take(i as int)),
                self@.len() >= start.len(),
            decreases vals@.len() - i,
        {
            proof {
                assert(vals@.take(i + 1).drop_last() =~= vals@.take(i as int));
            }
            self.append(vals[i]);
            i = i + 1;
        }
        proof {
            assert(vals@.take(i as int) =~= vals@);
        }
    }

    /// A copy of the whole log, in order.
    pub fn snapshot(&self) -> (r: Vec<usize>)
        ensures
            r@ == self@,
    {
        self.values.clone()
    }

    /// A copy of the log from position `start` to its end.
    pub fn suffix(&self, start: usize) -> (r: Vec<usize>)
        requires
            start <= self@.len(),
        ensures
            r@ == self@.subrange(start as int, self@.len() as int),
    {
        let mut r: Vec<usize> = Vec::new();
        let mut i: usize = start;
        while i < self.values.len()
            invariant
                start <= i <= self.values@.len(),
                r@ == self.values@.subrange(start as int, i as int),
            decreases self.values@.len() - i,
        {
            r.push(self.values[i]);
            i = i + 1;
        }
        r
    }
}

} // verus!
