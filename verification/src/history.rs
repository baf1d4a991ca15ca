//! Commit history: a bounded record of commits, for undoing the last edit
//! and its learning.
use vstd::prelude::*;

verus! {

#[derive(Debug, Clone, PartialEq, Eq)]
pub struct CommitRecord {
    pub text: String,
    pub code: String,
    pub learned: bool,
}

/// `h` with `r` added last, the oldest record dropped when `cap` are
/// already kept.
pub open spec fn pushed(h: Seq<CommitRecord>, cap: nat, r: CommitRecord) -> Seq<CommitRecord> {
    if h.len() < cap { h.push(r) } else { h.push(r).drop_first() }
}

/// Undoing a commit: popping right after a push gives the record back and
/// leaves the earlier records (all of them unless the history was full);
/// the history never holds more than its capacity.
pub proof fn law_pop_undoes_push(h: Seq<CommitRecord>, cap: nat, r: CommitRecord)
    requires
        cap >= 1,
        h.len() <= cap,
    ensures
        pushed(h, cap, r).len() <= cap,
        pushed(h, cap, r).len() > 0,
        pushed(h, cap, r).last() == r,
        h.len() < cap ==> pushed(h, cap, r).drop_last() == h,
        h.len() == cap ==> pushed(h, cap, r).drop_last() == h.drop_first(),
{
    if h.len() < cap {
        assert(h.push(r).drop_last() =~= h);
    } else {
        assert(h.push(r).drop_first().drop_last() =~= h.drop_first());
    }
}

/// The most recent commits, oldest first, at most `limit` of them.
#[derive(Debug)]
pub struct CommitHistory {
    records: Vec<CommitRecord>,
    limit: usize,
}

impl View for CommitHistory {
    type V = Seq<CommitRecord>;

    closed spec fn view(&self) -> Seq<CommitRecord> {
        self.records@
    }
}

impl CommitHistory {
    #[verifier::type_invariant]
    closed spec fn inv(self) -> bool {
        &&& self.limit >= 1
        &&& self.records@.len() <= self.limit
    }

    /// How many records are kept.
    pub closed spec fn capacity(&self) -> nat {
        self.limit as nat
    }

    /// An empty history keeping `limit` records (at least one).
    pub fn new(limit: usize) -> (h: CommitHistory)
        ensures
            h@.len() == 0,
            h.capacity() == if limit == 0 { 1 } else { limit as nat },
    {
        let limit = if limit == 0 { 1 } else { limit };
        let h = CommitHistory { records: Vec::new(), limit };
        assert(h@ =~= Seq::<CommitRecord>::empty());
        h
    }

    /// Appends a record, dropping the oldest when the history is full.
    pub fn push(&mut self, record: CommitRecord)
        ensures
            final(self).capacity() == old(self).capacity(),
            final(self)@ == pushed(old(self)@, old(self).capacity(), record),
            final(self)@.len() <= final(self).capacity(),
            final(self)@.len() > 0,
            final(self)@.last() == record,
    {
        proof { use_type_invariant(&*self); }
        let mut rs: Vec<CommitRecord> = Vec::new();
        std::mem::swap(&mut rs, &mut self.records);
        let ghost before = rs@;
        rs.push(record);
        if rs.len() > self.limit {
            rs.remove(0);
            assert(rs@ =~= before.push(record).drop_first());
        }
        self.records = rs;
    }

    pub fn last(&self) -> (r: Option<&CommitRecord>)
        ensures
            r == if self@.len() == 0 { None } else { Some(&self@.last()) },
    {
        if self.records.len() == 0 {
            None
        } else {
            Some(&self.records[self.records.len() - 1])
        }
    }

    /// Takes the most recent record.
    pub fn pop(&mut self) -> (r: Option<CommitRecord>)
        ensures
            final(self).capacity() == old(self).capacity(),
            old(self)@.len() == 0 ==> r is None && final(self)@ == old(self)@,
            old(self)@.len() > 0 ==> r == Some(old(self)@.last()) && final(self)@ == old(self)@.drop_last(),
    {
        proof { use_type_invariant(&*self); }
        let mut rs: Vec<CommitRecord> = Vec::new();
        std::mem::swap(&mut rs, &mut self.records);
        let r = rs.pop();
        self.records = rs;
        r
    }

    pub fn len(&self) -> (n: usize)
        ensures
            n == self@.len(),
    {
        self.records.len()
    }

    pub fn is_empty(&self) -> (b: bool)
        ensures
            b == (self@.len() == 0),
    {
        self.records.len() == 0
    }
}

} // verus!
