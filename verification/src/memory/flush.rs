//! When each session was last flushed to memory.
use vstd::prelude::*;
use vstd::string::*;
use crate::table::Table;

verus! {

/// The last flush of a session.
#[derive(Debug, Clone, Copy, PartialEq, Eq)]
pub struct FlushRecord {
    /// The number of messages at the time. A new flush is due only once the
    /// transcript has grown past it.
    pub message_count: u64,
    /// The time, in milliseconds since 1970.
    pub flushed_at_ms: i64,
}

/// The last flush of each session.
pub struct FlushLedger {
    /// The records by session.
    pub records: Table<FlushRecord>,
}

impl FlushLedger {
    /// Whether no session has two records.
    pub open spec fn wf(&self) -> bool {
        self.records.wf()
    }

    /// A ledger without records.
    pub fn new() -> (r: Self)
        ensures
            r.wf(),
            r.records@ == Map::<Seq<char>, FlushRecord>::empty(),
    {
        FlushLedger { records: Table::new() }
    }

    /// The last flush of a session, or none if it was never flushed.
    pub fn last_flush(&self, session_id: &str) -> (r: Option<FlushRecord>)
        requires
            self.wf(),
        ensures
            match r {
                Some(v) => self.records@.dom().contains(session_id@) && v
                    == self.records@[session_id@],
                None => !self.records@.dom().contains(session_id@),
            },
    {
        self.records.get(session_id)
    }

    /// Records a flush of a session in place of an earlier one.
    pub fn record_flush(&mut self, session_id: &str, message_count: u64, flushed_at_ms: i64)
        requires
            old(self).wf(),
        ensures
            final(self).wf(),
            final(self).records@ == old(self).records@.insert(
                session_id@,
                (FlushRecord { message_count, flushed_at_ms }),
            ),
    {
        self.records.put(session_id, FlushRecord { message_count, flushed_at_ms });
    }
}

/// A recorded flush is what is read afterwards for that session, and what is
/// read for another session stays.
pub proof fn law_flush_is_read_back(
    m: Map<Seq<char>, FlushRecord>,
    a: Seq<char>,
    b: Seq<char>,
    rec: FlushRecord,
)
    requires
        a != b,
    ensures
        m.insert(a, rec).dom().contains(a),
        m.insert(a, rec)[a] == rec,
        m.insert(a, rec).dom().contains(b) <==> m.dom().contains(b),
        m.insert(a, rec)[b] == m[b],
{
}

} // verus!
