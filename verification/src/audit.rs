//! The audit log: a bounded, append-only ring of timestamped events.  It holds
//! at most `MAX_LOG_ENTRIES` entries; appending beyond the cap evicts the
//! oldest entry first.

use vstd::prelude::*;

use crate::models::{EntryModel, LogEntry, LogLevel};

verus! {

/// Upper bound on the number of retained log entries.
pub const MAX_LOG_ENTRIES: usize = 500;

/// What appending an entry does to the retained sequence: the entry goes to
/// the back, and when the ring is full the oldest entry leaves the front.
pub open spec fn spec_append(l: Seq<EntryModel>, e: EntryModel) -> Seq<EntryModel> {
    if l.len() >= MAX_LOG_ENTRIES {
        l.drop_first().push(e)
    } else {
        l.push(e)
    }
}

/// Bounded FIFO of audit events.
#[derive(Debug)]
pub struct AuditLog {
    pub entries: Vec<LogEntry>,
}

impl View for AuditLog {
    type V = Seq<EntryModel>;

    open spec fn view(&self) -> Seq<EntryModel> {
        self.entries@.map(|i: int, e: LogEntry| e@)
    }
}

impl AuditLog {
    /// Internal invariant: the ring never exceeds its cap.
    pub open spec fn wf(self) -> bool {
        self@.len() <= MAX_LOG_ENTRIES
    }

    /// An empty log.
    pub fn new() -> (r: AuditLog)
        ensures
            r.wf(),
            r@ == Seq::<EntryModel>::empty(),
    {
        let r = AuditLog { entries: Vec::new() };
        proof {
            assert(r@ =~= Seq::<EntryModel>::empty());
        }
        r
    }

    /// Appends an event, evicting the oldest entry when the ring is full.
    pub fn append(&mut self, timestamp: i64, level: LogLevel, message: String, service_id: Option<
        String,
    >)
        requires
            old(self).wf(),
        ensures
            final(self).wf(),
            final(self)@ == spec_append(
                old(self)@,
                EntryModel {
                    timestamp,
                    level,
                    message: message@,
                    service_id: match service_id {
                        Some(s) => Some(s@),
                        None => None::<Seq<char>>,
                    },
                },
            ),
    {
        let ghost e = EntryModel {
            timestamp,
            level,
            message: message@,
            service_id: match &service_id {
                Some(s) => Some(s@),
                None => None::<Seq<char>>,
            },
        };
        if self.entries.len() >= MAX_LOG_ENTRIES {
            let ghost before = self.entries@;
            self.entries.remove(0);
            proof {
                assert(self.entries@ =~= before.drop_first());
            }
        }
        let ghost mid = self@;
        self.entries.push(LogEntry { timestamp, level, message, service_id });
        proof {
            assert(self@ =~= mid.push(e));
        }
    }

    /// The retained entries, oldest first.
    pub fn get_all(&self) -> (r: Vec<LogEntry>)
        ensures
            r@.map(|i: int, e: LogEntry| e@) == self@,
    {
        let mut r: Vec<LogEntry> = Vec::new();
        let n = self.entries.len();
        let mut i: usize = 0;
        while i < n
            invariant
                n == self.entries@.len(),
                i <= n,
                r@.len() == i,
                forall|j: int| 0 <= j < i ==> #[trigger] r@[j]@ == self.entries@[j]@,
            decreases n - i,
        {
            r.push(self.entries[i].clone());
            i += 1;
        }
        proof {
            assert(r@.map(|i: int, e: LogEntry| e@) =~= self@);
        }
        r
    }

    /// Drops every retained entry.
    pub fn clear(&mut self)
        ensures
            final(self).wf(),
            final(self)@ == Seq::<EntryModel>::empty(),
    {
        self.entries.clear();
        proof {
            assert(self@ =~= Seq::<EntryModel>::empty());
        }
    }
}

} // verus!
