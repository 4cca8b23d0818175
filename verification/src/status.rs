//! The status tracker: a mapping from service identity to advertisement
//! status.  It is stored as a vector of pairs with pairwise-distinct keys and
//! abstracts to a `Map<Seq<char>, ServiceStatus>`.  A service without an entry
//! counts as `Stopped`.

use vstd::prelude::*;

use crate::models::ServiceStatus;

verus! {

/// Keys of the pair vector are pairwise distinct.
pub open spec fn keys_unique(s: Seq<(String, ServiceStatus)>) -> bool {
    forall|i: int, j: int| 0 <= i < j < s.len() ==> s[i].0@ != s[j].0@
}

/// The mapping that a pair vector stands for.
pub open spec fn map_of(s: Seq<(String, ServiceStatus)>) -> Map<Seq<char>, ServiceStatus>
    decreases s.len(),
{
    if s.len() == 0 {
        Map::empty()
    } else {
        map_of(s.drop_last()).insert(s.last().0@, s.last().1)
    }
}

/// The status a mapping records for an identity, `Stopped` when it records
/// none.
pub open spec fn stat_of(m: Map<Seq<char>, ServiceStatus>, id: Seq<char>) -> ServiceStatus {
    if m.dom().contains(id) {
        m[id]
    } else {
        ServiceStatus::Stopped
    }
}

/// How many entries of the pair vector record `Running`.
pub open spec fn spec_count_running(s: Seq<(String, ServiceStatus)>) -> nat
    decreases s.len(),
{
    if s.len() == 0 {
        0
    } else {
        spec_count_running(s.drop_last()) + if s.last().1 == ServiceStatus::Running {
            1nat
        } else {
            0nat
        }
    }
}

/// An identity is in the mapping exactly when some pair carries it.
pub proof fn lemma_map_of_dom(s: Seq<(String, ServiceStatus)>, k: Seq<char>)
    ensures
        map_of(s).dom().contains(k) <==> (exists|i: int| 0 <= i < s.len() && s[i].0@ == k),
    decreases s.len(),
{
    if s.len() > 0 {
        lemma_map_of_dom(s.drop_last(), k);
        if s.last().0@ == k {
            assert(s[s.len() - 1].0@ == k);
        } else {
            if exists|i: int| 0 <= i < s.len() && s[i].0@ == k {
                let i = choose|i: int| 0 <= i < s.len() && s[i].0@ == k;
                assert(s.drop_last()[i] == s[i]);
            }
            if exists|i: int| 0 <= i < s.len() - 1 && s.drop_last()[i].0@ == k {
                let i = choose|i: int| 0 <= i < s.len() - 1 && s.drop_last()[i].0@ == k;
                assert(s[i] == s.drop_last()[i]);
            }
        }
    }
}

/// With distinct keys, the mapping sends each pair's key to that pair's value.
pub proof fn lemma_map_of_get(s: Seq<(String, ServiceStatus)>, i: int)
    requires
        keys_unique(s),
        0 <= i < s.len(),
    ensures
        map_of(s).dom().contains(s[i].0@),
        map_of(s)[s[i].0@] == s[i].1,
    decreases s.len(),
{
    if i < s.len() - 1 {
        assert(keys_unique(s.drop_last()));
        assert(s.drop_last()[i] == s[i]);
        lemma_map_of_get(s.drop_last(), i);
        assert(s[i].0@ != s.last().0@);
    }
}

/// Removing a pair removes exactly its key from the mapping.
pub proof fn lemma_map_of_remove(s: Seq<(String, ServiceStatus)>, i: int)
    requires
        keys_unique(s),
        0 <= i < s.len(),
    ensures
        keys_unique(s.remove(i)),
        map_of(s.remove(i)) == map_of(s).remove(s[i].0@),
    decreases s.len(),
{
    let k = s[i].0@;
    assert forall|a: int, b: int| 0 <= a < b < s.remove(i).len() implies s.remove(i)[a].0@
        != s.remove(i)[b].0@ by {
        if a < i {
            if b < i {
                assert(s.remove(i)[a] == s[a] && s.remove(i)[b] == s[b]);
            } else {
                assert(s.remove(i)[a] == s[a] && s.remove(i)[b] == s[b + 1]);
            }
        } else {
            assert(s.remove(i)[a] == s[a + 1] && s.remove(i)[b] == s[b + 1]);
        }
    }
    if i == s.len() - 1 {
        assert(s.remove(i) =~= s.drop_last());
        lemma_map_of_dom(s.drop_last(), k);
        assert forall|a: int| 0 <= a < s.len() - 1 implies s[a].0@ != k by {
            assert(s.drop_last()[a] == s[a]);
        }
        assert(!map_of(s.drop_last()).dom().contains(k));
        assert(map_of(s.drop_last()) =~= map_of(s).remove(k));
    } else {
        assert(keys_unique(s.drop_last()));
        lemma_map_of_remove(s.drop_last(), i);
        assert(s.remove(i).drop_last() =~= s.drop_last().remove(i));
        assert(s.remove(i).last() == s.last());
        assert(map_of(s.remove(i)) == map_of(s.drop_last().remove(i)).insert(
            s.last().0@,
            s.last().1,
        ));
        assert(s.drop_last()[i] == s[i]);
        assert(map_of(s.remove(i)) =~= map_of(s).remove(k));
    }
}

/// In-memory record of each service's advertisement status.
#[derive(Debug)]
pub struct StatusTracker {
    pub entries: Vec<(String, ServiceStatus)>,
}

impl View for StatusTracker {
    type V = Map<Seq<char>, ServiceStatus>;

    open spec fn view(&self) -> Map<Seq<char>, ServiceStatus> {
        map_of(self.entries@)
    }
}

impl StatusTracker {
    /// Internal invariant: keys are pairwise distinct.
    pub open spec fn wf(self) -> bool {
        keys_unique(self.entries@)
    }

    /// An empty tracker: every service counts as `Stopped`.
    pub fn new() -> (r: StatusTracker)
        ensures
            r.wf(),
            r@ == Map::<Seq<char>, ServiceStatus>::empty(),
    {
        StatusTracker { entries: Vec::new() }
    }

    /// The recorded status of a service, `Stopped` when none is recorded.
    pub fn get(&self, id: &String) -> (r: ServiceStatus)
        requires
            self.wf(),
        ensures
            r == stat_of(self@, id@),
    {
        let n = self.entries.len();
        let mut i: usize = 0;
        while i < n
            invariant
                n == self.entries@.len(),
                i <= n,
                keys_unique(self.entries@),
                forall|j: int| 0 <= j < i ==> self.entries@[j].0@ != id@,
            decreases n - i,
        {
            if self.entries[i].0 == *id {
                proof {
                    lemma_map_of_get(self.entries@, i as int);
                }
                return self.entries[i].1;
            }
            i += 1;
        }
        proof {
            lemma_map_of_dom(self.entries@, id@);
        }
        ServiceStatus::Stopped
    }

    /// Whether the service is recorded as `Running`.
    pub fn is_running(&self, id: &String) -> (r: bool)
        requires
            self.wf(),
        ensures
            r == (stat_of(self@, id@) == ServiceStatus::Running),
    {
        let st = self.get(id);
        match st {
            ServiceStatus::Running => true,
            _ => false,
        }
    }

    /// Records a status for a service, replacing any earlier record.
    pub fn set(&mut self, id: &String, st: ServiceStatus)
        requires
            old(self).wf(),
        ensures
            final(self).wf(),
            final(self)@ == old(self)@.insert(id@, st),
    {
        let n = self.entries.len();
        let mut i: usize = 0;
        while i < n
            invariant
                n == self.entries@.len(),
                i <= n,
                self.entries@ == old(self).entries@,
                keys_unique(self.entries@),
                forall|j: int| 0 <= j < i ==> self.entries@[j].0@ != id@,
            decreases n - i,
        {
            if self.entries[i].0 == *id {
                proof {
                    lemma_map_of_remove(self.entries@, i as int);
                    lemma_map_of_dom(self.entries@.remove(i as int), id@);
                }
                let ghost before = self.entries@;
                self.entries.remove(i);
                self.entries.push((id.clone(), st));
                proof {
                    assert(self.entries@.drop_last() =~= before.remove(i as int));
                    assert(keys_unique(self.entries@));
                    assert(map_of(self.entries@) =~= map_of(before).insert(id@, st));
                }
                return ;
            }
            i += 1;
        }
        proof {
            lemma_map_of_dom(self.entries@, id@);
        }
        let ghost before = self.entries@;
        self.entries.push((id.clone(), st));
        proof {
            assert(self.entries@.drop_last() =~= before);
            assert(keys_unique(self.entries@));
        }
    }

    /// Drops any record for the service.
    pub fn remove(&mut self, id: &String)
        requires
            old(self).wf(),
        ensures
            final(self).wf(),
            final(self)@ == old(self)@.remove(id@),
    {
        let n = self.entries.len();
        let mut i: usize = 0;
        while i < n
            invariant
                n == self.entries@.len(),
                i <= n,
                self.entries@ == old(self).entries@,
                keys_unique(self.entries@),
                forall|j: int| 0 <= j < i ==> self.entries@[j].0@ != id@,
            decreases n - i,
        {
            if self.entries[i].0 == *id {
                proof {
                    lemma_map_of_remove(self.entries@, i as int);
                }
                self.entries.remove(i);
                return ;
            }
            i += 1;
        }
        proof {
            lemma_map_of_dom(self.entries@, id@);
            assert(map_of(self.entries@) =~= map_of(self.entries@).remove(id@));
        }
    }

    /// Forgets every record: every service counts as `Stopped` again.
    pub fn clear(&mut self)
        ensures
            final(self).wf(),
            final(self)@ == Map::<Seq<char>, ServiceStatus>::empty(),
    {
        self.entries.clear();
    }

    /// How many services are recorded as `Running`.
    pub fn count_running(&self) -> (r: usize)
        requires
            self.wf(),
        ensures
            r == spec_count_running(self.entries@),
    {
        let n = self.entries.len();
        let mut count: usize = 0;
        let mut i: usize = 0;
        while i < n
            invariant
                n == self.entries@.len(),
                i <= n,
                count <= i,
                count == spec_count_running(self.entries@.subrange(0, i as int)),
            decreases n - i,
        {
            let running = match self.entries[i].1 {
                ServiceStatus::Running => true,
                _ => false,
            };
            proof {
                assert(self.entries@.subrange(0, i + 1 as int).drop_last() =~= self.entries@
                    .subrange(0, i as int));
                assert(self.entries@.subrange(0, i + 1 as int).last() == self.entries@[i as int]);
            }
            if running {
                count += 1;
            }
            i += 1;
        }
        proof {
            assert(self.entries@.subrange(0, n as int) =~= self.entries@);
        }
        count
    }
}

} // verus!
