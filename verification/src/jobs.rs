//! The table of long-running operations.
//!
//! An operation that runs in the background has a record here under an id, by which
//! it can be asked about. The table lives as long as the process.

use vstd::prelude::*;

use crate::outside;
use crate::text;

verus! {

#[derive(Debug, Clone, Copy, PartialEq, Eq, Structural)]
pub enum JobState {
    Running,
    Done,
    Failed,
}

#[derive(Debug)]
pub struct JobRecord {
    pub id: String,
    pub kind: String,
    pub state: JobState,
    /// The parameters of the operation.
    pub params: serde_json::Value,
    /// Its report, once it is done.
    pub report: Option<serde_json::Value>,
    /// What went wrong, once it has failed.
    pub error: Option<String>,
}

/// The records, in the order in which they were made.
pub struct Jobs {
    pub records: Vec<JobRecord>,
}

/// `k` is the record of `id`.
pub open spec fn record_at(records: Seq<JobRecord>, id: Seq<char>, k: int) -> bool {
    &&& 0 <= k < records.len()
    &&& records[k].id@ == id
    &&& forall|j: int| 0 <= j < k ==> (#[trigger] records[j]).id@ != id
}

/// There is a record of `id`.
pub open spec fn known(records: Seq<JobRecord>, id: Seq<char>) -> bool {
    exists|k: int| 0 <= k < records.len() && (#[trigger] records[k]).id@ == id
}

/// The record of `id`.
pub open spec fn record_of(records: Seq<JobRecord>, id: Seq<char>) -> JobRecord {
    records[choose|k: int| record_at(records, id, k)]
}

/// Nothing but the record of `id` has changed.
pub open spec fn only_changed(was: Seq<JobRecord>, now: Seq<JobRecord>, id: Seq<char>) -> bool {
    &&& now.len() == was.len()
    &&& forall|j: int|
        0 <= j < was.len() && (#[trigger] was[j]).id@ != id ==> now[j] == was[j]
    &&& forall|j: int| 0 <= j < was.len() ==> (#[trigger] now[j]).id == was[j].id
}

impl Jobs {
    /// No two records have one id.
    pub open spec fn wf(&self) -> bool {
        forall|i: int, j: int|
            0 <= i < j < self.records@.len() ==> (#[trigger] self.records@[i]).id@ != (
            #[trigger] self.records@[j]).id@
    }

    pub fn new() -> (r: Jobs)
        ensures
            r.wf(),
            r.records@.len() == 0,
    {
        Jobs { records: Vec::new() }
    }

    fn find(&self, id: &str) -> (r: Option<usize>)
        ensures
            match r {
                Some(k) => record_at(self.records@, id@, k as int),
                None => !known(self.records@, id@),
            },
    {
        let mut k: usize = 0;
        while k < self.records.len()
            invariant
                k <= self.records@.len(),
                forall|j: int| 0 <= j < k ==> (#[trigger] self.records@[j]).id@ != id@,
            decreases self.records@.len() - k,
        {
            if text::same(self.records[k].id.as_str(), id) {
                return Some(k);
            }
            k = k + 1;
        }
        None
    }

    /// Adds a running operation under `id`; an earlier record of that id is
    /// replaced.
    pub fn register(&mut self, id: &str, kind: &str, params: serde_json::Value)
        requires
            old(self).wf(),
        ensures
            final(self).wf(),
            ({
                let now = record_of(final(self).records@, id@);
                &&& known(final(self).records@, id@)
                &&& now.id@ == id@
                &&& now.kind@ == kind@
                &&& now.state == JobState::Running
                &&& now.params == params
                &&& now.report is None
                &&& now.error is None
            }),
            forall|x: Seq<char>|
                x != id@ ==> (#[trigger] known(final(self).records@, x) <==> known(
                    old(self).records@,
                    x,
                )),
            forall|x: Seq<char>|
                x != id@ && known(old(self).records@, x) ==> #[trigger] record_of(
                    final(self).records@,
                    x,
                ) == record_of(old(self).records@, x),
    {
        let record = JobRecord {
            id: id.to_owned(),
            kind: kind.to_owned(),
            state: JobState::Running,
            params,
            report: None,
            error: None,
        };
        let ghost was = self.records@;
        match self.find(id) {
            Some(k) => {
                self.records[k] = record;
                proof {
                    lemma_record(self.records@, id@, k as int);
                    lemma_others_kept(was, self.records@, id@);
                }
            },
            None => {
                self.records.push(record);
                proof {
                    lemma_record(self.records@, id@, was.len() as int);
                    lemma_others_kept(was, self.records@, id@);
                }
            },
        }
    }

    /// Adds a running operation under a fresh random id and gives that id.
    pub fn start(&mut self, kind: &str, params: serde_json::Value) -> (id: String)
        requires
            old(self).wf(),
        ensures
            final(self).wf(),
            exists|n: u128| id@ == #[trigger] outside::uuid_hyphenated(n),
            known(final(self).records@, id@),
            ({
                let now = record_of(final(self).records@, id@);
                &&& now.id@ == id@
                &&& now.kind@ == kind@
                &&& now.state == JobState::Running
                &&& now.params == params
                &&& now.report is None
                &&& now.error is None
            }),
            forall|x: Seq<char>|
                x != id@ ==> (#[trigger] known(final(self).records@, x) <==> known(
                    old(self).records@,
                    x,
                )),
            forall|x: Seq<char>|
                x != id@ && known(old(self).records@, x) ==> #[trigger] record_of(
                    final(self).records@,
                    x,
                ) == record_of(old(self).records@, x),
    {
        let n: u128 = outside::uuid_random();
        let id = outside::uuid_text(n);
        self.register(id.as_str(), kind, params);
        id
    }

    /// Marks an operation as done; of an unknown id nothing is noted.
    pub fn finish(&mut self, id: &str, report: serde_json::Value)
        requires
            old(self).wf(),
        ensures
            final(self).wf(),
            only_changed(old(self).records@, final(self).records@, id@),
            known(old(self).records@, id@) ==> record_of(final(self).records@, id@) == (
            JobRecord {
                state: JobState::Done,
                report: Some(report),
                ..record_of(old(self).records@, id@)
            }),
            !known(old(self).records@, id@) ==> final(self).records == old(self).records,
    {
        let ghost was = self.records@;
        if let Some(k) = self.find(id) {
            proof {
                lemma_record(was, id@, k as int);
            }
            self.records[k].state = JobState::Done;
            self.records[k].report = Some(report);
            proof {
                lemma_record(self.records@, id@, k as int);
            }
        }
    }

    /// Marks an operation as failed; of an unknown id nothing is noted.
    pub fn fail(&mut self, id: &str, error: String)
        requires
            old(self).wf(),
        ensures
            final(self).wf(),
            only_changed(old(self).records@, final(self).records@, id@),
            known(old(self).records@, id@) ==> record_of(final(self).records@, id@) == (
            JobRecord {
                state: JobState::Failed,
                error: Some(error),
                ..record_of(old(self).records@, id@)
            }),
            !known(old(self).records@, id@) ==> final(self).records == old(self).records,
    {
        let ghost was = self.records@;
        if let Some(k) = self.find(id) {
            proof {
                lemma_record(was, id@, k as int);
            }
            self.records[k].state = JobState::Failed;
            self.records[k].error = Some(error);
            proof {
                lemma_record(self.records@, id@, k as int);
            }
        }
    }

    pub fn get(&self, id: &str) -> (r: Option<&JobRecord>)
        ensures
            match r {
                Some(x) => known(self.records@, id@) && *x == record_of(self.records@, id@),
                None => !known(self.records@, id@),
            },
    {
        match self.find(id) {
            Some(k) => {
                proof {
                    lemma_record(self.records@, id@, k as int);
                }
                Some(&self.records[k])
            },
            None => None,
        }
    }

    /// All records.
    pub fn list(&self) -> (r: &Vec<JobRecord>)
        ensures
            *r == self.records,
    {
        &self.records
    }
}

/// The record of an id is the one that was found.
pub proof fn lemma_record(records: Seq<JobRecord>, id: Seq<char>, k: int)
    requires
        record_at(records, id, k),
    ensures
        known(records, id),
        record_of(records, id) == records[k],
{
    assert(records[k].id@ == id);
    let j = choose|j: int| record_at(records, id, j);
    assert(record_at(records, id, j));
    if j < k {
        assert(records[j].id@ != id);
    } else if k < j {
        assert(records[k].id@ != id);
    }
}

proof fn lemma_first(records: Seq<JobRecord>, x: Seq<char>, j: int)
    requires
        0 <= j < records.len(),
        records[j].id@ == x,
    ensures
        exists|k: int| record_at(records, x, k),
    decreases j,
{
    if forall|i: int| 0 <= i < j ==> (#[trigger] records[i]).id@ != x {
        assert(record_at(records, x, j));
    } else {
        let i = choose|i: int| 0 <= i < j && (#[trigger] records[i]).id@ == x;
        lemma_first(records, x, i);
    }
}

/// Putting a record of `id` in its place or at the end leaves all others.
proof fn lemma_others_kept(was: Seq<JobRecord>, now: Seq<JobRecord>, id: Seq<char>)
    requires
        was.len() <= now.len() <= was.len() + 1,
        forall|j: int|
            0 <= j < was.len() ==> (#[trigger] now[j]).id@ == was[j].id@ && (was[j].id@ != id
                ==> now[j] == was[j]),
        now.len() > was.len() ==> now.last().id@ == id,
    ensures
        forall|x: Seq<char>| x != id ==> (#[trigger] known(now, x) <==> known(was, x)),
        forall|x: Seq<char>|
            x != id && known(was, x) ==> #[trigger] record_of(now, x) == record_of(was, x),
{
    assert forall|x: Seq<char>| x != id implies (#[trigger] known(now, x) <==> known(was, x)) by {
        if known(now, x) {
            let j = choose|j: int| 0 <= j < now.len() && (#[trigger] now[j]).id@ == x;
            assert(was[j].id@ == x);
        }
        if known(was, x) {
            let j = choose|j: int| 0 <= j < was.len() && (#[trigger] was[j]).id@ == x;
            assert(now[j].id@ == x);
        }
    }
    assert forall|x: Seq<char>| x != id && known(was, x) implies #[trigger] record_of(now, x)
        == record_of(was, x) by {
        let j = choose|j: int| 0 <= j < was.len() && (#[trigger] was[j]).id@ == x;
        lemma_first(was, x, j);
        let k = choose|k: int| record_at(was, x, k);
        assert(now[k].id@ == was[k].id@);
        assert(record_at(now, x, k)) by {
            assert forall|i: int| 0 <= i < k implies (#[trigger] now[i]).id@ != x by {
                assert(was[i].id@ != x);
            }
        }
        lemma_record(was, x, k);
        lemma_record(now, x, k);
    }
}

} // verus!
