//! Storage quotas per class of repositories.
//!
//! A quota caps the bytes that the repositories matching a pattern may take up on
//! their volumes; the longest matching pattern governs. `QuotaStorage` stands in
//! front of a router: it passes every operation on, but lets a new blob in only
//! when it fits. A blob that is there already adds no bytes and is never refused.
//!
//! What a class takes up is measured on its volumes and remembered for a while; each
//! accepted write is added to the remembered number.

use vstd::prelude::*;

use crate::digest::Digest;
use crate::fanout;
use crate::fanout::{Ask, Partition};
use crate::glob;
use crate::order;
use crate::repo_router;
use crate::repo_router::{Backend, RepoRouter, RuleView};
use crate::storage;
use crate::storage::{Call, Reference, Storage, StorageError, StoredManifest, UploadStatus};
use crate::text;
use crate::trail;
use crate::trail::{Start, Trail};

verus! {

/// At most `max_bytes` of blobs for the repositories that match `pattern`.
#[derive(Debug, Clone)]
pub struct Quota {
    pub pattern: String,
    pub max_bytes: u64,
}

pub struct QuotaView {
    pub pattern: Seq<char>,
    pub max_bytes: u64,
}

impl View for Quota {
    type V = QuotaView;

    open spec fn view(&self) -> QuotaView {
        QuotaView { pattern: self.pattern@, max_bytes: self.max_bytes }
    }
}

/// The state of a quota.
#[derive(Debug, Clone)]
pub struct QuotaStatus {
    pub pattern: String,
    pub max_bytes: u64,
    /// `None` when the volume could not be measured.
    pub used_bytes: Option<u64>,
}

/// A remembered measurement of the volumes of a chain.
#[derive(Debug, Clone)]
pub struct Usage {
    pub chain: Vec<usize>,
    pub value: u64,
    /// The time from which it no longer counts, in milliseconds.
    pub expires: u64,
}

pub struct QuotaStorage<S> {
    pub router: RepoRouter<S>,
    pub quotas: Vec<Quota>,
    pub usage: Vec<Usage>,
    /// How long a measurement counts, in milliseconds.
    pub ttl: u64,
    /// The time of the next operation, in milliseconds.
    pub now: u64,
    pub record: Ghost<Seq<Call>>,
    pub trail: Ghost<Trail<Terms, Stand<S>>>,
}

/// What operations leave as it is.
pub struct Terms {
    pub quotas: Seq<Quota>,
    pub ttl: u64,
    pub now: u64,
    pub rules: Seq<RuleView>,
}

/// What operations change.
pub struct Stand<S> {
    pub volumes: Seq<Partition<S>>,
    pub usage: Seq<Usage>,
}

/// The quota at `i` matches `repo`.
pub open spec fn quota_matches(quotas: Seq<Quota>, repo: Seq<char>, i: int) -> bool {
    0 <= i < quotas.len() && glob::matches(quotas[i].pattern@, repo)
}

/// The quota at `i` governs `repo`: it matches, no matching one has a longer
/// pattern, and no later one a pattern of the same length.
pub open spec fn governs(quotas: Seq<Quota>, repo: Seq<char>, i: int) -> bool {
    &&& quota_matches(quotas, repo, i)
    &&& forall|j: int| #[trigger]
        quota_matches(quotas, repo, j) ==> {
            let a = text::byte_len(quotas[j].pattern@);
            let b = text::byte_len(quotas[i].pattern@);
            a < b || (a == b && j <= i)
        }
}

/// No quota matches `repo`.
pub open spec fn ungoverned(quotas: Seq<Quota>, repo: Seq<char>) -> bool {
    forall|i: int| !quota_matches(quotas, repo, i)
}

/// `k` is the entry for `chain`.
pub open spec fn entry_at(usage: Seq<Usage>, chain: Seq<usize>, k: int) -> bool {
    &&& 0 <= k < usage.len()
    &&& usage[k].chain@ == chain
    &&& forall|j: int| 0 <= j < k ==> (#[trigger] usage[j]).chain@ != chain
}

pub open spec fn has_entry(usage: Seq<Usage>, chain: Seq<usize>) -> bool {
    exists|k: int| 0 <= k < usage.len() && (#[trigger] usage[k]).chain@ == chain
}

/// The remembered number for `chain`, if it still counts at `now`.
pub open spec fn remembered(usage: Seq<Usage>, chain: Seq<usize>, now: u64) -> Option<u64> {
    if has_entry(usage, chain) {
        let k = choose|k: int| entry_at(usage, chain, k);
        if usage[k].expires > now {
            Some(usage[k].value)
        } else {
            None
        }
    } else {
        None
    }
}

/// The message of a refusal.
pub open spec fn refusal(q: Quota, used: u64, incoming: u64) -> Seq<char> {
    "class "@ + text::debug_text(q.pattern@) + ": "@ + text::decimal(used as nat) + " B used + "@
        + text::decimal(incoming as nat) + " B incoming exceeds limit "@ + text::decimal(
        q.max_bytes as nat,
    ) + " B"@
}

/// `incoming` bytes on top of `used` fit under the quota.
pub open spec fn fits(q: Quota, used: u64, incoming: u64) -> bool {
    storage::sat((used + incoming) as nat) <= q.max_bytes
}

/// Decides whether `incoming` bytes may be added where `used` are taken.
pub fn check_fits(q: &Quota, used: u64, incoming: u64) -> (r: Result<(), StorageError>)
    ensures
        match r {
            Ok(_) => fits(*q, used, incoming),
            Err(e) => !fits(*q, used, incoming) && (e matches StorageError::QuotaExceeded(m) && m@
                == refusal(*q, used, incoming)),
        },
{
    if used.saturating_add(incoming) > q.max_bytes {
        let p = text::debug_quote(q.pattern.as_str());
        let u = text::decimal_text(used);
        let i = text::decimal_text(incoming);
        let l = text::decimal_text(q.max_bytes);
        let mut m = text::cat3("class ", p.as_str(), ": ");
        m.append(u.as_str());
        m.append(" B used + ");
        m.append(i.as_str());
        m.append(" B incoming exceeds limit ");
        m.append(l.as_str());
        m.append(" B");
        return Err(StorageError::QuotaExceeded(m));
    }
    Ok(())
}

// ---- Measuring ------------------------------------------------------------

/// The sum of the sizes that were given.
pub open spec fn sum_sizes(sizes: Seq<Result<u64, StorageError>>) -> nat
    decreases sizes.len(),
{
    if sizes.len() == 0 {
        0
    } else {
        sum_sizes(sizes.drop_last()) + match sizes.last() {
            Ok(n) => n as nat,
            Err(_) => 0,
        }
    }
}

/// The size of one blob was read through the chain, with the answer `r`.
pub open spec fn size_read<S: Storage>(
    was: Seq<Partition<S>>,
    now: Seq<Partition<S>>,
    order: Seq<usize>,
    a: fanout::BlobSize,
    r: Result<u64, StorageError>,
) -> bool {
    exists|replies: Seq<Result<u64, StorageError>>|
        #![trigger fanout::asked(was, now, order, a, replies)]
        fanout::asked(was, now, order, a, replies) && fanout::first_answer(replies, order.len(), r)
}

/// The blobs of a chain were listed, with the answer `r`.
pub open spec fn blobs_listed<S: Storage>(
    was: Seq<Partition<S>>,
    now: Seq<Partition<S>>,
    order: Seq<usize>,
    r: Result<Vec<Digest>, StorageError>,
) -> bool {
    exists|replies: Seq<Result<Vec<Digest>, StorageError>>|
        #![trigger fanout::asked(was, now, order, fanout::ListAllBlobs, replies)]
        fanout::asked(was, now, order, fanout::ListAllBlobs, replies) && fanout::union_answer(
            replies,
            order.len(),
            r,
        )
}

/// The sizes of `list` were read one after the other; the volumes went through
/// `states`.
pub open spec fn sizes_read<S: Storage>(
    states: Seq<Seq<Partition<S>>>,
    order: Seq<usize>,
    list: Seq<Digest>,
    sizes: Seq<Result<u64, StorageError>>,
) -> bool {
    &&& states.len() == list.len() + 1
    &&& sizes.len() == list.len()
    &&& forall|i: int|
        0 <= i < list.len() ==> size_read(
            states[i],
            states[i + 1],
            order,
            fanout::BlobSize { repo: "", digest: &list[i] },
            #[trigger] sizes[i],
        )
}

/// What a chain takes up: its blobs are listed and their sizes added up, a blob
/// whose size cannot be had counting nothing.
pub open spec fn measured<S: Storage>(
    was: Seq<Partition<S>>,
    now: Seq<Partition<S>>,
    order: Seq<usize>,
    r: Result<u64, StorageError>,
) -> bool {
    exists|
        listed: Result<Vec<Digest>, StorageError>,
        states: Seq<Seq<Partition<S>>>,
        sizes: Seq<Result<u64, StorageError>>,
    | #[trigger]
        measured_by(was, now, order, r, listed, states, sizes)
}

pub open spec fn measured_by<S: Storage>(
    was: Seq<Partition<S>>,
    now: Seq<Partition<S>>,
    order: Seq<usize>,
    r: Result<u64, StorageError>,
    listed: Result<Vec<Digest>, StorageError>,
    states: Seq<Seq<Partition<S>>>,
    sizes: Seq<Result<u64, StorageError>>,
) -> bool {
    match listed {
        Err(e) => blobs_listed(was, now, order, listed) && r == Err::<u64, StorageError>(e),
        Ok(list) => {
            &&& states.len() > 0
            &&& blobs_listed(was, states[0], order, listed)
            &&& sizes_read(states, order, list@, sizes)
            &&& now == states.last()
            &&& r == Ok::<u64, StorageError>(storage::sat(sum_sizes(sizes)))
        },
    }
}

fn measure<S: Storage>(volumes: &mut Vec<Partition<S>>, order: &Vec<usize>) -> (r: Result<
    u64,
    StorageError,
>)
    requires
        order@.len() > 0,
        fanout::places(order@, old(volumes)@.len()),
        fanout::all_wf(old(volumes)@),
    ensures
        fanout::all_wf(final(volumes)@),
        final(volumes)@.len() == old(volumes)@.len(),
        measured(old(volumes)@, final(volumes)@, order@, r),
{
    let ghost was = volumes@;
    let listed = fanout::ask_union(volumes, order, &fanout::ListAllBlobs);
    proof {
        assert(blobs_listed(was, volumes@, order@, listed));
    }
    let list = match listed {
        Ok(v) => v,
        Err(e) => {
            let r: Result<u64, StorageError> = Err(e);
            proof {
                let none = Seq::<Seq<Partition<S>>>::empty();
                assert(measured_by(was, volumes@, order@, r, Err(e), none, Seq::empty()));
            }
            return r;
        },
    };
    let ghost mut states: Seq<Seq<Partition<S>>> = seq![volumes@];
    let ghost mut sizes: Seq<Result<u64, StorageError>> = Seq::empty();
    let mut total: u64 = 0;
    let mut i: usize = 0;
    while i < list.len()
        invariant
            i <= list@.len(),
            order@.len() > 0,
            fanout::places(order@, volumes@.len()),
            fanout::all_wf(volumes@),
            volumes@.len() == was.len(),
            states.len() == i + 1,
            sizes.len() == i,
            states.last() == volumes@,
            blobs_listed(was, states[0], order@, Ok(list)),
            forall|j: int|
                0 <= j < i ==> size_read(
                    states[j],
                    states[j + 1],
                    order@,
                    fanout::BlobSize { repo: "", digest: &list@[j] },
                    #[trigger] sizes[j],
                ),
            total == storage::sat(sum_sizes(sizes)),
        decreases list@.len() - i,
    {
        let ghost before = volumes@;
        let a = fanout::BlobSize { repo: "", digest: &list[i] };
        let got = fanout::ask_until_found(volumes, order, &a);
        proof {
            assert(size_read(before, volumes@, order@, a, got));
            let s1 = states;
            let z1 = sizes;
            states = states.push(volumes@);
            sizes = sizes.push(got);
            assert(sizes.drop_last() =~= z1);
            assert forall|j: int| 0 <= j < i + 1 implies size_read(
                states[j],
                states[j + 1],
                order@,
                fanout::BlobSize { repo: "", digest: &list@[j] },
                #[trigger] sizes[j],
            ) by {
                if j < i {
                    assert(sizes[j] == z1[j]);
                    assert(states[j] == s1[j]);
                    assert(states[j + 1] == s1[j + 1]);
                } else {
                    assert(states[j] == before);
                }
            }
        }
        let size: u64 = match got {
            Ok(n) => n,
            Err(_) => 0,
        };
        total = total.saturating_add(size);
        i = i + 1;
    }
    let r: Result<u64, StorageError> = Ok(total);
    assert(measured_by(was, volumes@, order@, r, Ok(list), states, sizes));
    r
}

impl<S> QuotaStorage<S> {
    pub fn new(router: RepoRouter<S>, quotas: Vec<Quota>, ttl: u64) -> (r: QuotaStorage<S>)
        ensures
            r.router == router,
            r.quotas == quotas,
            r.usage@.len() == 0,
            r.ttl == ttl,
            r.now == 0,
            r.begins(),
    {
        let usage: Vec<Usage> = Vec::new();
        let ghost terms = Terms { quotas: quotas@, ttl, now: 0, rules: router.table() };
        let ghost stand = Stand { volumes: router.volumes@, usage: usage@ };
        QuotaStorage {
            router,
            quotas,
            usage,
            ttl,
            now: 0,
            record: Ghost(Seq::empty()),
            trail: Ghost(trail::begun(terms, 0, stand)),
        }
    }

    pub open spec fn terms(&self) -> Terms {
        Terms {
            quotas: self.quotas@,
            ttl: self.ttl,
            now: self.now,
            rules: self.router.table(),
        }
    }

    pub open spec fn stand(&self) -> Stand<S> {
        Stand { volumes: self.router.volumes@, usage: self.usage@ }
    }

    /// What the volumes and the remembered numbers went through, up to now.
    pub open spec fn path(&self) -> Trail<Terms, Stand<S>> {
        self.trail@.current(self.terms(), self.record@.len(), self.stand())
    }

    /// The trail begins here.
    pub open spec fn begins(&self) -> bool {
        self.path() == trail::begun(self.terms(), self.record@.len(), self.stand())
    }

    /// Begins a new trail.
    pub fn begin(&mut self)
        ensures
            final(self).router == old(self).router,
            final(self).quotas == old(self).quotas,
            final(self).usage == old(self).usage,
            final(self).ttl == old(self).ttl,
            final(self).now == old(self).now,
            final(self).record == old(self).record,
            final(self).begins(),
    {
        self.trail = Ghost(trail::begun(self.terms(), self.record@.len(), self.stand()));
    }

    pub fn quotas(&self) -> (r: &Vec<Quota>)
        ensures
            *r == self.quotas,
    {
        &self.quotas
    }

    /// The quota that governs `repo`.
    fn matching_quota(&self, repo: &str) -> (r: Option<usize>)
        ensures
            match r {
                Some(i) => governs(self.quotas@, repo@, i as int),
                None => ungoverned(self.quotas@, repo@),
            },
    {
        let ghost q = self.quotas@;
        let mut best: Option<usize> = None;
        let mut best_len: usize = 0;
        let mut i: usize = 0;
        while i < self.quotas.len()
            invariant
                i <= q.len(),
                q == self.quotas@,
                match best {
                    None => forall|j: int| 0 <= j < i ==> !quota_matches(q, repo@, j),
                    Some(b) => {
                        &&& b < i
                        &&& quota_matches(q, repo@, b as int)
                        &&& best_len == text::byte_len(q[b as int].pattern@)
                        &&& forall|j: int|
                            0 <= j < i && #[trigger] quota_matches(q, repo@, j) ==> {
                                let x = text::byte_len(q[j].pattern@);
                                x < best_len || (x == best_len && j <= b)
                            }
                    },
                },
            decreases q.len() - i,
        {
            if glob::glob_match(self.quotas[i].pattern.as_str(), repo) {
                assert(quota_matches(q, repo@, i as int));
                let n: usize = text::byte_count(self.quotas[i].pattern.as_str());
                match best {
                    None => {
                        best = Some(i);
                        best_len = n;
                    },
                    Some(_) => {
                        if n >= best_len {
                            best = Some(i);
                            best_len = n;
                        }
                    },
                }
            }
            i = i + 1;
        }
        best
    }

    fn entry(&self, chain: &Vec<usize>) -> (r: Option<usize>)
        ensures
            match r {
                Some(k) => entry_at(self.usage@, chain@, k as int),
                None => !has_entry(self.usage@, chain@),
            },
    {
        let mut k: usize = 0;
        while k < self.usage.len()
            invariant
                k <= self.usage@.len(),
                forall|j: int| 0 <= j < k ==> (#[trigger] self.usage@[j]).chain@ != chain@,
            decreases self.usage@.len() - k,
        {
            if same_chain(&self.usage[k].chain, chain) {
                return Some(k);
            }
            k = k + 1;
        }
        None
    }

    /// Adds `delta` to the remembered number for `chain`, if there is one.
    fn bump(&mut self, chain: &Vec<usize>, delta: u64)
        ensures
            final(self).router == old(self).router,
            final(self).quotas == old(self).quotas,
            final(self).ttl == old(self).ttl,
            final(self).now == old(self).now,
            final(self).record == old(self).record,
            final(self).trail == old(self).trail,
            bumped(old(self).usage@, final(self).usage@, chain@, delta),
    {
        let ghost was = self.usage@;
        match self.entry(chain) {
            Some(k) => {
                proof {
                    lemma_one_entry(was, chain@, k as int);
                }
                self.usage[k].value = self.usage[k].value.saturating_add(delta);
                assert(self.usage@ =~= was.update(k as int, self.usage@[k as int]));
            },
            None => {},
        }
    }

    /// Remembers a measurement of `chain`.
    fn remember(&mut self, chain: Vec<usize>, value: u64)
        ensures
            final(self).router == old(self).router,
            final(self).quotas == old(self).quotas,
            final(self).ttl == old(self).ttl,
            final(self).now == old(self).now,
            final(self).record == old(self).record,
            final(self).trail == old(self).trail,
            noted(
                old(self).usage@,
                final(self).usage@,
                chain@,
                value,
                storage::sat((old(self).now + old(self).ttl) as nat),
            ),
    {
        let ghost was = self.usage@;
        let expires: u64 = self.now.saturating_add(self.ttl);
        match self.entry(&chain) {
            Some(k) => {
                proof {
                    lemma_one_entry(was, chain@, k as int);
                }
                self.usage[k].value = value;
                self.usage[k].expires = expires;
                assert(self.usage@ =~= was.update(k as int, self.usage@[k as int]));
            },
            None => {
                self.usage.push(Usage { chain, value, expires });
                assert(self.usage@.drop_last() =~= was);
            },
        }
    }
}

fn same_chain(a: &Vec<usize>, b: &Vec<usize>) -> (r: bool)
    ensures
        r == (a@ == b@),
{
    if a.len() != b.len() {
        return false;
    }
    let mut i: usize = 0;
    while i < a.len()
        invariant
            i <= a@.len(),
            a@.len() == b@.len(),
            forall|j: int| 0 <= j < i ==> a@[j] == b@[j],
        decreases a@.len() - i,
    {
        if a[i] != b[i] {
            return false;
        }
        i = i + 1;
    }
    assert(a@ =~= b@);
    true
}

/// The entry for a chain is one.
pub proof fn lemma_one_entry(usage: Seq<Usage>, chain: Seq<usize>, k: int)
    requires
        entry_at(usage, chain, k),
    ensures
        has_entry(usage, chain),
        k == choose|k: int| entry_at(usage, chain, k),
{
    assert(usage[k].chain@ == chain);
    let j = choose|j: int| entry_at(usage, chain, j);
    assert(entry_at(usage, chain, j));
    if j < k {
        assert(usage[j].chain@ != chain);
    } else if k < j {
        assert(usage[k].chain@ != chain);
    }
}

/// The entry for `chain`, if there is one, has grown by `delta`; all else is as it
/// was.
pub open spec fn bumped(
    was: Seq<Usage>,
    now: Seq<Usage>,
    chain: Seq<usize>,
    delta: u64,
) -> bool {
    if has_entry(was, chain) {
        let k = choose|k: int| entry_at(was, chain, k);
        now == was.update(
            k,
            Usage { value: storage::sat((was[k].value + delta) as nat), ..was[k] },
        )
    } else {
        now == was
    }
}

/// The entry for `chain` says `value` until `expires`; all else is as it was.
pub open spec fn noted(
    was: Seq<Usage>,
    now: Seq<Usage>,
    chain: Seq<usize>,
    value: u64,
    expires: u64,
) -> bool {
    if has_entry(was, chain) {
        let k = choose|k: int| entry_at(was, chain, k);
        now == was.update(k, Usage { chain: was[k].chain, value, expires })
    } else {
        now.len() == was.len() + 1 && now.drop_last() == was && now.last().chain@ == chain
            && now.last().value == value && now.last().expires == expires
    }
}

/// What a look at the usage of `chain` gave: the remembered number where it counts,
/// else a measurement, which is then remembered.
pub open spec fn usage_read<S: Storage>(
    was: QuotaStorage<S>,
    now: QuotaStorage<S>,
    chain: Seq<usize>,
    r: Result<u64, StorageError>,
) -> bool {
    match remembered(was.usage@, chain, was.now) {
        Some(v) => r == Ok::<u64, StorageError>(v) && now.usage == was.usage && now.router.volumes
            == was.router.volumes,
        None => measured(was.router.volumes@, now.router.volumes@, chain, r) && match r {
            Ok(v) => noted(
                was.usage@,
                now.usage@,
                chain,
                v,
                storage::sat((was.now + was.ttl) as nat),
            ),
            Err(_) => now.usage == was.usage,
        },
    }
}

/// The outcome of asking whether `incoming` bytes may be written to `repo`: always
/// where no quota governs; else by the usage of its volumes.
pub open spec fn enforced<S: Storage>(
    was: QuotaStorage<S>,
    now: QuotaStorage<S>,
    repo: Seq<char>,
    incoming: u64,
    r: Result<(), StorageError>,
) -> bool {
    if ungoverned(was.quotas@, repo) {
        r is Ok && now == was
    } else {
        exists|i: int, used: Result<u64, StorageError>| #[trigger]
            enforced_by(was, now, repo, incoming, r, i, used)
    }
}

pub open spec fn enforced_by<S: Storage>(
    was: QuotaStorage<S>,
    now: QuotaStorage<S>,
    repo: Seq<char>,
    incoming: u64,
    r: Result<(), StorageError>,
    i: int,
    used: Result<u64, StorageError>,
) -> bool {
    let q = was.quotas@[i];
    &&& governs(was.quotas@, repo, i)
    &&& now.kept(&was)
    &&& usage_read(was, now, was.router.route(repo), used)
    &&& match used {
        Err(e) => r == Err::<(), StorageError>(e),
        Ok(n) => if fits(q, n, incoming) {
            r is Ok
        } else {
            r matches Err(StorageError::QuotaExceeded(m)) && m@ == refusal(q, n, incoming)
        },
    }
}

impl<S: Storage> QuotaStorage<S> {
    /// The same quotas, clock and rules.
    pub open spec fn kept(&self, was: &QuotaStorage<S>) -> bool {
        &&& self.quotas == was.quotas
        &&& self.ttl == was.ttl
        &&& self.now == was.now
        &&& self.router.rules == was.router.rules
    }

    fn usage_of(&mut self, backend: &Backend) -> (r: Result<u64, StorageError>)
        requires
            old(self).wf(),
            backend.valid(old(self).router.volumes@.len()),
        ensures
            final(self).wf(),
            final(self).kept(old(self)),
            final(self).record == old(self).record,
            final(self).trail == old(self).trail,
            usage_read(*old(self), *final(self), backend.chain@, r),
    {
        let ghost was = *self;
        match self.entry(&backend.chain) {
            Some(k) => {
                proof {
                    lemma_one_entry(self.usage@, backend.chain@, k as int);
                }
                if self.usage[k].expires > self.now {
                    return Ok(self.usage[k].value);
                }
            },
            None => {},
        }
        assert(remembered(was.usage@, backend.chain@, was.now) is None);
        let got = measure(&mut self.router.volumes, &backend.chain);
        match got {
            Ok(n) => {
                let copy = backend.clone();
                self.remember(copy.chain, n);
                Ok(n)
            },
            Err(e) => Err(e),
        }
    }

    /// Refuses `incoming` bytes for `repo` where they would exceed its quota.
    fn enforce(&mut self, repo: &str, incoming: u64) -> (r: Result<(), StorageError>)
        requires
            old(self).wf(),
        ensures
            final(self).wf(),
            final(self).kept(old(self)),
            final(self).record == old(self).record,
            final(self).trail == old(self).trail,
            enforced(*old(self), *final(self), repo@, incoming, r),
    {
        let ghost was = *self;
        let at: usize = match self.matching_quota(repo) {
            None => return Ok(()),
            Some(i) => i,
        };
        let backend = self.router.backend_for(repo);
        proof {
            assert(self.router.table()[repo_router::deciding_rule(
                self.router.table(),
                repo@,
            )].chain.len() > 0);
        }
        let used = self.usage_of(&backend);
        match used {
            Err(e) => {
                let r: Result<(), StorageError> = Err(e);
                assert(enforced_by(was, *self, repo@, incoming, r, at as int, used));
                r
            },
            Ok(n) => {
                let r = check_fits(&self.quotas[at], n, incoming);
                assert(enforced_by(was, *self, repo@, incoming, r, at as int, used));
                r
            },
        }
    }
}

/// The router was asked whether the blob is there.
pub open spec fn asked_first<S: Storage>(
    was: QuotaStorage<S>,
    now: QuotaStorage<S>,
    repo: &str,
    digest: &Digest,
    there: Result<bool, StorageError>,
) -> bool {
    &&& now.kept(&was)
    &&& now.usage == was.usage
    &&& repo_router::asked_any(
        was.router,
        now.router,
        repo@,
        (fanout::BlobExists { repo, digest }),
        there,
    )
}

/// The volume that takes the writes was asked how much the upload holds; without an
/// answer it counts as empty.
pub open spec fn upload_sized<S: Storage>(
    was: QuotaStorage<S>,
    now: QuotaStorage<S>,
    repo: &str,
    id: u128,
    size: u64,
) -> bool {
    &&& now.kept(&was)
    &&& now.usage == was.usage
    &&& exists|state: Result<UploadStatus, StorageError>| #[trigger]
        trail::alone(
            was.router.volumes@,
            now.router.volumes@,
            was.router.route(repo@)[0],
            (fanout::UploadState { repo, id }),
            state,
        ) && size == match state {
            Ok(s) => s.offset,
            Err(_) => 0,
        }
}

/// The failure `e` was handed on and nothing else was done.
pub open spec fn refused<S: Storage>(
    was: QuotaStorage<S>,
    now: QuotaStorage<S>,
    r: Result<(), StorageError>,
    e: StorageError,
) -> bool {
    r == Err::<(), StorageError>(e) && now.router == was.router && now.usage == was.usage
}

/// The write was handed to the volume that takes the writes of `repo`, and to no
/// other; its answer is `r`.
pub open spec fn passed_on<S: Storage, W: Ask<Answer = ()>>(
    was: QuotaStorage<S>,
    now: QuotaStorage<S>,
    repo: Seq<char>,
    w: W,
    r: Result<(), StorageError>,
) -> bool {
    trail::alone(was.router.volumes@, now.router.volumes@, was.router.route(repo)[0], w, r)
}

/// A write of `size` new bytes: the quota was asked, and only where it let them in
/// was the write handed on; what was written is then added to the remembered usage.
pub open spec fn guarded<S: Storage, W: Ask<Answer = ()>>(
    was: QuotaStorage<S>,
    now: QuotaStorage<S>,
    repo: Seq<char>,
    size: u64,
    w: W,
    r: Result<(), StorageError>,
) -> bool {
    exists|d: Result<(), StorageError>, checked: QuotaStorage<S>| #[trigger]
        enforced(was, checked, repo, size, d) && match d {
            Err(e) => refused(checked, now, r, e),
            Ok(_) => {
                &&& passed_on(checked, now, repo, w, r)
                &&& if r is Ok {
                    bumped(checked.usage@, now.usage@, was.router.route(repo), size)
                } else {
                    now.usage == checked.usage
                }
            },
        }
}

proof fn lemma_same_guarded<S: Storage, W: Ask<Answer = ()>>(
    was: QuotaStorage<S>,
    a: QuotaStorage<S>,
    b: QuotaStorage<S>,
    repo: Seq<char>,
    size: u64,
    w: W,
    r: Result<(), StorageError>,
)
    requires
        a.router == b.router,
        a.usage == b.usage,
    ensures
        guarded(was, a, repo, size, w, r) ==> guarded(was, b, repo, size, w, r),
{
    if guarded(was, a, repo, size, w, r) {
        let (d, checked) = choose|d: Result<(), StorageError>, checked: QuotaStorage<S>| #[trigger]
            enforced(was, checked, repo, size, d) && match d {
                Err(e) => refused(checked, a, r, e),
                Ok(_) => {
                    &&& passed_on(checked, a, repo, w, r)
                    &&& if r is Ok {
                        bumped(checked.usage@, a.usage@, was.router.route(repo), size)
                    } else {
                        a.usage == checked.usage
                    }
                },
            };
        assert(enforced(was, checked, repo, size, d));
    }
}

/// A blob that is there already is handed on; a new one is guarded.
pub open spec fn written<S: Storage>(
    was: QuotaStorage<S>,
    now: QuotaStorage<S>,
    w: fanout::BlobWrite,
    r: Result<(), StorageError>,
) -> bool {
    exists|there: Result<bool, StorageError>, asked: QuotaStorage<S>| #[trigger]
        asked_first(was, asked, w.repo, w.digest, there) && match there {
            Err(e) => refused(asked, now, r, e),
            Ok(true) => passed_on(asked, now, w.repo@, w, r) && now.usage == asked.usage,
            Ok(false) => guarded(asked, now, w.repo@, w.content@.len() as u64, w, r),
        }
}

/// An upload of a blob that is there already is finished; one of a new blob is
/// guarded, with what the upload holds as its size.
pub open spec fn finished<S: Storage>(
    was: QuotaStorage<S>,
    now: QuotaStorage<S>,
    w: fanout::UploadFinalize,
    r: Result<(), StorageError>,
) -> bool {
    exists|there: Result<bool, StorageError>, asked: QuotaStorage<S>| #[trigger]
        asked_first(was, asked, w.repo, w.digest, there) && match there {
            Err(e) => refused(asked, now, r, e),
            Ok(true) => passed_on(asked, now, w.repo@, w, r) && now.usage == asked.usage,
            Ok(false) => exists|size: u64, sized: QuotaStorage<S>| #[trigger]
                upload_sized(asked, sized, w.repo, w.id, size) && guarded(
                    sized,
                    now,
                    w.repo@,
                    size,
                    w,
                    r,
                ),
        }
}

/// The call led from `was` to `now`.
pub open spec fn handled<S: Storage>(
    was: QuotaStorage<S>,
    now: QuotaStorage<S>,
    call: Call,
) -> bool {
    &&& now.kept(&was)
    &&& match call {
        Call::BlobWrite { .. } => exists|w: fanout::BlobWrite, r: Result<(), StorageError>|
            #[trigger] written(was, now, w, r) && w.call(r) == call,
        Call::UploadFinalize { .. } => exists|
            w: fanout::UploadFinalize,
            r: Result<(), StorageError>,
        | #[trigger] finished(was, now, w, r) && w.call(r) == call,
        _ => now.usage == was.usage && trail::served(
            was.router.layout(),
            was.router.volumes@,
            call,
            now.router.volumes@,
        ),
    }
}

/// The call led from one stand to another under these terms.
pub open spec fn answered<S: Storage>(terms: Terms, a: Stand<S>, call: Call, b: Stand<S>) -> bool {
    exists|x: QuotaStorage<S>, y: QuotaStorage<S>| #[trigger]
        handled(x, y, call) && x.terms() == terms && x.stand() == a && y.stand() == b
}

/// The trail accounts for every call since it began.
pub open spec fn traced<S: Storage>(t: Trail<Terms, Stand<S>>, log: Seq<Call>) -> bool {
    t.base <= log.len() && led(t.layout, t.states, log.skip(t.base as int))
}

/// These calls led through `states`.
pub open spec fn led<S: Storage>(terms: Terms, states: Seq<Stand<S>>, calls: Seq<Call>) -> bool {
    &&& states.len() == calls.len() + 1
    &&& forall|i: int|
        0 <= i < calls.len() ==> answered(terms, states[i], #[trigger] calls[i], states[i + 1])
}

proof fn lemma_onward<S: Storage>(
    t: Trail<Terms, Stand<S>>,
    log: Seq<Call>,
    was: Stand<S>,
    call: Call,
    now: Stand<S>,
)
    requires
        traced(t, log),
        t.states.last() == was,
        answered(t.layout, was, call, now),
    ensures
        traced(t.onward(now), log.push(call)),
{
    let n = t.onward(now);
    let a = log.skip(t.base as int);
    let b = log.push(call).skip(t.base as int);
    assert(b =~= a.push(call));
    assert forall|i: int| 0 <= i < b.len() implies answered(
        n.layout,
        n.states[i],
        #[trigger] b[i],
        n.states[i + 1],
    ) by {
        if i < a.len() {
            assert(b[i] == a[i]);
            assert(n.states[i] == t.states[i]);
            assert(n.states[i + 1] == t.states[i + 1]);
        }
    }
}

/// A trail that began when the record was `before` tells how the volumes and the
/// remembered numbers came to be what they are.
pub proof fn lemma_followed<S: Storage>(t: Trail<Terms, Stand<S>>, before: Seq<Call>, log: Seq<Call>)
    requires
        traced(t, log),
        t.base == before.len(),
        storage::extends(before, log),
    ensures
        led(t.layout, t.states, storage::added(before, log)),
{
    assert(storage::added(before, log) =~= log.skip(t.base as int));
}

impl<S: Storage> QuotaStorage<S> {
    /// Adds what was written to the remembered usage of the volumes of `repo`.
    fn settle(&mut self, repo: &str, size: u64, done: &Result<(), StorageError>)
        requires
            old(self).wf(),
        ensures
            final(self).wf(),
            final(self).kept(old(self)),
            final(self).record == old(self).record,
            final(self).trail == old(self).trail,
            final(self).router == old(self).router,
            if *done is Ok {
                bumped(old(self).usage@, final(self).usage@, old(self).router.route(repo@), size)
            } else {
                final(self).usage == old(self).usage
            },
    {
        if done.is_ok() {
            let backend = self.router.backend_for(repo);
            self.bump(&backend.chain, size);
        }
    }

    /// Adds a call to the record, and to the trail what came of it.
    fn note(&mut self, was: Ghost<QuotaStorage<S>>, call: Ghost<Call>)
        requires
            was@.wf(),
            old(self).router.wf(),
            old(self).record == was@.record,
            old(self).trail == was@.trail,
            handled(was@, *old(self), call@),
        ensures
            final(self).wf(),
            final(self).kept(old(self)),
            final(self).router == old(self).router,
            final(self).usage == old(self).usage,
            final(self).record@ == was@.record@.push(call@),
            final(self).origin() == was@.origin(),
    {
        proof {
            let log = was@.record@;
            assert(log.skip(log.len() as int) =~= Seq::empty());
            assert(self.terms() == was@.terms());
            assert(answered(was@.terms(), was@.stand(), call@, self.stand()));
            lemma_onward(was@.path(), log, was@.stand(), call@, self.stand());
        }
        self.record = Ghost(self.record@.push(call@));
        self.trail = Ghost(was@.path().onward(self.stand()));
    }

    /// The state of every quota, measured anew.
    pub fn report(&mut self) -> (r: Vec<QuotaStatus>)
        requires
            old(self).wf(),
        ensures
            final(self).wf(),
            final(self).kept(old(self)),
            final(self).usage == old(self).usage,
            exists|states: Seq<Seq<Partition<S>>>| #[trigger]
                quotas_measured(*old(self), *final(self), states, r@),
    {
        let ghost was = *self;
        let ghost mut states: Seq<Seq<Partition<S>>> = seq![self.router.volumes@];
        let mut out: Vec<QuotaStatus> = Vec::new();
        let mut i: usize = 0;
        while i < self.quotas.len()
            invariant
                i <= self.quotas@.len(),
                self.wf(),
                self.kept(&was),
                self.usage == was.usage,
                was == *old(self),
                states.len() == i + 1,
                states[0] == was.router.volumes@,
                states.last() == self.router.volumes@,
                out@.len() == i,
                forall|j: int|
                    0 <= j < i ==> quota_measured(
                        was,
                        was.quotas@[j],
                        states[j],
                        states[j + 1],
                        #[trigger] out@[j],
                    ),
            decreases self.quotas@.len() - i,
        {
            let ghost before = self.router.volumes@;
            let found = self.router.backend_for_pattern(self.quotas[i].pattern.as_str());
            let used: Option<u64> = match found {
                None => None,
                Some(b) => {
                    proof {
                        let k = choose|k: int| #[trigger]
                            repo_router::first_with_pattern(
                                self.router.table(),
                                self.quotas@[i as int].pattern@,
                                k,
                            ) && self.router.table()[k].chain == b.chain@;
                        assert(self.router.table()[k].chain.len() > 0);
                    }
                    match measure(&mut self.router.volumes, &b.chain) {
                        Ok(n) => Some(n),
                        Err(_) => None,
                    }
                },
            };
            let status = QuotaStatus {
                pattern: self.quotas[i].pattern.clone(),
                max_bytes: self.quotas[i].max_bytes,
                used_bytes: used,
            };
            proof {
                assert(quota_measured(
                    was,
                    was.quotas@[i as int],
                    before,
                    self.router.volumes@,
                    status,
                ));
            }
            let ghost s1 = states;
            let ghost o1 = out@;
            out.push(status);
            proof {
                states = states.push(self.router.volumes@);
                assert forall|j: int| 0 <= j < i + 1 implies quota_measured(
                    was,
                    was.quotas@[j],
                    states[j],
                    states[j + 1],
                    #[trigger] out@[j],
                ) by {
                    if j < i {
                        assert(out@[j] == o1[j]);
                        assert(states[j] == s1[j]);
                        assert(states[j + 1] == s1[j + 1]);
                    }
                }
            }
            i = i + 1;
        }
        assert(quotas_measured(*old(self), *self, states, out@));
        out
    }
}

/// The status of one quota: its rule's volumes were measured, if a rule has exactly
/// its pattern and the measurement did not fail.
pub open spec fn quota_measured<S: Storage>(
    q: QuotaStorage<S>,
    quota: Quota,
    was: Seq<Partition<S>>,
    now: Seq<Partition<S>>,
    status: QuotaStatus,
) -> bool {
    let table = q.router.table();
    &&& status.pattern@ == quota.pattern@
    &&& status.max_bytes == quota.max_bytes
    &&& if repo_router::has_pattern(table, quota.pattern@) {
        exists|k: int, r: Result<u64, StorageError>|
            #![trigger measured(was, now, table[k].chain, r)]
            repo_router::first_with_pattern(table, quota.pattern@, k) && measured(
                was,
                now,
                table[k].chain,
                r,
            ) && status.used_bytes == match r {
                Ok(n) => Some(n),
                Err(_) => None,
            }
    } else {
        status.used_bytes is None && now == was
    }
}

/// The statuses of all quotas, in order; the volumes went through `states`.
pub open spec fn quotas_measured<S: Storage>(
    was: QuotaStorage<S>,
    now: QuotaStorage<S>,
    states: Seq<Seq<Partition<S>>>,
    out: Seq<QuotaStatus>,
) -> bool {
    &&& out.len() == was.quotas@.len()
    &&& states.len() == out.len() + 1
    &&& states[0] == was.router.volumes@
    &&& states.last() == now.router.volumes@
    &&& forall|j: int|
        0 <= j < out.len() ==> quota_measured(
            was,
            was.quotas@[j],
            states[j],
            states[j + 1],
            #[trigger] out[j],
        )
}

impl<S: Storage> Storage for QuotaStorage<S> {
    open spec fn log(&self) -> Seq<Call> {
        self.record@
    }

    open spec fn wf(&self) -> bool {
        self.router.wf() && traced(self.trail@, self.record@)
    }

    type Origin = Start<Terms, Stand<S>>;

    open spec fn origin(&self) -> Start<Terms, Stand<S>> {
        self.path().start()
    }

    fn blob_exists(&mut self, repo: &str, digest: &Digest) -> (r: Result<bool, StorageError>)
        ensures
            final(self).kept(old(self)),
            final(self).usage == old(self).usage,
            repo_router::asked_any(
                old(self).router,
                final(self).router,
                repo@,
                (fanout::BlobExists { repo, digest }),
                r,
            ),
    {
        let ghost was = *self;
        let r = self.router.blob_exists(repo, digest);
        let ghost a = fanout::BlobExists { repo, digest };
        assert(a.call(r)->BlobExists_repo == repo@);
        assert(trail::until_true(was.router.volumes@, self.router.volumes@, was.router.layout().reads(repo@), a, r));
        self.note(Ghost(was), Ghost(a.call(r)));
        r
    }

    fn blob_size(&mut self, repo: &str, digest: &Digest) -> (r: Result<u64, StorageError>)
        ensures
            final(self).kept(old(self)),
            final(self).usage == old(self).usage,
            repo_router::asked_until_found(
                old(self).router,
                final(self).router,
                repo@,
                (fanout::BlobSize { repo, digest }),
                r,
            ),
    {
        let ghost was = *self;
        let r = self.router.blob_size(repo, digest);
        let ghost a = fanout::BlobSize { repo, digest };
        assert(a.call(r)->BlobSize_repo == repo@);
        assert(trail::until_found(was.router.volumes@, self.router.volumes@, was.router.layout().reads(repo@), a, r));
        self.note(Ghost(was), Ghost(a.call(r)));
        r
    }

    fn blob_read(&mut self, repo: &str, digest: &Digest) -> (r: Result<Vec<u8>, StorageError>)
        ensures
            final(self).kept(old(self)),
            final(self).usage == old(self).usage,
            repo_router::asked_until_found(
                old(self).router,
                final(self).router,
                repo@,
                (fanout::BlobRead { repo, digest }),
                r,
            ),
    {
        let ghost was = *self;
        let r = self.router.blob_read(repo, digest);
        let ghost a = fanout::BlobRead { repo, digest };
        assert(a.call(r)->BlobRead_repo == repo@);
        assert(trail::until_found(was.router.volumes@, self.router.volumes@, was.router.layout().reads(repo@), a, r));
        self.note(Ghost(was), Ghost(a.call(r)));
        r
    }

    fn blob_write(&mut self, repo: &str, expected: &Digest, content: &[u8]) -> (r: Result<
        (),
        StorageError,
    >)
        ensures
            final(self).kept(old(self)),
            written(*old(self), *final(self), (fanout::BlobWrite { repo, digest: expected, content }), r),
    {
        let ghost was = *self;
        let size: u64 = content.len() as u64;
        let there = self.router.blob_exists(repo, expected);
        let ghost asked = *self;
        let w = fanout::BlobWrite { repo, digest: expected, content };
        let r: Result<(), StorageError> = match there {
            Err(e) => Err(e),
            Ok(true) => self.router.blob_write(repo, expected, content),
            Ok(false) => {
                let d = self.enforce(repo, size);
                let ghost checked = *self;
                assert(enforced(asked, checked, repo@, size, d));
                match d {
                    Err(e) => Err(e),
                    Ok(()) => {
                        let done = self.router.blob_write(repo, expected, content);
                        assert(passed_on(checked, *self, repo@, w, done));
                        self.settle(repo, size, &done);
                        done
                    },
                }
            },
        };
        assert(asked_first(was, asked, repo, expected, there));
        assert(written(was, *self, w, r));
        let ghost done = *self;
        self.note(Ghost(was), Ghost(w.call(r)));
        proof {
            assert(asked_first(was, asked, repo, expected, there));
            lemma_same_guarded(asked, done, *self, repo@, size, w, r);
            assert(written(was, *self, w, r));
        }
        r
    }

    fn upload_finalize(&mut self, repo: &str, id: u128, expected: &Digest) -> (r: Result<
        (),
        StorageError,
    >)
        ensures
            final(self).kept(old(self)),
            finished(*old(self), *final(self), (fanout::UploadFinalize { repo, id, digest: expected }), r),
    {
        let ghost was = *self;
        let ghost mut at: Option<(u64, QuotaStorage<S>)> = None;
        let there = self.router.blob_exists(repo, expected);
        let ghost asked = *self;
        let w = fanout::UploadFinalize { repo, id, digest: expected };
        let r: Result<(), StorageError> = match there {
            Err(e) => Err(e),
            Ok(true) => self.router.upload_finalize(repo, id, expected),
            Ok(false) => {
                let state = self.router.upload_status(repo, id);
                let size: u64 = match state {
                    Ok(s) => s.offset,
                    Err(_) => 0,
                };
                let ghost sized = *self;
                proof {
                    at = Some((size, sized));
                    assert(trail::alone(
                        asked.router.volumes@,
                        sized.router.volumes@,
                        asked.router.route(repo@)[0],
                        fanout::UploadState { repo, id },
                        state,
                    ));
                    assert(upload_sized(asked, sized, repo, id, size));
                }
                let d = self.enforce(repo, size);
                let ghost checked = *self;
                assert(enforced(sized, checked, repo@, size, d));
                match d {
                    Err(e) => Err(e),
                    Ok(()) => {
                        let done = self.router.upload_finalize(repo, id, expected);
                        assert(passed_on(checked, *self, repo@, w, done));
                        self.settle(repo, size, &done);
                        done
                    },
                }
            },
        };
        assert(asked_first(was, asked, repo, expected, there));
        assert(finished(was, *self, w, r));
        let ghost done = *self;
        self.note(Ghost(was), Ghost(w.call(r)));
        proof {
            assert(asked_first(was, asked, repo, expected, there));
            if let Some((size, sized)) = at {
                assert(upload_sized(asked, sized, repo, id, size));
                lemma_same_guarded(sized, done, *self, repo@, size, w, r);
            }
            assert(finished(was, *self, w, r));
        }
        r
    }

    fn blob_delete(&mut self, repo: &str, digest: &Digest) -> (r: Result<(), StorageError>)
        ensures
            final(self).kept(old(self)),
            final(self).usage == old(self).usage,
            repo_router::asked_all(
                old(self).router,
                final(self).router,
                repo@,
                (fanout::BlobDelete { repo, digest }),
                r,
            ),
    {
        let ghost was = *self;
        let r = self.router.blob_delete(repo, digest);
        let ghost a = fanout::BlobDelete { repo, digest };
        assert(a.call(r)->BlobDelete_repo == repo@);
        assert(trail::of_all(was.router.volumes@, self.router.volumes@, was.router.layout().holds(repo@), a, r));
        self.note(Ghost(was), Ghost(a.call(r)));
        r
    }

    fn upload_create(&mut self, repo: &str) -> (r: Result<UploadStatus, StorageError>)
        ensures
            final(self).kept(old(self)),
            final(self).usage == old(self).usage,
            trail::alone(
                old(self).router.volumes@,
                final(self).router.volumes@,
                old(self).router.route(repo@)[0],
                (fanout::UploadCreate { repo }),
                r,
            ),
    {
        let ghost was = *self;
        let r = self.router.upload_create(repo);
        let ghost a = fanout::UploadCreate { repo };
        assert(a.call(r)->UploadCreate_repo == repo@);
        assert(trail::alone(was.router.volumes@, self.router.volumes@, was.router.layout().writes(repo@), a, r));
        self.note(Ghost(was), Ghost(a.call(r)));
        r
    }

    fn upload_status(&mut self, repo: &str, id: u128) -> (r: Result<UploadStatus, StorageError>)
        ensures
            final(self).kept(old(self)),
            final(self).usage == old(self).usage,
            trail::alone(
                old(self).router.volumes@,
                final(self).router.volumes@,
                old(self).router.route(repo@)[0],
                (fanout::UploadState { repo, id }),
                r,
            ),
    {
        let ghost was = *self;
        let r = self.router.upload_status(repo, id);
        let ghost a = fanout::UploadState { repo, id };
        assert(a.call(r)->UploadState_repo == repo@);
        assert(trail::alone(was.router.volumes@, self.router.volumes@, was.router.layout().writes(repo@), a, r));
        self.note(Ghost(was), Ghost(a.call(r)));
        r
    }

    fn upload_append(&mut self, repo: &str, id: u128, chunk: &[u8]) -> (r: Result<UploadStatus, StorageError>)
        ensures
            final(self).kept(old(self)),
            final(self).usage == old(self).usage,
            trail::alone(
                old(self).router.volumes@,
                final(self).router.volumes@,
                old(self).router.route(repo@)[0],
                (fanout::UploadAppend { repo, id, chunk }),
                r,
            ),
    {
        let ghost was = *self;
        let r = self.router.upload_append(repo, id, chunk);
        let ghost a = fanout::UploadAppend { repo, id, chunk };
        assert(a.call(r)->UploadAppend_repo == repo@);
        assert(trail::alone(was.router.volumes@, self.router.volumes@, was.router.layout().writes(repo@), a, r));
        self.note(Ghost(was), Ghost(a.call(r)));
        r
    }

    fn upload_cancel(&mut self, repo: &str, id: u128) -> (r: Result<(), StorageError>)
        ensures
            final(self).kept(old(self)),
            final(self).usage == old(self).usage,
            trail::alone(
                old(self).router.volumes@,
                final(self).router.volumes@,
                old(self).router.route(repo@)[0],
                (fanout::UploadCancel { repo, id }),
                r,
            ),
    {
        let ghost was = *self;
        let r = self.router.upload_cancel(repo, id);
        let ghost a = fanout::UploadCancel { repo, id };
        assert(a.call(r)->UploadCancel_repo == repo@);
        assert(trail::alone(was.router.volumes@, self.router.volumes@, was.router.layout().writes(repo@), a, r));
        self.note(Ghost(was), Ghost(a.call(r)));
        r
    }

    fn manifest_get(&mut self, repo: &str, reference: &Reference) -> (r: Result<StoredManifest, StorageError>)
        ensures
            final(self).kept(old(self)),
            final(self).usage == old(self).usage,
            repo_router::asked_until_found(
                old(self).router,
                final(self).router,
                repo@,
                (fanout::ManifestGet { repo, reference }),
                r,
            ),
    {
        let ghost was = *self;
        let r = self.router.manifest_get(repo, reference);
        let ghost a = fanout::ManifestGet { repo, reference };
        assert(a.call(r)->ManifestGet_repo == repo@);
        assert(trail::until_found(was.router.volumes@, self.router.volumes@, was.router.layout().reads(repo@), a, r));
        self.note(Ghost(was), Ghost(a.call(r)));
        r
    }

    fn manifest_put(&mut self, repo: &str, reference: &Reference, content: &[u8]) -> (r: Result<Digest, StorageError>)
        ensures
            final(self).kept(old(self)),
            final(self).usage == old(self).usage,
            trail::alone(
                old(self).router.volumes@,
                final(self).router.volumes@,
                old(self).router.route(repo@)[0],
                (fanout::ManifestPut { repo, reference, content }),
                r,
            ),
    {
        let ghost was = *self;
        let r = self.router.manifest_put(repo, reference, content);
        let ghost a = fanout::ManifestPut { repo, reference, content };
        assert(a.call(r)->ManifestPut_repo == repo@);
        assert(trail::alone(was.router.volumes@, self.router.volumes@, was.router.layout().writes(repo@), a, r));
        self.note(Ghost(was), Ghost(a.call(r)));
        r
    }

    fn manifest_delete(&mut self, repo: &str, reference: &Reference) -> (r: Result<(), StorageError>)
        ensures
            final(self).kept(old(self)),
            final(self).usage == old(self).usage,
            repo_router::asked_all(
                old(self).router,
                final(self).router,
                repo@,
                (fanout::ManifestDelete { repo, reference }),
                r,
            ),
    {
        let ghost was = *self;
        let r = self.router.manifest_delete(repo, reference);
        let ghost a = fanout::ManifestDelete { repo, reference };
        assert(a.call(r)->ManifestDelete_repo == repo@);
        assert(trail::of_all(was.router.volumes@, self.router.volumes@, was.router.layout().holds(repo@), a, r));
        self.note(Ghost(was), Ghost(a.call(r)));
        r
    }

    fn list_repos(&mut self) -> (r: Result<Vec<String>, StorageError>)
        ensures
            final(self).kept(old(self)),
            final(self).usage == old(self).usage,
            repo_router::asked_union(
                old(self).router,
                final(self).router,
                fanout::ListRepos,
                r,
            ),
    {
        let ghost was = *self;
        let r = self.router.list_repos();
        let ghost a = fanout::ListRepos;
        assert(trail::put_together(was.router.volumes@, self.router.volumes@, was.router.layout().everywhere(), a, r));
        self.note(Ghost(was), Ghost(a.call(r)));
        r
    }

    fn list_tags(&mut self, repo: &str) -> (r: Result<Vec<String>, StorageError>)
        ensures
            final(self).kept(old(self)),
            final(self).usage == old(self).usage,
            repo_router::asked_list(
                old(self).router,
                final(self).router,
                repo@,
                (fanout::ListTags { repo }),
                r,
            ),
    {
        let ghost was = *self;
        let r = self.router.list_tags(repo);
        let ghost a = fanout::ListTags { repo };
        assert(a.call(r)->ListTags_repo == repo@);
        assert(trail::put_together(was.router.volumes@, self.router.volumes@, was.router.layout().holds(repo@), a, r));
        self.note(Ghost(was), Ghost(a.call(r)));
        r
    }

    fn list_manifest_digests(&mut self, repo: &str) -> (r: Result<Vec<Digest>, StorageError>)
        ensures
            final(self).kept(old(self)),
            final(self).usage == old(self).usage,
            repo_router::asked_list(
                old(self).router,
                final(self).router,
                repo@,
                (fanout::ListManifestDigests { repo }),
                r,
            ),
    {
        let ghost was = *self;
        let r = self.router.list_manifest_digests(repo);
        let ghost a = fanout::ListManifestDigests { repo };
        assert(a.call(r)->ListManifestDigests_repo == repo@);
        assert(trail::put_together(was.router.volumes@, self.router.volumes@, was.router.layout().holds(repo@), a, r));
        self.note(Ghost(was), Ghost(a.call(r)));
        r
    }

    fn list_all_blobs(&mut self) -> (r: Result<Vec<Digest>, StorageError>)
        ensures
            final(self).kept(old(self)),
            final(self).usage == old(self).usage,
            repo_router::asked_union(
                old(self).router,
                final(self).router,
                fanout::ListAllBlobs,
                r,
            ),
    {
        let ghost was = *self;
        let r = self.router.list_all_blobs();
        let ghost a = fanout::ListAllBlobs;
        assert(trail::put_together(was.router.volumes@, self.router.volumes@, was.router.layout().everywhere(), a, r));
        self.note(Ghost(was), Ghost(a.call(r)));
        r
    }
}

} // verus!
