//! Moving a class of repositories to another volume while it is in use.
//!
//! 1. Overlay: the rule is pointed at the new volume in front of the old one.
//!    Writes land on the new volume, and reads fall back to the old one, so nothing
//!    is unreachable at any time.
//! 2. Backfill: the content of every repository that the rule decides is copied from
//!    the old volume to the new one.
//! 3. Collapse: the rule is pointed at the new volume alone.
//! 4. Drain, when asked for: the manifests of the moved repositories are deleted
//!    from the old volume, and a garbage collection reclaims its blobs.
//!
//! A migration can be repeated. When a backfill fails, the rule stays on the
//! overlay, which serves everything.

use vstd::prelude::*;

use crate::digest::{Digest, DigestView};
use crate::fanout;
use crate::fanout::Partition;
use crate::gc;
use crate::glob;
use crate::manifest::Manifest;
use crate::order;
use crate::order::Key;
use crate::repo_router;
use crate::repo_router::{Backend, RepoRouter, RuleView};
use crate::storage;
use crate::storage::{Call, Reference, ReferenceView, Storage, StorageError};
use crate::text;
use crate::transfer;
use crate::transfer::{Copied, TagPointer, TagPointerView};
use crate::walk;
use crate::walk::{Found, Place};

verus! {

#[derive(Debug, Clone, Copy)]
pub struct MigrateReport {
    /// Repositories that were moved.
    pub repos_migrated: usize,
    pub blobs_copied: usize,
    pub bytes_copied: u64,
    pub manifests_copied: usize,
    /// Blobs swept from the old volume by a drain.
    pub blobs_purged: usize,
    pub bytes_purged: u64,
    /// Left at zero here; whoever holds a clock fills it in.
    pub duration_ms: u128,
    /// Whether the rule now points at the new volume.
    pub cutover: bool,
}

impl MigrateReport {
    /// Nothing was done.
    pub open spec fn blank(self) -> bool {
        &&& self.repos_migrated == 0
        &&& self.blobs_copied == 0
        &&& self.bytes_copied == 0
        &&& self.manifests_copied == 0
        &&& self.blobs_purged == 0
        &&& self.bytes_purged == 0
        &&& self.duration_ms == 0
        &&& !self.cutover
    }

    /// The report with the numbers of one more copy.
    pub open spec fn plus(self, n: Copied) -> MigrateReport {
        MigrateReport {
            blobs_copied: storage::sat_count((self.blobs_copied + n.blobs) as nat),
            bytes_copied: storage::sat((self.bytes_copied + n.bytes) as nat),
            manifests_copied: storage::sat_count((self.manifests_copied + n.manifests) as nat),
            ..self
        }
    }
}

impl Default for MigrateReport {
    fn default() -> (r: MigrateReport)
        ensures
            r.blank(),
    {
        MigrateReport {
            repos_migrated: 0,
            blobs_copied: 0,
            bytes_copied: 0,
            manifests_copied: 0,
            blobs_purged: 0,
            bytes_purged: 0,
            duration_ms: 0,
            cutover: false,
        }
    }
}

// ---- One repository -------------------------------------------------------

/// `u` and `v` copy one repository whole: the first `m` calls at the source find
/// everything in it, and the rest bring it to the target.
pub open spec fn repo_copied_at(
    u: Seq<Call>,
    v: Seq<Call>,
    repo: Seq<char>,
    m: int,
    found: Found,
    tags: Seq<TagPointerView>,
) -> bool {
    &&& 0 <= m <= u.len()
    &&& walk::about(u.take(m), repo)
    &&& transfer::search_state(u.take(m), None, found, tags)
    &&& transfer::repo_searched(u.take(m), repo, None, found.manifests@, tags)
    &&& transfer::copying(u.subrange(m, u.len() as int), v, false)
    &&& transfer::all_done(
        u.subrange(m, u.len() as int),
        v,
        found.manifests@,
        found.blobs@,
        tags,
        false,
    )
    &&& transfer::asked_for(
        u.subrange(m, u.len() as int),
        found.manifests@,
        found.blobs@,
        tags,
    )
    &&& transfer::tags_right(u.subrange(m, u.len() as int), v, tags)
}

pub open spec fn repo_copied(u: Seq<Call>, v: Seq<Call>, repo: Seq<char>) -> bool {
    exists|m: int, found: Found, tags: Seq<TagPointerView>| #[trigger]
        repo_copied_at(u, v, repo, m, found, tags)
}

/// The copy of a repository broke off with `e` after the search for everything in it.
pub open spec fn repo_broken_at(
    u: Seq<Call>,
    v: Seq<Call>,
    repo: Seq<char>,
    m: int,
    found: Found,
    tags: Seq<TagPointerView>,
    e: StorageError,
) -> bool {
    &&& 0 <= m <= u.len()
    &&& walk::about(u.take(m), repo)
    &&& transfer::search_state(u.take(m), None, found, tags)
    &&& transfer::repo_searched(u.take(m), repo, None, found.manifests@, tags)
    &&& transfer::copy_broken(
        u.subrange(m, u.len() as int),
        v,
        found.manifests@,
        found.blobs@,
        tags,
        false,
        e,
    )
}

/// A copy of a repository that failed with `e`: the search did, with the target
/// untouched, or the copy behind it did.
pub open spec fn repo_copy_failed(
    u: Seq<Call>,
    v: Seq<Call>,
    repo: Seq<char>,
    e: StorageError,
) -> bool {
    ||| walk::search_failed(u, e) && walk::about(u, repo) && v.len() == 0
    ||| exists|m: int, found: Found, tags: Seq<TagPointerView>| #[trigger]
        repo_broken_at(u, v, repo, m, found, tags, e)
}

/// The report has grown by what the calls at the target wrote.
pub open spec fn counted_copy(v: Seq<Call>, was: MigrateReport, now: MigrateReport) -> bool {
    exists|n: Copied| #[trigger] n.counts(v) && now == was.plus(n)
}

/// Copies the whole content of one repository: its tags, all its manifests and every
/// blob they need.
pub fn copy_repo<S: Storage>(src: &mut S, dst: &mut S, repo: &str, report: &mut MigrateReport) -> (r:
    Result<(), StorageError>)
    requires
        old(src).wf(),
        old(dst).wf(),
    ensures
        final(src).wf(),
        final(dst).wf(),
        storage::extends(old(src).log(), final(src).log()),
        storage::extends(old(dst).log(), final(dst).log()),
        transfer::gentle(
            storage::added(old(src).log(), final(src).log()),
            storage::added(old(dst).log(), final(dst).log()),
        ),
        ({
            let u = storage::added(old(src).log(), final(src).log());
            let v = storage::added(old(dst).log(), final(dst).log());
            match r {
                Ok(_) => repo_copied(u, v, repo@),
                Err(e) => repo_copy_failed(u, v, repo@, e),
            }
        }),
        transfer::given(
            storage::added(old(src).log(), final(src).log()),
            storage::added(old(dst).log(), final(dst).log()),
        ),
        counted_copy(storage::added(old(dst).log(), final(dst).log()), *old(report), *final(report)),
{
    let ghost su = src.log();
    let ghost sv = dst.log();
    let mut found = Found::new();
    let mut tags: Vec<TagPointer> = Vec::new();
    let none: Option<String> = None;
    proof {
        storage::lemma_added_none(su);
        storage::lemma_added_none(sv);
        assert(order::views_of(tags@) =~= Seq::<TagPointerView>::empty());
    }
    let searched = transfer::search_repo(src, repo, &none, &mut found, &mut tags, Ghost(su));
    let ghost mid = src.log();
    proof {
        let w = storage::added(su, mid);
        assert forall|i: int| 0 <= i < w.len() implies walk::looks(#[trigger] w[i]) by {
            if searched is Err && i < w.len() - 1 {
                assert(w.drop_last()[i] == w[i]);
            }
        }
        transfer::lemma_gentle(w, Seq::empty(), Seq::empty(), false);
        assert(w + Seq::<Call>::empty() =~= w);
    }
    let mut done = Copied::none();
    match searched {
        Ok(()) => {},
        Err(e) => {
            assert(done.counts(storage::added(sv, dst.log())));
            assert(*report == old(report).plus(done));
            return Err(e);
        },
    }
    let copied = transfer::copy_all(src, dst, &found, &tags, false, &mut done);
    report.blobs_copied = report.blobs_copied.saturating_add(done.blobs);
    report.bytes_copied = report.bytes_copied.saturating_add(done.bytes);
    report.manifests_copied = report.manifests_copied.saturating_add(done.manifests);
    proof {
        storage::lemma_added_twice(su, mid, src.log());
        let u = storage::added(su, src.log());
        let m = storage::added(su, mid).len() as int;
        assert(u.take(m) =~= storage::added(su, mid));
        assert(u.subrange(m, u.len() as int) =~= storage::added(mid, src.log()));
        let v = storage::added(sv, dst.log());
        transfer::lemma_gentle(
            storage::added(su, mid),
            storage::added(mid, src.log()),
            v,
            false,
        );
        transfer::lemma_given(
            storage::added(su, mid),
            storage::added(mid, src.log()),
            v,
            None,
            order::views_of(tags@),
            false,
        );
        assert(u =~= storage::added(su, mid) + storage::added(mid, src.log()));
        assert(done.counts(v));
        assert(*report == old(report).plus(done));
        if copied is Ok {
            assert(repo_copied_at(u, v, repo@, m, found, order::views_of(tags@)));
        } else {
            assert(repo_broken_at(
                u,
                v,
                repo@,
                m,
                found,
                order::views_of(tags@),
                copied->Err_0,
            ));
        }
    }
    copied
}

// ---- Overlay and collapse -------------------------------------------------

/// A migration under way.
#[derive(Debug)]
pub struct Migration {
    pub pattern: String,
    /// The place of the rule that moves.
    pub rule: usize,
    /// The volume that it moves to.
    pub target: usize,
    /// The volumes that it moves from.
    pub sources: Vec<usize>,
}

impl Migration {
    /// It is about a rule of the router and distinct volumes of it.
    pub open spec fn fits<S>(&self, router: RepoRouter<S>) -> bool {
        &&& router.ruled()
        &&& repo_router::first_with_pattern(router.table(), self.pattern@, self.rule as int)
        &&& self.target < router.volumes@.len()
        &&& fanout::places(self.sources@, router.volumes@.len())
        &&& !self.sources@.contains(self.target)
    }

    /// Whether it is about a rule of this router and distinct volumes of it.
    pub fn still_fits<S>(&self, router: &RepoRouter<S>) -> (r: bool)
        requires
            router.ruled(),
        ensures
            r == self.fits(*router),
    {
        match router.find_pattern(self.pattern.as_str()) {
            None => {
                return false;
            },
            Some(i) => {
                if i != self.rule {
                    assert(!repo_router::first_with_pattern(
                        router.table(),
                        self.pattern@,
                        self.rule as int,
                    )) by {
                        if i < self.rule {
                            assert(router.table()[i as int].pattern == self.pattern@);
                        } else if self.rule < router.table().len() {
                            assert(router.table()[self.rule as int].pattern != self.pattern@);
                        }
                    }
                    return false;
                }
            },
        }
        let n: usize = router.volumes.len();
        if self.target >= n {
            return false;
        }
        let ghost all = self.sources@;
        let mut i: usize = 0;
        while i < self.sources.len()
            invariant
                i <= all.len(),
                all == self.sources@,
                n == router.volumes@.len(),
                forall|k: int| 0 <= k < i ==> #[trigger] all[k] < n && all[k] != self.target,
                forall|k: int, l: int| 0 <= k < l < i ==> all[k] != all[l],
            decreases all.len() - i,
        {
            if self.sources[i] >= n {
                assert(!(all[i as int] < n));
                return false;
            }
            if self.sources[i] == self.target {
                assert(all[i as int] == self.target);
                return false;
            }
            let mut j: usize = 0;
            while j < i
                invariant
                    j <= i < all.len(),
                    all == self.sources@,
                    forall|k: int| 0 <= k < j ==> #[trigger] all[k] != all[i as int],
                decreases i - j,
            {
                if self.sources[j] == self.sources[i] {
                    return false;
                }
                j = j + 1;
            }
            i = i + 1;
        }
        true
    }
}

/// Points the rule with exactly this pattern at the volume `new` in front of what it
/// has now. Gives nothing to do where it points at that volume alone already.
pub fn begin<S>(router: &mut RepoRouter<S>, pattern: &str, new: usize) -> (r: Result<
    Option<Migration>,
    StorageError,
>)
    requires
        old(router).ruled(),
        new < old(router).volumes@.len(),
    ensures
        final(router).ruled(),
        final(router).volumes == old(router).volumes,
        final(router).record == old(router).record,
        final(router).trail == old(router).trail,
        match r {
            Err(e) => {
                &&& !repo_router::has_pattern(old(router).table(), pattern@)
                &&& (e matches StorageError::Invalid(m) && m@ == "no route rule with pattern "@
                    + text::debug_text(pattern@))
                &&& final(router).rules == old(router).rules
            },
            Ok(None) => {
                &&& exists|i: int| #[trigger]
                    repo_router::first_with_pattern(old(router).table(), pattern@, i) && old(
                        router,
                    ).table()[i].chain == seq![new]
                &&& final(router).rules == old(router).rules
            },
            Ok(Some(m)) => {
                let was = old(router).table();
                let i = m.rule as int;
                &&& m.fits(*final(router))
                &&& m.pattern@ == pattern@
                &&& m.target == new
                &&& repo_router::first_with_pattern(was, pattern@, i)
                &&& was[i].chain != seq![new]
                &&& m.sources@ == repo_router::without(was[i].chain, new)
                &&& final(router).table() == repo_router::upserted(
                    was,
                    pattern@,
                    seq![new] + m.sources@,
                )
            },
        },
{
    let ghost was = router.table();
    let at: usize = match router.find_pattern(pattern) {
        Some(i) => i,
        None => {
            let q = text::debug_quote(pattern);
            return Err(
                StorageError::Invalid(text::cat("no route rule with pattern ", q.as_str())),
            );
        },
    };
    proof {
        repo_router::lemma_first_with_pattern(was, pattern@, at as int);
        assert(was[at as int].chain == router.rules@[at as int].backend.chain@);
        assert(was[at as int].chain.len() > 0);
        repo_router::lemma_without(was[at as int].chain, new, router.volumes@.len());
    }
    let old_backend = router.rules[at].backend.clone();
    let alone = Backend::volume(new);
    if old_backend.same(&alone) {
        assert(repo_router::first_with_pattern(was, pattern@, at as int));
        return Ok(None);
    }
    let overlay = Backend::over(new, &old_backend);
    let mut sources: Vec<usize> = Vec::new();
    let mut i: usize = 1;
    while i < overlay.chain.len()
        invariant
            1 <= i <= overlay.chain@.len(),
            sources@ == overlay.chain@.subrange(1, i as int),
        decreases overlay.chain@.len() - i,
    {
        sources.push(overlay.chain[i]);
        i = i + 1;
        assert(sources@ =~= overlay.chain@.subrange(1, i as int));
    }
    let ghost chain = overlay.chain@;
    let ghost rest = repo_router::without(was[at as int].chain, new);
    proof {
        assert(sources@ =~= rest);
        assert(chain =~= seq![new] + rest);
        assert(fanout::places(chain, router.volumes@.len())) by {
            assert forall|a: int, b: int| 0 <= a < b < chain.len() implies chain[a] != chain[b] by {
                assert(chain[b] == rest[b - 1]);
                if a == 0 {
                    assert(rest.contains(rest[b - 1]));
                }
            }
        }
    }
    router.upsert(pattern.to_owned(), overlay);
    let m = Migration { pattern: pattern.to_owned(), rule: at, target: new, sources };
    proof {
        let now = router.table();
        assert(now == repo_router::repointed(was, pattern@, chain));
        assert(repo_router::first_with_pattern(now, pattern@, at as int)) by {
            assert forall|j: int| 0 <= j < at implies (#[trigger] now[j]).pattern != pattern@ by {
                assert(was[j].pattern != pattern@);
            }
        }
    }
    Ok(Some(m))
}

/// Points the rule of a migration at the new volume alone.
pub fn finish<S>(router: &mut RepoRouter<S>, m: &Migration)
    requires
        m.fits(*old(router)),
    ensures
        m.fits(*final(router)),
        final(router).volumes == old(router).volumes,
        final(router).record == old(router).record,
        final(router).trail == old(router).trail,
        final(router).table() == repo_router::upserted(
            old(router).table(),
            m.pattern@,
            seq![m.target],
        ),
{
    let ghost was = router.table();
    let alone = Backend::volume(m.target);
    assert(fanout::places(alone.chain@, router.volumes@.len()));
    router.upsert(m.pattern.clone(), alone);
    proof {
        repo_router::lemma_first_with_pattern(was, m.pattern@, m.rule as int);
        let now = router.table();
        assert(now == repo_router::repointed(was, m.pattern@, seq![m.target]));
        assert forall|j: int| 0 <= j < m.rule implies (#[trigger] now[j]).pattern != m.pattern@ by {
            assert(was[j].pattern != m.pattern@);
        }
    }
}

// ---- Backfill -------------------------------------------------------------

/// The rule at `i` decides for `repo` and matches it.
pub open spec fn moves(rules: Seq<RuleView>, i: int, repo: Seq<char>) -> bool {
    repo_router::decides(rules, repo, i) && glob::matches(rules[i].pattern, repo)
}

/// Those of a list of repositories that move with the rule at `i`.
pub open spec fn moving(rules: Seq<RuleView>, i: int, list: Seq<Seq<char>>) -> Seq<Seq<char>>
    decreases list.len(),
{
    if list.len() == 0 {
        list
    } else {
        let rest = moving(rules, i, list.drop_last());
        if moves(rules, i, list.last()) {
            rest.push(list.last())
        } else {
            rest
        }
    }
}

/// What the call writes is of a repository that moves with the rule at `i`.
pub open spec fn writes_moving(c: Call, rules: Seq<RuleView>, i: int) -> bool {
    match c {
        Call::BlobWrite { repo, .. } => moves(rules, i, repo),
        Call::ManifestPut { repo, .. } => moves(rules, i, repo),
        _ => true,
    }
}

/// Nothing is written but repositories that move with the rule at `i`.
pub open spec fn only_moving(v: Seq<Call>, rules: Seq<RuleView>, i: int) -> bool {
    forall|k: int| 0 <= k < v.len() ==> writes_moving(#[trigger] v[k], rules, i)
}

/// The call writes nothing, or something of the repository.
spec fn writes_in(c: Call, repo: Seq<char>) -> bool {
    match c {
        Call::BlobWrite { repo: r, .. } => r == repo,
        Call::ManifestPut { repo: r, .. } => r == repo,
        _ => true,
    }
}

/// What a search of one repository found is in that repository.
proof fn lemma_found_in(w: Seq<Call>, repo: Seq<char>, found: Found, tags: Seq<TagPointerView>, p: Place)
    requires
        walk::about(w, repo),
        transfer::search_state(w, None, found, tags),
    ensures
        found.manifests@.contains(p) ==> p.0 == repo,
        found.blobs@.contains(p) ==> p.0 == repo,
{
    if found.manifests@.contains(p) {
        assert(walk::some_shows(w, p));
        let k = choose|k: int| 0 <= k < w.len() && walk::shows(#[trigger] w[k], p);
        assert(walk::in_repo(w[k], repo));
    }
    if found.blobs@.contains(p) {
        assert(walk::some_needs(w, p));
        let k = choose|k: int| 0 <= k < w.len() && walk::needs(#[trigger] w[k], p);
        assert(walk::in_repo(w[k], repo));
    }
}

proof fn lemma_pointer_in(w: Seq<Call>, repo: Seq<char>, filter: Option<Seq<char>>, tags: Seq<TagPointerView>, i: int)
    requires
        walk::about(w, repo),
        transfer::tags_explained(w, filter, tags),
        0 <= i < tags.len(),
    ensures
        tags[i].repo == repo,
{
    let t = tags[i];
    assert(transfer::tag_read(w, t));
    let x = choose|x: (Seq<u8>, Option<Manifest>)| #[trigger]
        w.contains(
            Call::ManifestGet {
                repo: t.repo,
                reference: ReferenceView::Tag(t.tag),
                reply: Ok(x),
            },
        );
    let c = Call::ManifestGet { repo: t.repo, reference: ReferenceView::Tag(t.tag), reply: Ok(x) };
    let k = choose|k: int| 0 <= k < w.len() && w[k] == c;
    assert(walk::in_repo(w[k], repo));
}

/// A copy of one repository writes nothing but that repository.
proof fn lemma_writes_in(
    w: Seq<Call>,
    u: Seq<Call>,
    v: Seq<Call>,
    repo: Seq<char>,
    found: Found,
    tags: Seq<TagPointerView>,
    strict: bool,
)
    requires
        walk::about(w, repo),
        transfer::search_state(w, None, found, tags),
        transfer::honest(u, v, strict),
        transfer::asked_for(u, found.manifests@, found.blobs@, tags),
    ensures
        forall|k: int| 0 <= k < v.len() ==> writes_in(#[trigger] v[k], repo),
{
    assert forall|k: int| 0 <= k < v.len() implies writes_in(#[trigger] v[k], repo) by {
        assert(transfer::in_order(u, v.take(k), v[k], strict));
        match v[k] {
            Call::BlobWrite { repo: r, digest, content, .. } => {
                let c = Call::BlobRead { repo: r, digest, reply: Ok(content) };
                let j = choose|j: int| 0 <= j < u.len() && u[j] == c;
                lemma_asked_in(w, u, repo, found, tags, j);
            },
            Call::ManifestPut { repo: r, reference, content, .. } => {
                let d = match reference {
                    ReferenceView::Digest(d) => d,
                    ReferenceView::Tag(_) => choose|d: DigestView|
                        transfer::gave(u, #[trigger] transfer::place(r, d), content),
                };
                let p = transfer::place(r, d);
                assert(transfer::gave(u, p, content));
                let refs = choose|refs: Option<Manifest>| #[trigger]
                    u.contains(
                        Call::ManifestGet {
                            repo: p.0,
                            reference: ReferenceView::Digest(p.1),
                            reply: Ok((content, refs)),
                        },
                    );
                let c = Call::ManifestGet {
                    repo: p.0,
                    reference: ReferenceView::Digest(p.1),
                    reply: Ok((content, refs)),
                };
                let j = choose|j: int| 0 <= j < u.len() && u[j] == c;
                lemma_asked_in(w, u, repo, found, tags, j);
            },
            _ => {},
        }
    }
}

/// The source is asked for nothing but the repository.
proof fn lemma_asked_in(
    w: Seq<Call>,
    u: Seq<Call>,
    repo: Seq<char>,
    found: Found,
    tags: Seq<TagPointerView>,
    j: int,
)
    requires
        walk::about(w, repo),
        transfer::search_state(w, None, found, tags),
        transfer::asked_for(u, found.manifests@, found.blobs@, tags),
        0 <= j < u.len(),
    ensures
        u[j] is BlobRead ==> u[j]->BlobRead_repo == repo,
        u[j] is ManifestGet ==> u[j]->ManifestGet_repo == repo,
{
    let m = found.manifests@;
    let b = found.blobs@;
    assert(transfer::asks_wanted(u[j], m, b, tags));
    if exists|p: Place| #[trigger] b.contains(p) && transfer::asks_blob(u[j], p) {
        let p = choose|p: Place| #[trigger] b.contains(p) && transfer::asks_blob(u[j], p);
        lemma_found_in(w, repo, found, tags, p);
    } else if exists|p: Place| #[trigger] m.contains(p) && transfer::asks_manifest(u[j], p) {
        let p = choose|p: Place| #[trigger] m.contains(p) && transfer::asks_manifest(u[j], p);
        lemma_found_in(w, repo, found, tags, p);
    } else {
        let i = choose|i: int|
            0 <= i < tags.len() && transfer::asks_manifest(
                u[j],
                transfer::place((#[trigger] tags[i]).repo, tags[i].digest),
            );
        lemma_pointer_in(w, repo, None, tags, i);
    }
}

/// However a copy of a repository ended, it wrote nothing else.
proof fn lemma_copy_writes_in(u: Seq<Call>, v: Seq<Call>, repo: Seq<char>, r: Result<(), StorageError>)
    requires
        match r {
            Ok(_) => repo_copied(u, v, repo),
            Err(e) => repo_copy_failed(u, v, repo, e),
        },
    ensures
        forall|k: int| 0 <= k < v.len() ==> writes_in(#[trigger] v[k], repo),
{
    match r {
        Ok(_) => {
            let (m, found, tags) = choose|m: int, found: Found, tags: Seq<TagPointerView>|
                #[trigger] repo_copied_at(u, v, repo, m, found, tags);
            lemma_writes_in(
                u.take(m),
                u.subrange(m, u.len() as int),
                v,
                repo,
                found,
                tags,
                false,
            );
        },
        Err(e) => {
            if v.len() > 0 {
                let (m, found, tags) = choose|m: int, found: Found, tags: Seq<TagPointerView>|
                    #[trigger] repo_broken_at(u, v, repo, m, found, tags, e);
                lemma_writes_in(
                    u.take(m),
                    u.subrange(m, u.len() as int),
                    v,
                    repo,
                    found,
                    tags,
                    false,
                );
            }
        },
    }
}

proof fn lemma_moving_moves(rules: Seq<RuleView>, i: int, list: Seq<Seq<char>>)
    ensures
        forall|k: int|
            0 <= k < moving(rules, i, list).len() ==> moves(
                rules,
                i,
                #[trigger] moving(rules, i, list)[k],
            ),
    decreases list.len(),
{
    if list.len() > 0 {
        lemma_moving_moves(rules, i, list.drop_last());
        let a = moving(rules, i, list.drop_last());
        let b = moving(rules, i, list);
        assert forall|k: int| 0 <= k < b.len() implies moves(rules, i, #[trigger] b[k]) by {
            if k < a.len() {
                assert(b[k] == a[k]);
            }
        }
    }
}

proof fn lemma_only_moving_more(
    a: Seq<Call>,
    b: Seq<Call>,
    rules: Seq<RuleView>,
    i: int,
)
    requires
        only_moving(a, rules, i),
        only_moving(b, rules, i),
    ensures
        only_moving(a + b, rules, i),
{
    assert forall|k: int| 0 <= k < (a + b).len() implies writes_moving(
        #[trigger] (a + b)[k],
        rules,
        i,
    ) by {
        if k < a.len() {
            assert((a + b)[k] == a[k]);
        } else {
            assert((a + b)[k] == b[k - a.len()]);
        }
    }
}

/// The calls at volume `s`.
pub open spec fn calls_at<S: Storage>(
    was: Seq<Partition<S>>,
    now: Seq<Partition<S>>,
    s: int,
) -> Seq<Call> {
    storage::added(was[s].storage.log(), now[s].storage.log())
}

/// The same volumes with more calls on the records of those in `touched`.
pub open spec fn only_touched<S: Storage>(
    was: Seq<Partition<S>>,
    now: Seq<Partition<S>>,
    touched: Set<int>,
) -> bool {
    &&& now.len() == was.len()
    &&& forall|i: int|
        0 <= i < was.len() ==> (#[trigger] now[i]).name == was[i].name && storage::extends(
            was[i].storage.log(),
            now[i].storage.log(),
        )
    &&& forall|i: int|
        0 <= i < was.len() && !touched.contains(i) ==> #[trigger] now[i] == was[i]
}

/// Somewhere in `u` and `v` the repository is copied whole.
pub open spec fn copied_within(u: Seq<Call>, v: Seq<Call>, repo: Seq<char>) -> bool {
    exists|a: int, b: int, c: int, d: int|
        0 <= a <= b <= u.len() && 0 <= c <= d <= v.len() && #[trigger] repo_copied(
            u.subrange(a, b),
            v.subrange(c, d),
            repo,
        )
}

/// `u` lists the repositories of a volume, and those that move are copied whole.
pub open spec fn filled_from(
    u: Seq<Call>,
    v: Seq<Call>,
    rules: Seq<RuleView>,
    i: int,
    list: Seq<Seq<char>>,
) -> bool {
    &&& u.len() > 0
    &&& u[0] matches Call::ListRepos { reply: Ok(names) } && list == moving(rules, i, names)
    &&& forall|k: int| 0 <= k < list.len() ==> copied_within(u, v, #[trigger] list[k])
}

/// `r1` is `r0` with the numbers of the calls `v` at the target.
pub open spec fn counted(r0: MigrateReport, r1: MigrateReport, v: Seq<Call>) -> bool {
    r1 == (MigrateReport {
        blobs_copied: storage::sat_count(r0.blobs_copied as nat + transfer::writes(v)),
        bytes_copied: storage::sat(r0.bytes_copied as nat + transfer::written(v)),
        manifests_copied: storage::sat_count(r0.manifests_copied as nat + transfer::puts(v)),
        ..r0
    })
}

/// `r1` is `r0` with the numbers of the calls `v` at the target, but for the number of
/// repositories.
pub open spec fn counted_so_far(r0: MigrateReport, r1: MigrateReport, v: Seq<Call>) -> bool {
    counted(MigrateReport { repos_migrated: r1.repos_migrated, ..r0 }, r1, v)
}

proof fn lemma_counted_more(
    r0: MigrateReport,
    r1: MigrateReport,
    r2: MigrateReport,
    v: Seq<Call>,
    w: Seq<Call>,
    n: Copied,
)
    requires
        counted(r0, r1, v),
        n.counts(w),
        r2 == r1.plus(n),
    ensures
        counted(r0, r2, v + w),
{
    transfer::lemma_count_concat(v, w);
}

proof fn lemma_copied_within_more(
    u: Seq<Call>,
    v: Seq<Call>,
    u2: Seq<Call>,
    v2: Seq<Call>,
    repo: Seq<char>,
)
    requires
        copied_within(u, v, repo),
        storage::extends(u, u2),
        storage::extends(v, v2),
    ensures
        copied_within(u2, v2, repo),
{
    let (a, b, c, d) = choose|a: int, b: int, c: int, d: int|
        0 <= a <= b <= u.len() && 0 <= c <= d <= v.len() && #[trigger] repo_copied(
            u.subrange(a, b),
            v.subrange(c, d),
            repo,
        );
    assert(u2.subrange(a, b) =~= u.subrange(a, b)) by {
        assert(u2.subrange(0, u.len() as int) == u);
        assert forall|i: int| a <= i < b implies u2[i] == u[i] by {
            assert(u2.subrange(0, u.len() as int)[i] == u2[i]);
        }
    }
    assert(v2.subrange(c, d) =~= v.subrange(c, d)) by {
        assert(v2.subrange(0, v.len() as int) == v);
        assert forall|i: int| c <= i < d implies v2[i] == v[i] by {
            assert(v2.subrange(0, v.len() as int)[i] == v2[i]);
        }
    }
    assert(repo_copied(u2.subrange(a, b), v2.subrange(c, d), repo));
}

/// Copies one repository from one volume to another.
fn copy_between<S: Storage>(
    volumes: &mut Vec<Partition<S>>,
    s: usize,
    t: usize,
    repo: &str,
    report: &mut MigrateReport,
) -> (r: Result<(), StorageError>)
    requires
        s < old(volumes)@.len(),
        t < old(volumes)@.len(),
        s != t,
        fanout::all_wf(old(volumes)@),
    ensures
        fanout::all_wf(final(volumes)@),
        only_touched(old(volumes)@, final(volumes)@, set![s as int, t as int]),
        transfer::gentle(
            calls_at(old(volumes)@, final(volumes)@, s as int),
            calls_at(old(volumes)@, final(volumes)@, t as int),
        ),
        ({
            let u = calls_at(old(volumes)@, final(volumes)@, s as int);
            let v = calls_at(old(volumes)@, final(volumes)@, t as int);
            match r {
                Ok(_) => repo_copied(u, v, repo@),
                Err(e) => repo_copy_failed(u, v, repo@, e),
            }
        }),
        transfer::given(
            calls_at(old(volumes)@, final(volumes)@, s as int),
            calls_at(old(volumes)@, final(volumes)@, t as int),
        ),
        counted_copy(calls_at(old(volumes)@, final(volumes)@, t as int), *old(report), *final(report)),
{
    let ghost was = volumes@;
    let mut target = volumes.remove(t);
    let at: usize = if s > t {
        s - 1
    } else {
        s
    };
    let ghost rest = volumes@;
    proof {
        assert(target == was[t as int]);
        assert(rest[at as int] == was[s as int]);
    }
    let r = copy_repo(&mut volumes[at].storage, &mut target.storage, repo, report);
    let ghost t2 = target;
    let ghost rest2 = volumes@;
    volumes.insert(t, target);
    proof {
        let now = volumes@;
        assert(now[t as int] == t2);
        assert(now[s as int] == rest2[at as int]);
        let u = storage::added(rest[at as int].storage.log(), rest2[at as int].storage.log());
        let v = storage::added(was[t as int].storage.log(), t2.storage.log());
        assert(calls_at(was, now, s as int) == u);
        assert(calls_at(was, now, t as int) == v);
        if r is Ok {
            assert(repo_copied(u, v, repo@));
        } else {
            assert(repo_copy_failed(u, v, repo@, r->Err_0));
        }
        assert forall|i: int| 0 <= i < was.len() && i != s && i != t implies #[trigger] now[i]
            == was[i] by {
            if i < t {
                assert(now[i] == rest2[i]);
                assert(rest[i] == was[i]);
            } else {
                assert(now[i] == rest2[i - 1]);
                assert(rest[i - 1] == was[i]);
            }
        }
        assert forall|i: int| 0 <= i < was.len() implies (#[trigger] now[i]).name == was[i].name
            && storage::extends(was[i].storage.log(), now[i].storage.log()) && now[i].storage.wf() by {
            if i != s && i != t {
                assert(now[i] == was[i]);
                storage::lemma_added_none(was[i].storage.log());
            }
        }
    }
    r
}

/// A backfill from `s` to `t` that failed with `e`: the listing failed, or the copy
/// of one repository did.
pub open spec fn fill_failed(u: Seq<Call>, v: Seq<Call>, e: StorageError) -> bool {
    ||| u.len() == 1 && u[0] == (Call::ListRepos { reply: Err(e) })
    ||| exists|a: int, c: int, repo: Seq<char>|
        0 <= a <= u.len() && 0 <= c <= v.len() && #[trigger] repo_copy_failed(
            u.subrange(a, u.len() as int),
            v.subrange(c, v.len() as int),
            repo,
            e,
        )
}

/// Copies the repositories that move from one volume to the target.
fn fill<S: Storage>(
    router: &mut RepoRouter<S>,
    m: &Migration,
    s: usize,
    report: &mut MigrateReport,
) -> (r: Result<Vec<String>, StorageError>)
    requires
        old(router).wf(),
        m.fits(*old(router)),
        s < old(router).volumes@.len(),
        s != m.target,
    ensures
        final(router).wf(),
        m.fits(*final(router)),
        final(router).rules == old(router).rules,
        final(router).record == old(router).record,
        final(router).trail == old(router).trail,
        only_touched(
            old(router).volumes@,
            final(router).volumes@,
            set![s as int, m.target as int],
        ),
        transfer::gentle(
            calls_at(old(router).volumes@, final(router).volumes@, s as int),
            calls_at(old(router).volumes@, final(router).volumes@, m.target as int),
        ),
        transfer::given(
            calls_at(old(router).volumes@, final(router).volumes@, s as int),
            calls_at(old(router).volumes@, final(router).volumes@, m.target as int),
        ),
        only_moving(
            calls_at(old(router).volumes@, final(router).volumes@, m.target as int),
            old(router).table(),
            m.rule as int,
        ),
        ({
            let u = calls_at(old(router).volumes@, final(router).volumes@, s as int);
            let v = calls_at(old(router).volumes@, final(router).volumes@, m.target as int);
            match r {
                Ok(list) => {
                    &&& filled_from(
                        u,
                        v,
                        old(router).table(),
                        m.rule as int,
                        order::views_of(list@),
                    )
                    &&& counted(
                        MigrateReport {
                            repos_migrated: storage::sat_count(
                                old(report).repos_migrated as nat + list@.len(),
                            ),
                            ..*old(report)
                        },
                        *final(report),
                        v,
                    )
                },
                Err(e) => fill_failed(u, v, e) && counted_so_far(*old(report), *final(report), v),
            }
        }),
{
    let ghost was = router.volumes@;
    let ghost table = router.table();
    let t: usize = m.target;
    let listed = router.volumes[s].storage.list_repos();
    let ghost v0 = router.volumes@;
    let ghost c = v0[s as int].storage.log().last();
    proof {
        assert(v0[s as int].storage.log() == was[s as int].storage.log().push(c));
        storage::lemma_added_none(was[s as int].storage.log());
        storage::lemma_added_push(
            was[s as int].storage.log(),
            was[s as int].storage.log(),
            c,
        );
        storage::lemma_added_none(was[t as int].storage.log());
        assert(calls_at(was, v0, s as int) =~= seq![c]);
        assert(v0[t as int] == was[t as int]);
        assert(transfer::gentle(calls_at(was, v0, s as int), calls_at(was, v0, t as int)));
        assert forall|i: int| 0 <= i < was.len() implies (#[trigger] v0[i]).name == was[i].name
            && storage::extends(was[i].storage.log(), v0[i].storage.log()) && v0[i].storage.wf() by {
            if i != s {
                assert(v0[i] == was[i]);
                storage::lemma_added_none(was[i].storage.log());
            }
        }
        assert(router.table() == table);
    }
    let names = match listed {
        Ok(x) => x,
        Err(e) => return Err(e),
    };
    let ghost nv = order::views_of(names@);
    let mut list: Vec<String> = Vec::new();
    let mut i: usize = 0;
    assert(order::views_of(list@) =~= moving(table, m.rule as int, nv.take(0)));
    while i < names.len()
        invariant
            i <= names@.len(),
            nv == order::views_of(names@),
            table == router.table(),
            router.ruled(),
            m.fits(*router),
            order::views_of(list@) == moving(table, m.rule as int, nv.take(i as int)),
        decreases names@.len() - i,
    {
        proof {
            assert(nv.take(i + 1).drop_last() =~= nv.take(i as int));
            assert(nv.take(i + 1).last() == names@[i as int]@);
        }
        let ghost before = order::views_of(list@);
        if glob::glob_match(m.pattern.as_str(), names[i].as_str()) && router.decided_by(
            m.rule,
            names[i].as_str(),
        ) {
            list.push(names[i].clone());
            assert(order::views_of(list@) =~= before.push(names@[i as int]@));
        }
        i = i + 1;
    }
    assert(nv.take(i as int) =~= nv);
    let ghost lv = order::views_of(list@);
    report.repos_migrated = report.repos_migrated.saturating_add(list.len());
    let ghost base = *report;
    let mut k: usize = 0;
    proof {
        assert(calls_at(was, router.volumes@, t as int) =~= Seq::<Call>::empty());
    }
    while k < list.len()
        invariant
            k <= list@.len(),
            lv == order::views_of(list@),
            t == m.target,
            s < was.len(),
            t < was.len(),
            s != t,
            was == old(router).volumes@,
            table == router.table(),
            router.wf(),
            m.fits(*router),
            router.rules == old(router).rules,
            router.record == old(router).record,
            router.trail == old(router).trail,
            only_touched(was, router.volumes@, set![s as int, t as int]),
            transfer::gentle(
                calls_at(was, router.volumes@, s as int),
                calls_at(was, router.volumes@, t as int),
            ),
            transfer::given(
                calls_at(was, router.volumes@, s as int),
                calls_at(was, router.volumes@, t as int),
            ),
            calls_at(was, router.volumes@, s as int).len() > 0,
            calls_at(was, router.volumes@, s as int)[0] == (Call::ListRepos { reply: Ok(nv) }),
            lv == moving(table, m.rule as int, nv),
            only_moving(calls_at(was, router.volumes@, t as int), table, m.rule as int),
            forall|j: int|
                0 <= j < k ==> copied_within(
                    calls_at(was, router.volumes@, s as int),
                    calls_at(was, router.volumes@, t as int),
                    #[trigger] lv[j],
                ),
            base == (MigrateReport { repos_migrated: base.repos_migrated, ..*old(report) }),
            counted(base, *report, calls_at(was, router.volumes@, t as int)),
        decreases list@.len() - k,
    {
        let ghost mid = router.volumes@;
        let ghost r1 = *report;
        let done = copy_between(&mut router.volumes, s, t, list[k].as_str(), report);
        let ghost now = router.volumes@;
        proof {
            let si = s as int;
            let ti = t as int;
            storage::lemma_added_twice(
                was[si].storage.log(),
                mid[si].storage.log(),
                now[si].storage.log(),
            );
            storage::lemma_added_twice(
                was[ti].storage.log(),
                mid[ti].storage.log(),
                now[ti].storage.log(),
            );
            transfer::lemma_grown(
                was[si].storage.log(),
                mid[si].storage.log(),
                now[si].storage.log(),
            );
            transfer::lemma_grown(
                was[ti].storage.log(),
                mid[ti].storage.log(),
                now[ti].storage.log(),
            );
            assert forall|j: int| 0 <= j < was.len() implies (#[trigger] now[j]).name == was[j].name
                && storage::extends(was[j].storage.log(), now[j].storage.log()) by {
                assert(mid[j].name == was[j].name);
                storage::lemma_added_twice(
                    was[j].storage.log(),
                    mid[j].storage.log(),
                    now[j].storage.log(),
                );
            }
            assert forall|j: int|
                0 <= j < was.len() && !set![si, ti].contains(j) implies #[trigger] now[j] == was[j] by {
                assert(mid[j] == was[j]);
            }
            let u1 = calls_at(was, mid, si);
            let v1 = calls_at(was, mid, ti);
            let u2 = calls_at(was, now, si);
            let v2 = calls_at(was, now, ti);
            let du = calls_at(mid, now, si);
            let dv = calls_at(mid, now, ti);
            assert(u2 == u1 + du);
            assert(v2 == v1 + dv);
            assert(u2.subrange(u1.len() as int, u2.len() as int) =~= du);
            assert(v2.subrange(v1.len() as int, v2.len() as int) =~= dv);
            transfer::lemma_gentle_concat(u1, v1, du, dv);
            transfer::lemma_given_concat(u1, v1, du, dv);
            let n = choose|n: Copied| #[trigger] n.counts(dv) && *report == r1.plus(n);
            lemma_counted_more(base, r1, *report, v1, dv, n);
            lemma_copy_writes_in(du, dv, lv[k as int], done);
            lemma_moving_moves(table, m.rule as int, nv);
            assert(only_moving(dv, table, m.rule as int)) by {
                assert forall|j: int| 0 <= j < dv.len() implies writes_moving(
                    #[trigger] dv[j],
                    table,
                    m.rule as int,
                ) by {
                    assert(writes_in(dv[j], lv[k as int]));
                    assert(moves(table, m.rule as int, lv[k as int]));
                }
            }
            lemma_only_moving_more(v1, dv, table, m.rule as int);
        }
        match done {
            Ok(()) => {},
            Err(e) => {
                proof {
                    let u1 = calls_at(was, mid, s as int);
                    let v1 = calls_at(was, mid, t as int);
                    let u2 = calls_at(was, now, s as int);
                    let v2 = calls_at(was, now, t as int);
                    assert(repo_copy_failed(
                        u2.subrange(u1.len() as int, u2.len() as int),
                        v2.subrange(v1.len() as int, v2.len() as int),
                        lv[k as int],
                        e,
                    ));
                }
                return Err(e);
            },
        }
        proof {
            let u1 = calls_at(was, mid, s as int);
            let v1 = calls_at(was, mid, t as int);
            let u2 = calls_at(was, now, s as int);
            let v2 = calls_at(was, now, t as int);
            assert(repo_copied(
                u2.subrange(u1.len() as int, u2.len() as int),
                v2.subrange(v1.len() as int, v2.len() as int),
                lv[k as int],
            ));
            assert(copied_within(u2, v2, lv[k as int]));
            assert forall|j: int| 0 <= j < k implies copied_within(u2, v2, #[trigger] lv[j]) by {
                lemma_copied_within_more(u1, v1, u2, v2, lv[j]);
            }
        }
        k = k + 1;
    }
    Ok(list)
}

/// How many names the lists hold.
pub open spec fn total_len(lists: Seq<Vec<String>>) -> nat
    decreases lists.len(),
{
    if lists.len() == 0 {
        0
    } else {
        total_len(lists.drop_last()) + lists.last()@.len()
    }
}

/// The volume that the `j`-th list of a backfill is from: the sources are taken from
/// the last to the first, so that what a read would prefer is written last.
pub open spec fn source_of(sources: Seq<usize>, j: int) -> int {
    sources[sources.len() - 1 - j] as int
}

pub open spec fn touched_by(sources: Seq<usize>, target: usize) -> Set<int> {
    Set::new(|i: int| i == target || exists|k: int| 0 <= k < sources.len() && sources[k] == i)
}

/// The sources are only read, and the target only added to.
pub open spec fn gentle_to<S: Storage>(
    was: Seq<Partition<S>>,
    now: Seq<Partition<S>>,
    sources: Seq<usize>,
    target: usize,
) -> bool {
    forall|k: int|
        0 <= k < sources.len() ==> transfer::gentle(
            calls_at(was, now, (#[trigger] sources[k]) as int),
            calls_at(was, now, target as int),
        )
}

/// All that is written to the target came from one of the sources.
pub open spec fn sourced<S: Storage>(
    was: Seq<Partition<S>>,
    now: Seq<Partition<S>>,
    sources: Seq<usize>,
    target: usize,
) -> bool {
    let v = calls_at(was, now, target as int);
    forall|i: int| 0 <= i < v.len() ==> sourced_at(was, now, sources, #[trigger] v[i])
}

/// What the call writes came from one of the sources.
pub open spec fn sourced_at<S: Storage>(
    was: Seq<Partition<S>>,
    now: Seq<Partition<S>>,
    sources: Seq<usize>,
    c: Call,
) -> bool {
    exists|k: int|
        0 <= k < sources.len() && transfer::came(
            calls_at(was, now, (#[trigger] sources[k]) as int),
            c,
        )
}

/// A whole backfill: every repository that moves is copied from every source.
pub open spec fn backfilled<S: Storage>(
    was: Seq<Partition<S>>,
    now: Seq<Partition<S>>,
    rules: Seq<RuleView>,
    rule: int,
    sources: Seq<usize>,
    target: usize,
    lists: Seq<Vec<String>>,
) -> bool {
    &&& lists.len() == sources.len()
    &&& only_touched(was, now, touched_by(sources, target))
    &&& gentle_to(was, now, sources, target)
    &&& sourced(was, now, sources, target)
    &&& only_moving(calls_at(was, now, target as int), rules, rule)
    &&& forall|j: int|
        0 <= j < lists.len() ==> filled_from(
            calls_at(was, now, source_of(sources, j)),
            calls_at(was, now, target as int),
            rules,
            rule,
            order::views_of((#[trigger] lists[j])@),
        )
}

/// `r1` is `r0` with the numbers of a backfill.
pub open spec fn backfill_counted(
    r0: MigrateReport,
    r1: MigrateReport,
    lists: Seq<Vec<String>>,
    v: Seq<Call>,
) -> bool {
    counted(
        MigrateReport {
            repos_migrated: storage::sat_count(r0.repos_migrated as nat + total_len(lists)),
            ..r0
        },
        r1,
        v,
    )
}

proof fn lemma_filled_more(
    u: Seq<Call>,
    v: Seq<Call>,
    v2: Seq<Call>,
    rules: Seq<RuleView>,
    rule: int,
    list: Seq<Seq<char>>,
)
    requires
        filled_from(u, v, rules, rule, list),
        storage::extends(v, v2),
    ensures
        filled_from(u, v2, rules, rule, list),
{
    transfer::lemma_extends_self(u);
    assert forall|k: int| 0 <= k < list.len() implies copied_within(u, v2, #[trigger] list[k]) by {
        lemma_copied_within_more(u, v, u, v2, list[k]);
    }
}

proof fn lemma_touch_more<S: Storage>(
    a: Seq<Partition<S>>,
    b: Seq<Partition<S>>,
    c: Seq<Partition<S>>,
    s: Set<int>,
    t: Set<int>,
)
    requires
        only_touched(a, b, s),
        only_touched(b, c, t),
        t.subset_of(s),
    ensures
        only_touched(a, c, s),
{
    assert forall|i: int| 0 <= i < a.len() implies (#[trigger] c[i]).name == a[i].name
        && storage::extends(a[i].storage.log(), c[i].storage.log()) by {
        assert(b[i].name == a[i].name);
        storage::lemma_added_twice(a[i].storage.log(), b[i].storage.log(), c[i].storage.log());
    }
    assert forall|i: int| 0 <= i < a.len() && !s.contains(i) implies #[trigger] c[i] == a[i] by {
        assert(b[i] == a[i]);
    }
}

/// A backfill that failed: the one from the source at `k` did.
pub open spec fn backfill_failed<S: Storage>(
    was: Seq<Partition<S>>,
    now: Seq<Partition<S>>,
    sources: Seq<usize>,
    target: usize,
    e: StorageError,
) -> bool {
    &&& only_touched(was, now, touched_by(sources, target))
    &&& gentle_to(was, now, sources, target)
    &&& sourced(was, now, sources, target)
    &&& exists|k: int, c: int|
        0 <= k < sources.len() && 0 <= c <= calls_at(was, now, target as int).len()
            && #[trigger] fill_failed(
            calls_at(was, now, sources[k] as int),
            calls_at(was, now, target as int).subrange(
                c,
                calls_at(was, now, target as int).len() as int,
            ),
            e,
        )
}

/// What one more source gave.
proof fn lemma_sourced_more<S: Storage>(
    was: Seq<Partition<S>>,
    mid: Seq<Partition<S>>,
    now: Seq<Partition<S>>,
    sources: Seq<usize>,
    target: usize,
    q: int,
)
    requires
        0 <= q < sources.len(),
        sourced(was, mid, sources, target),
        fanout::places(sources, was.len()),
        !sources.contains(target),
        mid.len() == was.len(),
        mid[sources[q] as int] == was[sources[q] as int],
        only_touched(mid, now, set![sources[q] as int, target as int]),
        storage::extends(was[target as int].storage.log(), mid[target as int].storage.log()),
        storage::extends(mid[target as int].storage.log(), now[target as int].storage.log()),
        transfer::given(
            calls_at(mid, now, sources[q] as int),
            calls_at(mid, now, target as int),
        ),
    ensures
        sourced(was, now, sources, target),
{
    let si = sources[q] as int;
    let ti = target as int;
    let v1 = calls_at(was, mid, ti);
    let dv = calls_at(mid, now, ti);
    let v2 = calls_at(was, now, ti);
    storage::lemma_added_twice(was[ti].storage.log(), mid[ti].storage.log(), now[ti].storage.log());
    assert(v2 == v1 + dv);
    assert forall|i: int| 0 <= i < v2.len() implies sourced_at(was, now, sources, #[trigger] v2[i]) by {
        if i < v1.len() {
            let c = v1[i];
            assert(v2[i] == c);
            assert(sourced_at(was, mid, sources, c));
            let k = choose|k: int|
                0 <= k < sources.len() && transfer::came(
                    calls_at(was, mid, (#[trigger] sources[k]) as int),
                    c,
                );
            let x = sources[k] as int;
            let u = calls_at(was, mid, x);
            let u2 = calls_at(was, now, x);
            if x == si {
                storage::lemma_added_none(was[si].storage.log());
                assert(u =~= Seq::<Call>::empty());
                transfer::lemma_came_more(u, u2, c);
            } else {
                assert(sources.contains(sources[k]));
                assert(now[x] == mid[x]);
            }
            assert(transfer::came(calls_at(was, now, sources[k] as int), v2[i]));
        } else {
            assert(v2[i] == dv[i - v1.len()]);
            assert(transfer::came(calls_at(mid, now, si), dv[i - v1.len()]));
            assert(transfer::came(calls_at(was, now, sources[q] as int), v2[i]));
        }
    }
}

/// Copies every repository that moves from the sources to the target. Gives the
/// names that were copied from each source.
pub fn backfill<S: Storage>(
    router: &mut RepoRouter<S>,
    m: &Migration,
    report: &mut MigrateReport,
) -> (r: Result<Vec<Vec<String>>, StorageError>)
    requires
        old(router).wf(),
        m.fits(*old(router)),
    ensures
        final(router).wf(),
        m.fits(*final(router)),
        final(router).rules == old(router).rules,
        final(router).record == old(router).record,
        final(router).trail == old(router).trail,
        match r {
            Ok(lists) => {
                &&& backfilled(
                    old(router).volumes@,
                    final(router).volumes@,
                    old(router).table(),
                    m.rule as int,
                    m.sources@,
                    m.target,
                    lists@,
                )
                &&& backfill_counted(
                    *old(report),
                    *final(report),
                    lists@,
                    calls_at(old(router).volumes@, final(router).volumes@, m.target as int),
                )
            },
            Err(e) => {
                &&& backfill_failed(
                    old(router).volumes@,
                    final(router).volumes@,
                    m.sources@,
                    m.target,
                    e,
                )
                &&& only_moving(
                    calls_at(old(router).volumes@, final(router).volumes@, m.target as int),
                    old(router).table(),
                    m.rule as int,
                )
                &&& counted_so_far(
                    *old(report),
                    *final(report),
                    calls_at(old(router).volumes@, final(router).volumes@, m.target as int),
                )
            },
        },
{
    let ghost was = router.volumes@;
    let ghost table = router.table();
    let ghost rule = m.rule as int;
    let ghost ti = m.target as int;
    let ghost touched = touched_by(m.sources@, m.target);
    let n: usize = m.sources.len();
    let mut lists: Vec<Vec<String>> = Vec::new();
    let mut k: usize = 0;
    proof {
        assert forall|i: int| 0 <= i < was.len() implies storage::extends(
            #[trigger] was[i].storage.log(),
            was[i].storage.log(),
        ) by {
            storage::lemma_added_none(was[i].storage.log());
        }
        storage::lemma_added_none(was[ti].storage.log());
        assert(only_touched(was, router.volumes@, touched));
        assert(gentle_to(was, router.volumes@, m.sources@, m.target)) by {
            assert forall|q: int| 0 <= q < n implies transfer::gentle(
                calls_at(was, router.volumes@, (#[trigger] m.sources@[q]) as int),
                calls_at(was, router.volumes@, ti),
            ) by {
                storage::lemma_added_none(was[m.sources@[q] as int].storage.log());
            }
        }
    }
    while k < n
        invariant
            k <= n,
            n == m.sources@.len(),
            was == old(router).volumes@,
            table == router.table(),
            table == old(router).table(),
            rule == m.rule,
            ti == m.target,
            touched == touched_by(m.sources@, m.target),
            router.wf(),
            m.fits(*router),
            router.rules == old(router).rules,
            router.record == old(router).record,
            router.trail == old(router).trail,
            only_touched(was, router.volumes@, touched),
            gentle_to(was, router.volumes@, m.sources@, m.target),
            sourced(was, router.volumes@, m.sources@, m.target),
            only_moving(calls_at(was, router.volumes@, ti), table, rule),
            lists@.len() == k,
            forall|j: int|
                k <= j < n ==> #[trigger] router.volumes@[source_of(m.sources@, j)]
                    == was[source_of(m.sources@, j)],
            forall|j: int|
                0 <= j < k ==> filled_from(
                    calls_at(was, router.volumes@, source_of(m.sources@, j)),
                    calls_at(was, router.volumes@, ti),
                    table,
                    rule,
                    order::views_of((#[trigger] lists@[j])@),
                ),
            backfill_counted(*old(report), *report, lists@, calls_at(was, router.volumes@, ti)),
        decreases n - k,
    {
        let ghost mid = router.volumes@;
        let ghost r1 = *report;
        let ghost l1 = lists@;
        let s: usize = m.sources[n - 1 - k];
        proof {
            assert(source_of(m.sources@, k as int) == s);
            if s == m.target {
                assert(m.sources@.contains(s));
            }
            assert(mid[s as int] == was[s as int]);
        }
        let done = fill(router, m, s, report);
        let ghost now = router.volumes@;
        proof {
            let si = s as int;
            let pair = set![si, ti];
            assert(pair.subset_of(touched)) by {
                assert(m.sources@[n - 1 - k] == s);
            }
            lemma_touch_more(was, mid, now, touched, pair);
            storage::lemma_added_twice(
                was[ti].storage.log(),
                mid[ti].storage.log(),
                now[ti].storage.log(),
            );
            transfer::lemma_grown(
                was[ti].storage.log(),
                mid[ti].storage.log(),
                now[ti].storage.log(),
            );
            let v1 = calls_at(was, mid, ti);
            let v2 = calls_at(was, now, ti);
            assert(v2.subrange(v1.len() as int, v2.len() as int) =~= calls_at(mid, now, ti));
            assert(calls_at(was, now, si) == calls_at(mid, now, si));
            lemma_only_moving_more(v1, calls_at(mid, now, ti), table, rule);
            assert(sourced(was, now, m.sources@, m.target)) by {
                lemma_sourced_more(was, mid, now, m.sources@, m.target, n - 1 - k);
            }
            assert(gentle_to(was, now, m.sources@, m.target)) by {
                assert forall|q: int| 0 <= q < n implies transfer::gentle(
                    calls_at(was, now, (#[trigger] m.sources@[q]) as int),
                    v2,
                ) by {
                    let dv = calls_at(mid, now, ti);
                    let x = m.sources@[q] as int;
                    assert(transfer::gentle(calls_at(was, mid, x), v1));
                    if x == si {
                        storage::lemma_added_none(was[si].storage.log());
                        transfer::lemma_gentle_concat(
                            Seq::empty(),
                            v1,
                            calls_at(mid, now, si),
                            dv,
                        );
                        assert(Seq::<Call>::empty() + calls_at(mid, now, si) =~= calls_at(
                            mid,
                            now,
                            si,
                        ));
                    } else {
                        assert(m.sources@.contains(m.sources@[q]));
                        assert(now[x] == mid[x]);
                        transfer::lemma_gentle_concat(
                            calls_at(was, mid, x),
                            v1,
                            Seq::empty(),
                            dv,
                        );
                        assert(calls_at(was, mid, x) + Seq::<Call>::empty() =~= calls_at(
                            was,
                            mid,
                            x,
                        ));
                    }
                }
            }
        }
        match done {
            Ok(list) => {
                proof {
                    let v1 = calls_at(was, mid, ti);
                    let v2 = calls_at(was, now, ti);
                    let dv = calls_at(mid, now, ti);
                    lemma_filled_suffix(
                        calls_at(was, now, s as int),
                        v1,
                        dv,
                        table,
                        rule,
                        order::views_of(list@),
                    );
                    assert(v2 == v1 + dv);
                    assert forall|j: int| 0 <= j < k implies filled_from(
                        calls_at(was, now, source_of(m.sources@, j)),
                        v2,
                        table,
                        rule,
                        order::views_of((#[trigger] l1[j])@),
                    ) by {
                        let q = source_of(m.sources@, j);
                        assert(m.sources@[n - 1 - j] != m.sources@[n - 1 - k]);
                        assert(m.sources@.contains(m.sources@[n - 1 - j]));
                        assert(now[q] == mid[q]);
                        lemma_filled_more(
                            calls_at(was, mid, q),
                            v1,
                            v2,
                            table,
                            rule,
                            order::views_of(l1[j]@),
                        );
                    }
                    transfer::lemma_count_concat(v1, dv);
                    assert(l1.push(list).drop_last() =~= l1);
                }
                let ghost lv = list;
                lists.push(list);
                proof {
                    assert forall|j: int| k + 1 <= j < n implies #[trigger] now[source_of(
                        m.sources@,
                        j,
                    )] == was[source_of(m.sources@, j)] by {
                        let q = source_of(m.sources@, j);
                        assert(m.sources@[n - 1 - j] != m.sources@[n - 1 - k]);
                        assert(m.sources@.contains(m.sources@[n - 1 - j]));
                        assert(mid[q] == was[q]);
                    }
                    assert forall|j: int| 0 <= j < k + 1 implies filled_from(
                        calls_at(was, now, source_of(m.sources@, j)),
                        calls_at(was, now, ti),
                        table,
                        rule,
                        order::views_of((#[trigger] lists@[j])@),
                    ) by {
                        if j < k {
                            assert(lists@[j] == l1[j]);
                        } else {
                            assert(lists@[j] == lv);
                        }
                    }
                }
            },
            Err(e) => {
                proof {
                    let v1 = calls_at(was, mid, ti);
                    let v2 = calls_at(was, now, ti);
                    transfer::lemma_count_concat(v1, calls_at(mid, now, ti));
                    assert(m.sources@[n - 1 - k] == s);
                    assert(fill_failed(
                        calls_at(was, now, m.sources@[n - 1 - k] as int),
                        v2.subrange(v1.len() as int, v2.len() as int),
                        e,
                    ));
                }
                return Err(e);
            },
        }
        k = k + 1;
    }
    Ok(lists)
}

/// What was filled by the later calls at the target is filled by all of them.
proof fn lemma_filled_suffix(
    u: Seq<Call>,
    v1: Seq<Call>,
    dv: Seq<Call>,
    rules: Seq<RuleView>,
    rule: int,
    list: Seq<Seq<char>>,
)
    requires
        filled_from(u, dv, rules, rule, list),
    ensures
        filled_from(u, v1 + dv, rules, rule, list),
{
    let v2 = v1 + dv;
    let n = v1.len() as int;
    assert forall|k: int| 0 <= k < list.len() implies copied_within(u, v2, #[trigger] list[k]) by {
        let repo = list[k];
        let (a, b, c, d) = choose|a: int, b: int, c: int, d: int|
            0 <= a <= b <= u.len() && 0 <= c <= d <= dv.len() && #[trigger] repo_copied(
                u.subrange(a, b),
                dv.subrange(c, d),
                repo,
            );
        assert(v2.subrange(n + c, n + d) =~= dv.subrange(c, d));
        assert(repo_copied(u.subrange(a, b), v2.subrange(n + c, n + d), repo));
    }
}

// ---- Drain ----------------------------------------------------------------

/// The failure with which a call ends a drain's deletions.
pub open spec fn purge_fatal(c: Call) -> Option<StorageError> {
    match c {
        Call::ListTags { reply: Err(e), .. } => Some(e),
        Call::ListManifestDigests { reply: Err(e), .. } => Some(e),
        Call::ManifestDelete { reply: Err(e), .. } => if e == StorageError::NotFound {
            None
        } else {
            Some(e)
        },
        _ => None,
    }
}

pub open spec fn purge_fine(t: Seq<Call>) -> bool {
    forall|i: int| 0 <= i < t.len() ==> purge_fatal(#[trigger] t[i]) is None
}

/// `t` deletes the manifests of `repo`: lists its tags and deletes each, then lists
/// its manifests and deletes each.
pub open spec fn purged(t: Seq<Call>, repo: Seq<char>) -> bool {
    &&& purge_fine(t)
    &&& t.len() > 0
    &&& t[0] matches Call::ListTags { repo: r0, reply: Ok(tags) } && {
        let n = tags.len() as int;
        &&& r0 == repo
        &&& t.len() > n + 1
        &&& forall|i: int|
            0 <= i < n ==> (#[trigger] t[1 + i] matches Call::ManifestDelete {
                repo: r,
                reference,
                ..
            } && r == repo && reference == ReferenceView::Tag(tags[i]))
        &&& t[n + 1] matches Call::ListManifestDigests { repo: r1, reply: Ok(ds) } && {
            &&& r1 == repo
            &&& t.len() == n + 2 + ds.len()
            &&& forall|i: int|
                0 <= i < ds.len() ==> (#[trigger] t[n + 2 + i] matches Call::ManifestDelete {
                    repo: r,
                    reference,
                    ..
                } && r == repo && reference == ReferenceView::Digest(ds[i]))
        }
    }
}

/// The calls end with the fatal failure `e`.
pub open spec fn purge_failed(t: Seq<Call>, e: StorageError) -> bool {
    t.len() > 0 && purge_fatal(t.last()) == Some(e) && purge_fine(t.drop_last())
}

proof fn lemma_purge_push(t: Seq<Call>, c: Call)
    requires
        purge_fine(t),
    ensures
        purge_fatal(c) is None ==> purge_fine(t.push(c)),
        purge_fatal(c) matches Some(e) ==> purge_failed(t.push(c), e),
{
    let x = t.push(c);
    assert(x.drop_last() =~= t);
    if purge_fatal(c) is None {
        assert forall|i: int| 0 <= i < x.len() implies purge_fatal(#[trigger] x[i]) is None by {
            if i < t.len() {
                assert(x[i] == t[i]);
            }
        }
    }
}

/// Deletes every tag and every manifest of a repository.
fn purge_repo_manifests<S: Storage>(store: &mut S, repo: &str) -> (r: Result<(), StorageError>)
    requires
        old(store).wf(),
    ensures
        final(store).wf(),
        final(store).origin() == old(store).origin(),
        storage::extends(old(store).log(), final(store).log()),
        match r {
            Ok(_) => purged(storage::added(old(store).log(), final(store).log()), repo@),
            Err(e) => purge_failed(storage::added(old(store).log(), final(store).log()), e),
        },
{
    let ghost start = store.log();
    proof {
        storage::lemma_added_none(start);
    }
    let listed = store.list_tags(repo);
    let ghost c0 = store.log().last();
    proof {
        storage::lemma_added_push(start, start, c0);
        lemma_purge_push(Seq::empty(), c0);
        assert(storage::added(start, store.log())[0] == c0);
    }
    let tags = match listed {
        Ok(v) => v,
        Err(e) => return Err(e),
    };
    let ghost tv = order::views_of(tags@);
    let mut i: usize = 0;
    while i < tags.len()
        invariant
            i <= tags@.len(),
            tv == order::views_of(tags@),
            start == old(store).log(),
            store.wf(),
            store.origin() == old(store).origin(),
            storage::extends(start, store.log()),
            purge_fine(storage::added(start, store.log())),
            ({
                let t = storage::added(start, store.log());
                &&& t.len() == 1 + i
                &&& t[0] == (Call::ListTags { repo: repo@, reply: Ok(tv) })
                &&& forall|j: int|
                    0 <= j < i ==> (#[trigger] t[1 + j] matches Call::ManifestDelete {
                        repo: r,
                        reference,
                        ..
                    } && r == repo@ && reference == ReferenceView::Tag(tv[j]))
            }),
        decreases tags@.len() - i,
    {
        let ghost was = store.log();
        let ghost t1 = storage::added(start, was);
        let reference = Reference::Tag(tags[i].clone());
        let gone = store.manifest_delete(repo, &reference);
        proof {
            let c = store.log().last();
            assert(store.log() == was.push(c));
            storage::lemma_added_push(start, was, c);
            lemma_purge_push(t1, c);
            let t2 = t1.push(c);
            assert forall|j: int| 0 <= j < i + 1 implies (#[trigger] t2[1 + j] matches Call::ManifestDelete {
                repo: r,
                reference,
                ..
            } && r == repo@ && reference == ReferenceView::Tag(tv[j])) by {
                if j < i {
                    assert(t2[1 + j] == t1[1 + j]);
                }
            }
        }
        match gone {
            Ok(()) => {},
            Err(StorageError::NotFound) => {},
            Err(e) => return Err(e),
        }
        i = i + 1;
    }
    let ghost mid = store.log();
    let ghost head = storage::added(start, mid);
    let all = store.list_manifest_digests(repo);
    let ghost c1 = store.log().last();
    proof {
        storage::lemma_added_push(start, mid, c1);
        lemma_purge_push(head, c1);
    }
    let ds = match all {
        Ok(v) => v,
        Err(e) => return Err(e),
    };
    let ghost dv = order::views_of(ds@);
    let ghost n = tv.len() as int;
    proof {
        let t = head.push(c1);
        assert forall|j: int| 0 <= j < n implies (#[trigger] t[1 + j] matches Call::ManifestDelete {
            repo: r,
            reference,
            ..
        } && r == repo@ && reference == ReferenceView::Tag(tv[j])) by {
            assert(t[1 + j] == head[1 + j]);
        }
    }
    let mut k: usize = 0;
    while k < ds.len()
        invariant
            k <= ds@.len(),
            dv == order::views_of(ds@),
            n == tv.len(),
            start == old(store).log(),
            store.wf(),
            store.origin() == old(store).origin(),
            storage::extends(start, store.log()),
            purge_fine(storage::added(start, store.log())),
            ({
                let t = storage::added(start, store.log());
                &&& t.len() == n + 2 + k
                &&& t[0] == (Call::ListTags { repo: repo@, reply: Ok(tv) })
                &&& forall|j: int|
                    0 <= j < n ==> (#[trigger] t[1 + j] matches Call::ManifestDelete {
                        repo: r,
                        reference,
                        ..
                    } && r == repo@ && reference == ReferenceView::Tag(tv[j]))
                &&& t[n + 1] == (Call::ListManifestDigests { repo: repo@, reply: Ok(dv) })
                &&& forall|j: int|
                    0 <= j < k ==> (#[trigger] t[n + 2 + j] matches Call::ManifestDelete {
                        repo: r,
                        reference,
                        ..
                    } && r == repo@ && reference == ReferenceView::Digest(dv[j]))
            }),
        decreases ds@.len() - k,
    {
        let ghost was = store.log();
        let ghost t1 = storage::added(start, was);
        let reference = Reference::Digest(ds[k].dup());
        let gone = store.manifest_delete(repo, &reference);
        proof {
            let c = store.log().last();
            assert(store.log() == was.push(c));
            storage::lemma_added_push(start, was, c);
            lemma_purge_push(t1, c);
            let t2 = t1.push(c);
            assert forall|j: int| 0 <= j < n implies (#[trigger] t2[1 + j] matches Call::ManifestDelete {
                repo: r,
                reference,
                ..
            } && r == repo@ && reference == ReferenceView::Tag(tv[j])) by {
                assert(t2[1 + j] == t1[1 + j]);
            }
            assert forall|j: int| 0 <= j < k + 1 implies (#[trigger] t2[n + 2 + j] matches Call::ManifestDelete {
                repo: r,
                reference,
                ..
            } && r == repo@ && reference == ReferenceView::Digest(dv[j])) by {
                if j < k {
                    assert(t2[n + 2 + j] == t1[n + 2 + j]);
                }
            }
        }
        match gone {
            Ok(()) => {},
            Err(StorageError::NotFound) => {},
            Err(e) => return Err(e),
        }
        k = k + 1;
    }
    Ok(())
}

/// `t` deletes the manifests of the repositories, one after the other.
pub open spec fn all_purged(t: Seq<Call>, repos: Seq<Seq<char>>) -> bool
    decreases repos.len(),
{
    if repos.len() == 0 {
        t.len() == 0
    } else {
        exists|n: int|
            0 <= n <= t.len() && #[trigger] purged(t.subrange(n, t.len() as int), repos.last())
                && all_purged(t.subrange(0, n), repos.drop_last())
    }
}

/// `t` drains a volume: deletes the manifests of the repositories, then collects.
pub open spec fn drained(t: Seq<Call>, repos: Seq<Seq<char>>, g: gc::GcReport) -> bool {
    exists|n: int|
        0 <= n <= t.len() && #[trigger] gc::collected(t.subrange(n, t.len() as int), g)
            && all_purged(t.subrange(0, n), repos)
}

/// A drain that failed: a deletion did, or the collection.
pub open spec fn drain_failed(t: Seq<Call>, e: StorageError) -> bool {
    exists|n: int| #![trigger t.subrange(n, t.len() as int)]
        0 <= n <= t.len() && (purge_failed(t.subrange(n, t.len() as int), e) || gc::ended_by(
            t.subrange(n, t.len() as int),
            e,
        ))
}

/// Deletes the manifests of the repositories from a store and collects its garbage.
pub fn drain_store<S: Storage>(store: &mut S, repos: &Vec<String>) -> (r: Result<
    gc::GcReport,
    StorageError,
>)
    requires
        old(store).wf(),
    ensures
        final(store).wf(),
        final(store).origin() == old(store).origin(),
        storage::extends(old(store).log(), final(store).log()),
        match r {
            Ok(g) => drained(
                storage::added(old(store).log(), final(store).log()),
                order::views_of(repos@),
                g,
            ),
            Err(e) => drain_failed(storage::added(old(store).log(), final(store).log()), e),
        },
{
    let ghost start = store.log();
    let ghost rv = order::views_of(repos@);
    proof {
        storage::lemma_added_none(start);
        assert(rv.take(0) =~= Seq::<Seq<char>>::empty());
    }
    let mut i: usize = 0;
    while i < repos.len()
        invariant
            i <= repos@.len(),
            rv == order::views_of(repos@),
            start == old(store).log(),
            store.wf(),
            store.origin() == old(store).origin(),
            storage::extends(start, store.log()),
            all_purged(storage::added(start, store.log()), rv.take(i as int)),
        decreases repos@.len() - i,
    {
        let ghost was = store.log();
        let done = purge_repo_manifests(store, repos[i].as_str());
        proof {
            storage::lemma_added_twice(start, was, store.log());
            let a = storage::added(start, was);
            let b = storage::added(start, store.log());
            let n = a.len() as int;
            assert(b.subrange(n, b.len() as int) =~= storage::added(was, store.log()));
            assert(b.subrange(0, n) =~= a);
            assert(rv.take(i + 1).drop_last() =~= rv.take(i as int));
            assert(rv.take(i + 1).last() == repos@[i as int]@);
        }
        match done {
            Ok(()) => {
                proof {
                    let a = storage::added(start, was);
                    let b = storage::added(start, store.log());
                    assert(purged(
                        b.subrange(a.len() as int, b.len() as int),
                        rv.take(i + 1).last(),
                    ));
                }
            },
            Err(e) => {
                proof {
                    let a = storage::added(start, was);
                    let b = storage::added(start, store.log());
                    assert(purge_failed(b.subrange(a.len() as int, b.len() as int), e));
                }
                return Err(e);
            },
        }
        i = i + 1;
    }
    assert(rv.take(i as int) =~= rv);
    let ghost mid = store.log();
    let done = gc::run(store);
    proof {
        storage::lemma_added_twice(start, mid, store.log());
        let a = storage::added(start, mid);
        let b = storage::added(start, store.log());
        let n = a.len() as int;
        assert(b.subrange(n, b.len() as int) =~= storage::added(mid, store.log()));
        assert(b.subrange(0, n) =~= a);
        if done is Ok {
            assert(gc::collected(b.subrange(n, b.len() as int), done->Ok_0));
        } else {
            assert(gc::ended_by(b.subrange(n, b.len() as int), done->Err_0));
        }
    }
    done
}

pub open spec fn total_purged(gs: Seq<gc::GcReport>) -> nat
    decreases gs.len(),
{
    if gs.len() == 0 {
        0
    } else {
        total_purged(gs.drop_last()) + gs.last().deleted_blobs as nat
    }
}

pub open spec fn total_freed(gs: Seq<gc::GcReport>) -> nat
    decreases gs.len(),
{
    if gs.len() == 0 {
        0
    } else {
        total_freed(gs.drop_last()) + gs.last().deleted_bytes as nat
    }
}

/// The sources as a set of places.
pub open spec fn source_set(sources: Seq<usize>) -> Set<int> {
    Set::new(|i: int| exists|k: int| 0 <= k < sources.len() && sources[k] == i)
}

/// Every source is drained of what was copied from it; `gs` are the reports of the
/// collections.
pub open spec fn all_drained<S: Storage>(
    was: Seq<Partition<S>>,
    now: Seq<Partition<S>>,
    sources: Seq<usize>,
    lists: Seq<Vec<String>>,
    gs: Seq<gc::GcReport>,
) -> bool {
    &&& gs.len() == sources.len()
    &&& lists.len() == sources.len()
    &&& only_touched(was, now, source_set(sources))
    &&& forall|j: int|
        0 <= j < gs.len() ==> drained(
            calls_at(was, now, source_of(sources, j)),
            order::views_of(lists[j]@),
            #[trigger] gs[j],
        )
}

/// `r1` is `r0` with the numbers of a drain.
pub open spec fn drain_counted(
    r0: MigrateReport,
    r1: MigrateReport,
    gs: Seq<gc::GcReport>,
) -> bool {
    r1 == (MigrateReport {
        blobs_purged: storage::sat_count(r0.blobs_purged as nat + total_purged(gs)),
        bytes_purged: storage::sat(r0.bytes_purged as nat + total_freed(gs)),
        ..r0
    })
}

/// Drains every source of what was copied from it.
#[verifier::spinoff_prover]
#[verifier::rlimit(40)]
pub fn drain<S: Storage>(
    router: &mut RepoRouter<S>,
    m: &Migration,
    lists: &Vec<Vec<String>>,
    report: &mut MigrateReport,
) -> (r: Result<(), StorageError>)
    requires
        old(router).wf(),
        m.fits(*old(router)),
        lists@.len() == m.sources@.len(),
    ensures
        final(router).wf(),
        m.fits(*final(router)),
        final(router).rules == old(router).rules,
        final(router).record == old(router).record,
        final(router).trail == old(router).trail,
        only_touched(old(router).volumes@, final(router).volumes@, source_set(m.sources@)),
        match r {
            Ok(_) => exists|gs: Seq<gc::GcReport>| #[trigger]
                all_drained(
                    old(router).volumes@,
                    final(router).volumes@,
                    m.sources@,
                    lists@,
                    gs,
                ) && drain_counted(*old(report), *final(report), gs),
            Err(e) => exists|gs: Seq<gc::GcReport>|
                gs.len() < m.sources@.len() && #[trigger] drain_counted(
                    *old(report),
                    *final(report),
                    gs,
                ) && drain_failed(
                    calls_at(
                        old(router).volumes@,
                        final(router).volumes@,
                        source_of(m.sources@, gs.len() as int),
                    ),
                    e,
                ),
        },
{
    let ghost was = router.volumes@;
    let ghost touched = source_set(m.sources@);
    let n: usize = m.sources.len();
    let ghost mut gs: Seq<gc::GcReport> = Seq::empty();
    let mut k: usize = 0;
    proof {
        assert forall|i: int| 0 <= i < was.len() implies storage::extends(
            #[trigger] was[i].storage.log(),
            was[i].storage.log(),
        ) by {
            storage::lemma_added_none(was[i].storage.log());
        }
    }
    while k < n
        invariant
            k <= n,
            n == m.sources@.len(),
            lists@.len() == n,
            was == old(router).volumes@,
            touched == source_set(m.sources@),
            router.wf(),
            m.fits(*router),
            router.rules == old(router).rules,
            router.record == old(router).record,
            router.trail == old(router).trail,
            only_touched(was, router.volumes@, touched),
            gs.len() == k,
            forall|j: int|
                k <= j < n ==> #[trigger] router.volumes@[source_of(m.sources@, j)]
                    == was[source_of(m.sources@, j)],
            forall|j: int|
                0 <= j < k ==> drained(
                    calls_at(was, router.volumes@, source_of(m.sources@, j)),
                    order::views_of(lists@[j]@),
                    #[trigger] gs[j],
                ),
            drain_counted(*old(report), *report, gs),
        decreases n - k,
    {
        let ghost mid = router.volumes@;
        let s: usize = m.sources[n - 1 - k];
        proof {
            assert(source_of(m.sources@, k as int) == s);
            assert(mid[s as int] == was[s as int]);
        }
        let done = drain_store(&mut router.volumes[s].storage, &lists[k]);
        let ghost now = router.volumes@;
        proof {
            let si = s as int;
            assert forall|i: int| 0 <= i < mid.len() implies (#[trigger] now[i]).name == mid[i].name
                && storage::extends(mid[i].storage.log(), now[i].storage.log())
                && now[i].storage.wf() by {
                if i != si {
                    assert(now[i] == mid[i]);
                    storage::lemma_added_none(mid[i].storage.log());
                }
            }
            assert(only_touched(mid, now, set![si]));
            assert(set![si].subset_of(touched)) by {
                assert(m.sources@[n - 1 - k] == s);
            }
            lemma_touch_more(was, mid, now, touched, set![si]);
        }
        match done {
            Ok(g) => {
                report.blobs_purged = report.blobs_purged.saturating_add(g.deleted_blobs);
                report.bytes_purged = report.bytes_purged.saturating_add(g.deleted_bytes);
                proof {
                    let before = gs;
                    gs = gs.push(g);
                    assert(gs.drop_last() =~= before);
                    assert forall|j: int| k + 1 <= j < n implies #[trigger] now[source_of(
                        m.sources@,
                        j,
                    )] == was[source_of(m.sources@, j)] by {
                        assert(m.sources@[n - 1 - j] != m.sources@[n - 1 - k]);
                        assert(mid[source_of(m.sources@, j)] == was[source_of(m.sources@, j)]);
                    }
                    assert forall|j: int| 0 <= j < k + 1 implies drained(
                        calls_at(was, now, source_of(m.sources@, j)),
                        order::views_of(lists@[j]@),
                        #[trigger] gs[j],
                    ) by {
                        if j < k {
                            assert(m.sources@[n - 1 - j] != m.sources@[n - 1 - k]);
                            assert(now[source_of(m.sources@, j)] == mid[source_of(m.sources@, j)]);
                            assert(gs[j] == before[j]);
                        }
                    }
                }
            },
            Err(e) => {
                proof {
                    assert(drain_failed(
                        calls_at(was, now, source_of(m.sources@, gs.len() as int)),
                        e,
                    ));
                    assert(drain_counted(*old(report), *report, gs));
                }
                return Err(e);
            },
        }
        k = k + 1;
    }
    assert(all_drained(was, router.volumes@, m.sources@, lists@, gs));
    Ok(())
}

// ---- The whole move -------------------------------------------------------

/// A migration that went through, of the rule at `rule` from `sources` to `new`. The
/// volumes were `mid` when the backfill was done; after that only a drain touched
/// them.
pub open spec fn moved<S: Storage>(
    was: RepoRouter<S>,
    now: RepoRouter<S>,
    pattern: Seq<char>,
    new: usize,
    drains: bool,
    report: MigrateReport,
    rule: int,
    mid: Seq<Partition<S>>,
    lists: Seq<Vec<String>>,
) -> bool {
    let sources = repo_router::without(was.table()[rule].chain, new);
    let overlay = repo_router::upserted(was.table(), pattern, seq![new] + sources);
    &&& repo_router::first_with_pattern(was.table(), pattern, rule)
    &&& was.table()[rule].chain != seq![new]
    &&& now.table() == repo_router::upserted(overlay, pattern, seq![new])
    &&& backfilled(was.volumes@, mid, overlay, rule, sources, new, lists)
    &&& exists|filled: MigrateReport| #[trigger]
        filled_report(filled, lists, calls_at(was.volumes@, mid, new as int)) && if drains {
            exists|gs: Seq<gc::GcReport>| #[trigger]
                all_drained(mid, now.volumes@, sources, lists, gs) && drain_counted(
                    MigrateReport { cutover: true, ..filled },
                    report,
                    gs,
                )
        } else {
            now.volumes@ == mid && report == (MigrateReport { cutover: true, ..filled })
        }
}

/// The report of a backfill from a blank one.
pub open spec fn filled_report(
    filled: MigrateReport,
    lists: Seq<Vec<String>>,
    v: Seq<Call>,
) -> bool {
    exists|r0: MigrateReport| #[trigger] r0.blank() && backfill_counted(r0, filled, lists, v)
}

/// How a migration of the rule with exactly this pattern to the volume `new` went.
pub open spec fn migrated<S: Storage>(
    was: RepoRouter<S>,
    now: RepoRouter<S>,
    pattern: Seq<char>,
    new: usize,
    drains: bool,
    r: Result<MigrateReport, StorageError>,
) -> bool {
    match r {
        Ok(report) => {
            ||| already_there(was, now, pattern, new) && report.blank()
            ||| exists|rule: int, mid: Seq<Partition<S>>, lists: Seq<Vec<String>>| #[trigger]
                moved(was, now, pattern, new, drains, report, rule, mid, lists)
        },
        Err(e) => {
            ||| no_such_rule(was, now, pattern, e)
            ||| exists|rule: int| #[trigger] left_on_overlay(was, now, pattern, new, rule, e)
            ||| drains && exists|rule: int, mid: Seq<Partition<S>>| #[trigger]
                left_undrained(was, now, pattern, new, rule, mid, e)
        },
    }
}

/// The rule was on the volume `new` alone already, and nothing was done.
pub open spec fn already_there<S: Storage>(
    was: RepoRouter<S>,
    now: RepoRouter<S>,
    pattern: Seq<char>,
    new: usize,
) -> bool {
    &&& exists|i: int| #[trigger]
        repo_router::first_with_pattern(was.table(), pattern, i) && was.table()[i].chain == seq![
            new,
        ]
    &&& now.rules == was.rules
    &&& now.volumes == was.volumes
}

/// There is no rule with this pattern, and nothing was done.
pub open spec fn no_such_rule<S: Storage>(
    was: RepoRouter<S>,
    now: RepoRouter<S>,
    pattern: Seq<char>,
    e: StorageError,
) -> bool {
    &&& !repo_router::has_pattern(was.table(), pattern)
    &&& (e matches StorageError::Invalid(m) && m@ == "no route rule with pattern "@
        + text::debug_text(pattern))
    &&& now.rules == was.rules
    &&& now.volumes == was.volumes
}

// A migration goes through three states, each of which is the only way to the next. The
// rules may be in use meanwhile: they are needed only where they change, and the copying
// and the drain may work on another router over the same volumes.

/// A migration whose rule is on the overlay.
#[derive(Debug)]
pub struct Overlaid {
    pub m: Migration,
    pub drains: bool,
}

/// A migration whose repositories were copied.
#[derive(Debug)]
pub struct Filled {
    pub m: Migration,
    pub drains: bool,
    /// The names that were copied from each source.
    pub lists: Vec<Vec<String>>,
    pub report: MigrateReport,
}

/// A migration whose rule is on the new volume.
#[derive(Debug)]
pub struct CutOver {
    pub m: Migration,
    pub drains: bool,
    pub lists: Vec<Vec<String>>,
    pub report: MigrateReport,
}

/// The rule with exactly this pattern was put on the overlay; or it points at the volume
/// `new` alone already, or there is none, and nothing was done.
pub open spec fn started<S>(
    was: RepoRouter<S>,
    now: RepoRouter<S>,
    pattern: Seq<char>,
    new: usize,
    drains: bool,
    r: Result<Option<Overlaid>, StorageError>,
) -> bool {
    &&& now.volumes == was.volumes
    &&& now.record == was.record
    &&& now.trail == was.trail
    &&& match r {
        Err(e) => {
            &&& !repo_router::has_pattern(was.table(), pattern)
            &&& (e matches StorageError::Invalid(m) && m@ == "no route rule with pattern "@
                + text::debug_text(pattern))
            &&& now.rules == was.rules
        },
        Ok(None) => {
            &&& exists|i: int| #[trigger]
                repo_router::first_with_pattern(was.table(), pattern, i) && was.table()[i].chain
                    == seq![new]
            &&& now.rules == was.rules
        },
        Ok(Some(x)) => {
            let i = x.m.rule as int;
            &&& x.drains == drains
            &&& x.m.fits(now)
            &&& x.m.pattern@ == pattern
            &&& x.m.target == new
            &&& repo_router::first_with_pattern(was.table(), pattern, i)
            &&& was.table()[i].chain != seq![new]
            &&& x.m.sources@ == repo_router::without(was.table()[i].chain, new)
            &&& now.table() == repo_router::upserted(
                was.table(),
                pattern,
                seq![new] + x.m.sources@,
            )
        },
    }
}

/// Puts the rule with exactly this pattern on the overlay. Gives nothing to do where it
/// points at the volume `new` alone already.
pub fn start<S>(router: &mut RepoRouter<S>, pattern: &str, new: usize, drains: bool) -> (r: Result<
    Option<Overlaid>,
    StorageError,
>)
    requires
        old(router).ruled(),
        new < old(router).volumes@.len(),
    ensures
        final(router).ruled(),
        started(*old(router), *final(router), pattern@, new, drains, r),
{
    match begin(router, pattern, new) {
        Err(e) => Err(e),
        Ok(None) => Ok(None),
        Ok(Some(m)) => Ok(Some(Overlaid { m, drains })),
    }
}

/// The same rules, with the volume of this name at `new`.
pub open spec fn with_volume<S>(
    was: RepoRouter<S>,
    now: RepoRouter<S>,
    volume: Partition<S>,
    new: usize,
) -> bool {
    &&& now.rules == was.rules
    &&& now.record == was.record
    &&& now.trail == was.trail
    &&& repo_router::placed_at(was.volumes@, now.volumes@, volume, new)
}

/// Starts a migration to a volume, which is added unless there is one of its name.
pub fn start_at<S>(
    router: &mut RepoRouter<S>,
    volume: Partition<S>,
    pattern: &str,
    drains: bool,
) -> (r: Result<Option<Overlaid>, StorageError>)
    requires
        old(router).ruled(),
    ensures
        final(router).ruled(),
        exists|w: RepoRouter<S>, new: usize|
            with_volume(*old(router), w, volume, new) && #[trigger] started(
                w,
                *final(router),
                pattern@,
                new,
                drains,
                r,
            ),
{
    let new: usize = router.place(volume);
    let ghost w = *router;
    let r = start(router, pattern, new, drains);
    assert(with_volume(*old(router), w, volume, new));
    assert(started(w, *router, pattern@, new, drains, r));
    r
}

impl Overlaid {
    /// Copies every repository that moves.
    pub fn fill<S: Storage>(self, router: &mut RepoRouter<S>) -> (r: Result<Filled, StorageError>)
        requires
            old(router).wf(),
            self.m.fits(*old(router)),
        ensures
            final(router).wf(),
            self.m.fits(*final(router)),
            final(router).rules == old(router).rules,
            final(router).record == old(router).record,
            final(router).trail == old(router).trail,
            match r {
                Ok(x) => {
                    &&& x.m == self.m
                    &&& x.drains == self.drains
                    &&& backfilled(
                        old(router).volumes@,
                        final(router).volumes@,
                        old(router).table(),
                        self.m.rule as int,
                        self.m.sources@,
                        self.m.target,
                        x.lists@,
                    )
                    &&& filled_report(
                        x.report,
                        x.lists@,
                        calls_at(
                            old(router).volumes@,
                            final(router).volumes@,
                            self.m.target as int,
                        ),
                    )
                },
                Err(e) => {
                    &&& backfill_failed(
                        old(router).volumes@,
                        final(router).volumes@,
                        self.m.sources@,
                        self.m.target,
                        e,
                    )
                    &&& only_moving(
                        calls_at(
                            old(router).volumes@,
                            final(router).volumes@,
                            self.m.target as int,
                        ),
                        old(router).table(),
                        self.m.rule as int,
                    )
                },
            },
    {
        let mut report = MigrateReport::default();
        let ghost r0 = report;
        match backfill(router, &self.m, &mut report) {
            Err(e) => Err(e),
            Ok(lists) => {
                assert(r0.blank());
                Ok(Filled { m: self.m, drains: self.drains, lists, report })
            },
        }
    }
}

impl Filled {
    /// Points the rule at the new volume alone.
    pub fn cut_over<S>(self, router: &mut RepoRouter<S>) -> (r: CutOver)
        requires
            self.m.fits(*old(router)),
        ensures
            self.m.fits(*final(router)),
            final(router).volumes == old(router).volumes,
            final(router).record == old(router).record,
            final(router).trail == old(router).trail,
            final(router).table() == repo_router::upserted(
                old(router).table(),
                self.m.pattern@,
                seq![self.m.target],
            ),
            r.m == self.m,
            r.drains == self.drains,
            r.lists == self.lists,
            r.report == (MigrateReport { cutover: true, ..self.report }),
    {
        finish(router, &self.m);
        let mut report = self.report;
        report.cutover = true;
        CutOver { m: self.m, drains: self.drains, lists: self.lists, report }
    }
}

impl CutOver {
    /// Reclaims the old volumes where that is asked for.
    pub fn reclaim<S: Storage>(self, router: &mut RepoRouter<S>) -> (r: Result<
        MigrateReport,
        StorageError,
    >)
        requires
            old(router).wf(),
            self.m.fits(*old(router)),
            self.lists@.len() == self.m.sources@.len(),
        ensures
            final(router).wf(),
            final(router).rules == old(router).rules,
            final(router).record == old(router).record,
            final(router).trail == old(router).trail,
            only_touched(
                old(router).volumes@,
                final(router).volumes@,
                source_set(self.m.sources@),
            ),
            match r {
                Ok(report) => if self.drains {
                    exists|gs: Seq<gc::GcReport>| #[trigger]
                        all_drained(
                            old(router).volumes@,
                            final(router).volumes@,
                            self.m.sources@,
                            self.lists@,
                            gs,
                        ) && drain_counted(self.report, report, gs)
                } else {
                    *final(router) == *old(router) && report == self.report
                },
                Err(e) => self.drains && exists|k: int|
                    0 <= k < self.m.sources@.len() && #[trigger] drain_failed(
                        calls_at(
                            old(router).volumes@,
                            final(router).volumes@,
                            source_of(self.m.sources@, k),
                        ),
                        e,
                    ),
            },
    {
        let mut report = self.report;
        if self.drains {
            match drain(router, &self.m, &self.lists, &mut report) {
                Ok(()) => {},
                Err(e) => return Err(e),
            }
        } else {
            proof {
                let v = router.volumes@;
                assert forall|i: int| 0 <= i < v.len() implies storage::extends(
                    (#[trigger] v[i]).storage.log(),
                    v[i].storage.log(),
                ) by {
                    storage::lemma_added_none(v[i].storage.log());
                }
            }
        }
        Ok(report)
    }
}

/// Moves every repository that the rule with exactly this pattern decides to the
/// volume `new`, and the rule with them. With `drains`, the old volumes are
/// reclaimed.
pub fn run<S: Storage>(router: &mut RepoRouter<S>, pattern: &str, new: usize, drains: bool) -> (r:
    Result<MigrateReport, StorageError>)
    requires
        old(router).wf(),
        new < old(router).volumes@.len(),
    ensures
        final(router).wf(),
        final(router).record == old(router).record,
        final(router).trail == old(router).trail,
        migrated(*old(router), *final(router), pattern@, new, drains, r),
{
    let ghost was = *router;
    let overlaid = match start(router, pattern, new, drains) {
        Err(e) => return Err(e),
        Ok(None) => return Ok(MigrateReport::default()),
        Ok(Some(x)) => x,
    };
    let ghost rule = overlaid.m.rule as int;
    let filled = match overlaid.fill(router) {
        Ok(x) => x,
        Err(e) => {
            assert(left_on_overlay(was, *router, pattern@, new, rule, e));
            return Err(e);
        },
    };
    let ghost mid = router.volumes@;
    let ghost lists = filled.lists@;
    let cut = filled.cut_over(router);
    match cut.reclaim(router) {
        Ok(report) => {
            assert(moved(was, *router, pattern@, new, drains, report, rule, mid, lists));
            let r: Result<MigrateReport, StorageError> = Ok(report);
            assert(moved(was, *router, pattern@, new, drains, r->Ok_0, rule, mid, lists));
            assert(migrated(was, *router, pattern@, new, drains, r));
            r
        },
        Err(e) => {
            assert(left_undrained(was, *router, pattern@, new, rule, mid, e));
            Err(e)
        },
    }
}

/// The backfill failed with `e`, and the rule is left on the overlay.
pub open spec fn left_on_overlay<S: Storage>(
    was: RepoRouter<S>,
    now: RepoRouter<S>,
    pattern: Seq<char>,
    new: usize,
    rule: int,
    e: StorageError,
) -> bool {
    let sources = repo_router::without(was.table()[rule].chain, new);
    &&& repo_router::first_with_pattern(was.table(), pattern, rule)
    &&& was.table()[rule].chain != seq![new]
    &&& now.table() == repo_router::upserted(was.table(), pattern, seq![new] + sources)
    &&& backfill_failed(was.volumes@, now.volumes@, sources, new, e)
    &&& only_moving(calls_at(was.volumes@, now.volumes@, new as int), now.table(), rule)
}

/// The rule is on the new volume, and the drain of an old one failed with `e`.
pub open spec fn left_undrained<S: Storage>(
    was: RepoRouter<S>,
    now: RepoRouter<S>,
    pattern: Seq<char>,
    new: usize,
    rule: int,
    mid: Seq<Partition<S>>,
    e: StorageError,
) -> bool {
    let sources = repo_router::without(was.table()[rule].chain, new);
    let overlay = repo_router::upserted(was.table(), pattern, seq![new] + sources);
    &&& repo_router::first_with_pattern(was.table(), pattern, rule)
    &&& was.table()[rule].chain != seq![new]
    &&& now.table() == repo_router::upserted(overlay, pattern, seq![new])
    &&& exists|lists: Seq<Vec<String>>| #[trigger]
        backfilled(was.volumes@, mid, overlay, rule, sources, new, lists)
    &&& only_touched(mid, now.volumes@, source_set(sources))
    &&& exists|k: int|
        0 <= k < sources.len() && #[trigger] drain_failed(
            calls_at(mid, now.volumes@, source_of(sources, k)),
            e,
        )
}

} // verus!
