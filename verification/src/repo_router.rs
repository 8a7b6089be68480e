//! Places repositories on volumes.
//!
//! The router holds an ordered list of glob rules. For each operation it resolves
//! the repository against the rules and dispatches to the volume behind the rule
//! that matches with the longest pattern; among patterns of one length the earliest
//! rule wins, and with no match the last rule does.
//!
//! A rule stands for one volume, or for a chain of volumes while a class of
//! repositories moves: writes go to the first, reads fall through the chain.

use vstd::prelude::*;

use crate::digest::Digest;
use crate::fanout;
use crate::fanout::{Ask, Partition};
use crate::glob;
use crate::order;
use crate::order::Key;
use crate::storage::{Call, Reference, Storage, StorageError, StoredManifest, UploadStatus};
use crate::text;
use crate::trail;
use crate::trail::{Layout, Start, Trail};

verus! {

/// A chain without the volume `v`.
pub open spec fn without(chain: Seq<usize>, v: usize) -> Seq<usize>
    decreases chain.len(),
{
    if chain.len() == 0 {
        chain
    } else {
        let rest = without(chain.drop_last(), v);
        if chain.last() == v {
            rest
        } else {
            rest.push(chain.last())
        }
    }
}

/// What is left of a chain of distinct volumes without `v`.
pub proof fn lemma_without(chain: Seq<usize>, v: usize, n: nat)
    requires
        fanout::places(chain, n),
    ensures
        fanout::places(without(chain, v), n),
        !without(chain, v).contains(v),
        forall|x: usize| #[trigger] without(chain, v).contains(x) <==> chain.contains(x) && x != v,
    decreases chain.len(),
{
    if chain.len() > 0 {
        let head = chain.drop_last();
        lemma_without(head, v, n);
        let rest = without(head, v);
        let all = without(chain, v);
        let last = chain.last();
        assert(!head.contains(last));
        assert forall|x: usize| #[trigger] all.contains(x) <==> chain.contains(x) && x != v by {
            if all.contains(x) {
                let i = choose|i: int| 0 <= i < all.len() && all[i] == x;
                if i < rest.len() {
                    assert(rest[i] == x);
                    assert(rest.contains(x));
                    let k = choose|k: int| 0 <= k < head.len() && head[k] == x;
                    assert(chain[k] == x);
                }
            }
            if chain.contains(x) && x != v {
                let k = choose|k: int| 0 <= k < chain.len() && chain[k] == x;
                if k < head.len() {
                    assert(head[k] == x);
                    assert(rest.contains(x));
                    let i = choose|i: int| 0 <= i < rest.len() && rest[i] == x;
                    assert(all[i] == x);
                } else {
                    assert(all[rest.len() as int] == x);
                }
            }
        }
        if last != v {
            assert(!rest.contains(last));
        }
    }
}

/// Where the content of a rule's repositories is: a chain of volumes, by their
/// places. The first is written; a read falls through the chain.
#[derive(Debug)]
pub struct Backend {
    pub chain: Vec<usize>,
}

impl Backend {
    /// It names distinct volumes out of `n`, at least one.
    pub open spec fn valid(&self, n: nat) -> bool {
        self.chain@.len() > 0 && fanout::places(self.chain@, n)
    }

    /// One volume.
    pub fn volume(v: usize) -> (r: Backend)
        ensures
            r.chain@ == seq![v],
    {
        let mut chain: Vec<usize> = Vec::new();
        chain.push(v);
        assert(chain@ =~= seq![v]);
        Backend { chain }
    }

    /// The volume `v` in front of the other volumes of a backend.
    pub fn over(v: usize, fallback: &Backend) -> (r: Backend)
        ensures
            r.chain@ == seq![v] + without(fallback.chain@, v),
    {
        let mut chain: Vec<usize> = Vec::new();
        chain.push(v);
        let mut i: usize = 0;
        assert(chain@ =~= seq![v] + without(fallback.chain@.take(0), v));
        while i < fallback.chain.len()
            invariant
                i <= fallback.chain@.len(),
                chain@ == seq![v] + without(fallback.chain@.take(i as int), v),
            decreases fallback.chain@.len() - i,
        {
            let w: usize = fallback.chain[i];
            assert(fallback.chain@.take(i + 1).drop_last() =~= fallback.chain@.take(i as int));
            if w != v {
                chain.push(w);
            }
            i = i + 1;
            assert(chain@ =~= seq![v] + without(fallback.chain@.take(i as int), v));
        }
        assert(fallback.chain@.take(i as int) =~= fallback.chain@);
        Backend { chain }
    }

    /// Whether two backends are the same chain of volumes.
    pub fn same(&self, other: &Backend) -> (r: bool)
        ensures
            r == (self.chain@ == other.chain@),
    {
        if self.chain.len() != other.chain.len() {
            return false;
        }
        let mut i: usize = 0;
        while i < self.chain.len()
            invariant
                i <= self.chain@.len(),
                self.chain@.len() == other.chain@.len(),
                forall|j: int| 0 <= j < i ==> self.chain@[j] == other.chain@[j],
            decreases self.chain@.len() - i,
        {
            if self.chain[i] != other.chain[i] {
                return false;
            }
            i = i + 1;
        }
        assert(self.chain@ =~= other.chain@);
        true
    }

    fn order(&self) -> (r: Vec<usize>)
        ensures
            r@ == self.chain@,
    {
        let mut out: Vec<usize> = Vec::new();
        let mut i: usize = 0;
        while i < self.chain.len()
            invariant
                i <= self.chain@.len(),
                out@ == self.chain@.take(i as int),
            decreases self.chain@.len() - i,
        {
            out.push(self.chain[i]);
            i = i + 1;
            assert(out@ =~= self.chain@.take(i as int));
        }
        assert(out@ =~= self.chain@);
        out
    }
}

impl Clone for Backend {
    fn clone(&self) -> (r: Backend)
        ensures
            r.chain@ == self.chain@,
    {
        Backend { chain: self.order() }
    }
}

#[derive(Debug)]
pub struct RouteRule {
    pub pattern: String,
    pub backend: Backend,
}

impl Clone for RouteRule {
    fn clone(&self) -> (r: RouteRule)
        ensures
            r@ == self@,
    {
        RouteRule { pattern: self.pattern.clone(), backend: self.backend.clone() }
    }
}

/// A rule as a mathematical value.
pub struct RuleView {
    pub pattern: Seq<char>,
    pub chain: Seq<usize>,
}

impl View for RouteRule {
    type V = RuleView;

    open spec fn view(&self) -> RuleView {
        RuleView { pattern: self.pattern@, chain: self.backend.chain@ }
    }
}

/// The rule at `i` matches `repo`.
pub open spec fn rule_matches(rules: Seq<RuleView>, repo: Seq<char>, i: int) -> bool {
    0 <= i < rules.len() && glob::matches(rules[i].pattern, repo)
}

/// The rule at `i` decides for `repo`: it matches, no matching rule has a longer
/// pattern, and no earlier one a pattern of the same length; or no rule matches
/// and it is the last.
pub open spec fn decides(rules: Seq<RuleView>, repo: Seq<char>, i: int) -> bool {
    if exists|j: int| rule_matches(rules, repo, j) {
        &&& rule_matches(rules, repo, i)
        &&& forall|j: int|
            #[trigger] rule_matches(rules, repo, j) ==> {
                let a = text::byte_len(rules[j].pattern);
                let b = text::byte_len(rules[i].pattern);
                a < b || (a == b && i <= j)
            }
    } else {
        i == rules.len() - 1
    }
}

/// The rule that decides for `repo`.
pub open spec fn deciding_rule(rules: Seq<RuleView>, repo: Seq<char>) -> int {
    choose|i: int| decides(rules, repo, i)
}

/// The volumes on which `repo` is placed, the one that is written first.
pub open spec fn placed(rules: Seq<RuleView>, repo: Seq<char>) -> Seq<usize> {
    rules[deciding_rule(rules, repo)].chain
}

/// At most one rule decides.
pub proof fn one_rule_decides(rules: Seq<RuleView>, repo: Seq<char>, i: int, j: int)
    requires
        decides(rules, repo, i),
        decides(rules, repo, j),
    ensures
        i == j,
{
    if exists|k: int| rule_matches(rules, repo, k) {
        assert(rule_matches(rules, repo, i));
        assert(rule_matches(rules, repo, j));
    }
}

/// How many rules have exactly this pattern.
pub open spec fn count_pattern(rules: Seq<RuleView>, pattern: Seq<char>) -> nat
    decreases rules.len(),
{
    if rules.len() == 0 {
        0
    } else {
        count_pattern(rules.drop_last(), pattern) + (if rules.last().pattern == pattern {
            1nat
        } else {
            0
        })
    }
}

/// `i` is the first rule with exactly this pattern.
pub open spec fn first_with_pattern(rules: Seq<RuleView>, pattern: Seq<char>, i: int) -> bool {
    &&& 0 <= i < rules.len()
    &&& rules[i].pattern == pattern
    &&& forall|j: int| 0 <= j < i ==> (#[trigger] rules[j]).pattern != pattern
}

pub open spec fn has_pattern(rules: Seq<RuleView>, pattern: Seq<char>) -> bool {
    exists|i: int| 0 <= i < rules.len() && (#[trigger] rules[i]).pattern == pattern
}

/// The places of `more` that `s` lacks, behind `s`.
pub open spec fn with_new(s: Seq<usize>, more: Seq<usize>) -> Seq<usize>
    decreases more.len(),
{
    if more.len() == 0 {
        s
    } else {
        let t = with_new(s, more.drop_last());
        if t.contains(more.last()) {
            t
        } else {
            t.push(more.last())
        }
    }
}

/// Every volume behind a rule, once, in the order of the rules.
pub open spec fn listed_volumes(rules: Seq<RuleView>) -> Seq<usize>
    decreases rules.len(),
{
    if rules.len() == 0 {
        Seq::empty()
    } else {
        with_new(listed_volumes(rules.drop_last()), rules.last().chain)
    }
}

pub open spec fn rules_valid(rules: Seq<RuleView>, n: nat) -> bool {
    forall|i: int|
        0 <= i < rules.len() ==> (#[trigger] rules[i]).chain.len() > 0 && fanout::places(
            rules[i].chain,
            n,
        )
}

pub struct RepoRouter<S> {
    pub volumes: Vec<Partition<S>>,
    pub rules: Vec<RouteRule>,
    pub record: Ghost<Seq<Call>>,
    pub trail: Ghost<Trail<Layout, Seq<Partition<S>>>>,
}

impl<S> RepoRouter<S> {
    /// The rules as mathematical values.
    pub open spec fn table(&self) -> Seq<RuleView> {
        order::views_of(self.rules@)
    }

    /// There is a rule, and the rules name volumes that are there.
    pub open spec fn ruled(&self) -> bool {
        self.rules@.len() > 0 && rules_valid(self.table(), self.volumes@.len())
    }

    /// The volumes that serve `repo`, the one that is written first.
    pub open spec fn route(&self, repo: Seq<char>) -> Seq<usize> {
        placed(self.table(), repo)
    }

    /// How the rules place repositories.
    pub open spec fn layout(&self) -> Layout {
        Layout::Rules(self.table())
    }

    /// What the volumes went through, up to now.
    pub open spec fn path(&self) -> Trail<Layout, Seq<Partition<S>>> {
        self.trail@.current(self.layout(), self.record@.len(), self.volumes@)
    }

    /// The trail begins here.
    pub open spec fn begins(&self) -> bool {
        self.path() == trail::begun(self.layout(), self.record@.len(), self.volumes@)
    }

    fn over(volumes: Vec<Partition<S>>, rules: Vec<RouteRule>) -> (r: RepoRouter<S>)
        ensures
            r.volumes == volumes,
            r.rules == rules,
            r.record@ == Seq::<Call>::empty(),
            r.begins(),
    {
        let ghost layout = Layout::Rules(order::views_of(rules@));
        let ghost t = trail::begun(layout, 0, volumes@);
        RepoRouter { volumes, rules, record: Ghost(Seq::empty()), trail: Ghost(t) }
    }

    /// Begins a new trail.
    pub fn begin(&mut self)
        ensures
            final(self).volumes == old(self).volumes,
            final(self).rules == old(self).rules,
            final(self).record == old(self).record,
            final(self).begins(),
    {
        self.trail = Ghost(trail::begun(self.layout(), self.record@.len(), self.volumes@));
    }

    /// A router over `volumes`. It needs at least one rule.
    pub fn new(volumes: Vec<Partition<S>>, rules: Vec<RouteRule>) -> (r: Result<
        RepoRouter<S>,
        StorageError,
    >)
        requires
            rules_valid(order::views_of(rules@), volumes@.len()),
        ensures
            match r {
                Ok(s) => rules@.len() > 0 && s.ruled() && s.volumes == volumes && s.rules == rules
                    && s.begins(),
                Err(e) => rules@.len() == 0 && (e matches StorageError::Invalid(m) && m@
                    == "RepoRouter needs at least one rule"@),
            },
    {
        if rules.len() == 0 {
            return Err(StorageError::Invalid("RepoRouter needs at least one rule".to_owned()));
        }
        Ok(RepoRouter::over(volumes, rules))
    }

    /// A router with one rule, `*`, for one volume.
    pub fn single(volume: Partition<S>) -> (r: RepoRouter<S>)
        ensures
            r.ruled(),
            r.begins(),
            r.volumes@ == seq![volume],
            r.table() == seq![RuleView { pattern: "*"@, chain: seq![0usize] }],
    {
        let mut volumes: Vec<Partition<S>> = Vec::new();
        volumes.push(volume);
        let mut rules: Vec<RouteRule> = Vec::new();
        rules.push(RouteRule { pattern: "*".to_owned(), backend: Backend::volume(0) });
        let r = RepoRouter::over(volumes, rules);
        assert(r.table() =~= seq![RuleView { pattern: "*"@, chain: seq![0usize] }]);
        r
    }

    /// The current rules.
    pub fn rules(&self) -> (r: Vec<RouteRule>)
        ensures
            order::views_of(r@) == self.table(),
    {
        let mut out: Vec<RouteRule> = Vec::new();
        let mut i: usize = 0;
        while i < self.rules.len()
            invariant
                i <= self.rules@.len(),
                order::views_of(out@) == self.table().take(i as int),
            decreases self.rules@.len() - i,
        {
            let ghost was = order::views_of(out@);
            out.push(self.rules[i].clone());
            i = i + 1;
            assert(order::views_of(out@) =~= was.push(self.table()[i - 1]));
            assert(order::views_of(out@) =~= self.table().take(i as int));
        }
        assert(order::views_of(out@) =~= self.table());
        out
    }

    /// Adds a volume and gives its place.
    pub fn add_volume(&mut self, volume: Partition<S>) -> (r: usize)
        requires
            old(self).ruled(),
        ensures
            final(self).ruled(),
            final(self).rules == old(self).rules,
            final(self).record == old(self).record,
            final(self).trail == old(self).trail,
            final(self).volumes@ == old(self).volumes@.push(volume),
            r == old(self).volumes@.len(),
    {
        let r: usize = self.volumes.len();
        self.volumes.push(volume);
        proof {
            assert forall|i: int| 0 <= i < self.table().len() implies (
            #[trigger] self.table()[i]).chain.len() > 0 && fanout::places(
                self.table()[i].chain,
                self.volumes@.len(),
            ) by {
                assert(old(self).table()[i].chain.len() > 0);
            }
        }
        r
    }

    /// The place of the volume with the name of `volume`, which is added where there is
    /// none.
    pub fn place(&mut self, volume: Partition<S>) -> (r: usize)
        requires
            old(self).ruled(),
        ensures
            final(self).ruled(),
            final(self).rules == old(self).rules,
            final(self).record == old(self).record,
            final(self).trail == old(self).trail,
            r < final(self).volumes@.len(),
            placed_at(old(self).volumes@, final(self).volumes@, volume, r),
    {
        let r: usize = place_volume(&mut self.volumes, volume);
        proof {
            assert forall|i: int| 0 <= i < self.table().len() implies (
            #[trigger] self.table()[i]).chain.len() > 0 && fanout::places(
                self.table()[i].chain,
                self.volumes@.len(),
            ) by {
                assert(old(self).table()[i].chain.len() > 0);
            }
        }
        r
    }

    /// A router with one rule for each pattern, in order, that leads to the volume named
    /// with it. Patterns whose volumes have the same name share the first of them.
    pub fn assemble(mounts: Vec<(String, Partition<S>)>) -> (r: Result<RepoRouter<S>, StorageError>)
        ensures
            match r {
                Ok(s) => mounts@.len() > 0 && s.ruled() && exists|states: Seq<Seq<Partition<S>>>|
                    #[trigger] assembled(mounts@, states, s.table()) && states.last()
                        == s.volumes@,
                Err(e) => mounts@.len() == 0 && (e matches StorageError::Invalid(m) && m@
                    == "RepoRouter needs at least one rule"@),
            },
    {
        let ghost all = mounts@;
        let mut left = mounts;
        let mut volumes: Vec<Partition<S>> = Vec::new();
        let mut rules: Vec<RouteRule> = Vec::new();
        let ghost mut states: Seq<Seq<Partition<S>>> = seq![volumes@];
        proof {
            assert(left@ =~= all.skip(0));
            assert(volumes@ =~= Seq::empty());
        }
        while left.len() > 0
            invariant
                rules@.len() + left@.len() == all.len(),
                left@ == all.skip(rules@.len() as int),
                assembled(all.take(rules@.len() as int), states, order::views_of(rules@)),
                states.last() == volumes@,
                rules_valid(order::views_of(rules@), volumes@.len()),
            decreases left@.len(),
        {
            let ghost n = rules@.len() as int;
            let ghost table = order::views_of(rules@);
            let ghost before = volumes@;
            let (pattern, volume) = left.remove(0);
            let ghost (p, v) = (pattern, volume);
            assert(all[n] == (p, v));
            let at: usize = place_volume(&mut volumes, volume);
            rules.push(RouteRule { pattern, backend: Backend::volume(at) });
            proof {
                let next = order::views_of(rules@);
                let rule = RuleView { pattern: p@, chain: seq![at] };
                assert(next =~= table.push(rule));
                let was = states;
                states = was.push(volumes@);
                let some = all.take(n + 1);
                assert(some.drop_last() =~= all.take(n));
                assert(left@ =~= all.skip(n + 1));
                assert forall|i: int| 0 <= i < some.len() implies mounted(
                    states[i],
                    states[i + 1],
                    #[trigger] some[i],
                    next[i],
                ) by {
                    if i < n {
                        assert(some[i] == all.take(n)[i]);
                        assert(mounted(was[i], was[i + 1], all.take(n)[i], table[i]));
                    }
                }
                assert forall|i: int| 0 <= i < next.len() implies (#[trigger] next[i]).chain.len()
                    > 0 && fanout::places(next[i].chain, volumes@.len()) by {
                    if i < n {
                        assert(next[i] == table[i]);
                        assert(table[i].chain.len() > 0);
                    }
                }
            }
        }
        assert(all.take(rules@.len() as int) =~= all);
        let ghost table = order::views_of(rules@);
        if rules.len() == 0 {
            return Err(StorageError::Invalid("RepoRouter needs at least one rule".to_owned()));
        }
        let s = RepoRouter::over(volumes, rules);
        assert(assembled(all, states, s.table()));
        Ok(s)
    }

    /// The place of the rule that decides for `repo`.
    fn resolve(&self, repo: &str) -> (r: usize)
        requires
            self.rules@.len() > 0,
        ensures
            r < self.rules@.len(),
            decides(self.table(), repo@, r as int),
            r == deciding_rule(self.table(), repo@),
    {
        let ghost t = self.table();
        let mut best: Option<usize> = None;
        let mut best_len: usize = 0;
        let mut i: usize = 0;
        while i < self.rules.len()
            invariant
                i <= self.rules@.len(),
                t == self.table(),
                match best {
                    None => forall|j: int| 0 <= j < i ==> !rule_matches(t, repo@, j),
                    Some(b) => {
                        &&& b < i
                        &&& rule_matches(t, repo@, b as int)
                        &&& best_len == text::byte_len(t[b as int].pattern)
                        &&& forall|j: int|
                            0 <= j < i && #[trigger] rule_matches(t, repo@, j) ==> {
                                let x = text::byte_len(t[j].pattern);
                                x < best_len || (x == best_len && b <= j)
                            }
                    },
                },
            decreases self.rules@.len() - i,
        {
            assert(t[i as int].pattern == self.rules@[i as int].pattern@);
            if glob::glob_match(self.rules[i].pattern.as_str(), repo) {
                assert(rule_matches(t, repo@, i as int));
                let n: usize = text::byte_count(self.rules[i].pattern.as_str());
                match best {
                    None => {
                        best = Some(i);
                        best_len = n;
                    },
                    Some(_) => {
                        if n > best_len {
                            best = Some(i);
                            best_len = n;
                        }
                    },
                }
            }
            i = i + 1;
        }
        let r: usize = match best {
            Some(b) => b,
            None => self.rules.len() - 1,
        };
        proof {
            assert(decides(t, repo@, r as int));
            one_rule_decides(t, repo@, r as int, deciding_rule(t, repo@));
        }
        r
    }

    /// Whether the rule at `i` decides for `repo`.
    pub fn decided_by(&self, i: usize, repo: &str) -> (r: bool)
        requires
            self.rules@.len() > 0,
        ensures
            r == decides(self.table(), repo@, i as int),
    {
        let at: usize = self.resolve(repo);
        proof {
            if decides(self.table(), repo@, i as int) {
                one_rule_decides(self.table(), repo@, at as int, i as int);
            }
        }
        at == i
    }

    /// Where `repo` is placed.
    pub fn backend_for(&self, repo: &str) -> (r: Backend)
        requires
            self.rules@.len() > 0,
        ensures
            r.chain@ == self.route(repo@),
            decides(self.table(), repo@, deciding_rule(self.table(), repo@)),
            0 <= deciding_rule(self.table(), repo@) < self.rules@.len(),
    {
        let at: usize = self.resolve(repo);
        assert(self.table()[at as int].chain == self.rules@[at as int].backend.chain@);
        self.rules[at].backend.clone()
    }

    /// The backend of the first rule with exactly this pattern.
    pub fn backend_for_pattern(&self, pattern: &str) -> (r: Option<Backend>)
        ensures
            match r {
                Some(b) => exists|i: int| #[trigger]
                    first_with_pattern(self.table(), pattern@, i) && self.table()[i].chain
                        == b.chain@,
                None => !has_pattern(self.table(), pattern@),
            },
    {
        match self.find_pattern(pattern) {
            Some(i) => {
                assert(first_with_pattern(self.table(), pattern@, i as int));
                assert(self.table()[i as int].chain == self.rules@[i as int].backend.chain@);
                Some(self.rules[i].backend.clone())
            },
            None => None,
        }
    }

    /// The place of the first rule with exactly this pattern.
    pub fn find_pattern(&self, pattern: &str) -> (r: Option<usize>)
        ensures
            match r {
                Some(i) => first_with_pattern(self.table(), pattern@, i as int),
                None => !has_pattern(self.table(), pattern@),
            },
    {
        let ghost t = self.table();
        let mut i: usize = 0;
        while i < self.rules.len()
            invariant
                i <= self.rules@.len(),
                t == self.table(),
                forall|j: int| 0 <= j < i ==> (#[trigger] t[j]).pattern != pattern@,
            decreases self.rules@.len() - i,
        {
            assert(t[i as int].pattern == self.rules@[i as int].pattern@);
            if text::same(self.rules[i].pattern.as_str(), pattern) {
                return Some(i);
            }
            i = i + 1;
        }
        None
    }

    /// Puts `backend` behind every rule with exactly this pattern and gives their
    /// number.
    pub fn repoint(&mut self, pattern: &str, backend: Backend) -> (r: usize)
        requires
            old(self).ruled(),
            backend.valid(old(self).volumes@.len()),
        ensures
            final(self).ruled(),
            final(self).volumes == old(self).volumes,
            final(self).record == old(self).record,
            final(self).trail == old(self).trail,
            final(self).table() == repointed(old(self).table(), pattern@, backend.chain@),
            r == count_pattern(old(self).table(), pattern@),
    {
        let ghost was = self.table();
        let ghost goal = repointed(was, pattern@, backend.chain@);
        let mut updated: usize = 0;
        let mut i: usize = 0;
        while i < self.rules.len()
            invariant
                was == old(self).table(),
                goal == repointed(was, pattern@, backend.chain@),
                i <= was.len(),
                updated <= i,
                self.rules@.len() == was.len(),
                self.volumes == old(self).volumes,
                self.record == old(self).record,
                self.trail == old(self).trail,
                updated == count_pattern(was.take(i as int), pattern@),
                forall|j: int| i <= j < was.len() ==> (#[trigger] self.rules@[j])@ == was[j],
                forall|j: int| 0 <= j < i ==> (#[trigger] self.rules@[j])@ == goal[j],
            decreases was.len() - i,
        {
            assert(was.take(i + 1).drop_last() =~= was.take(i as int));
            assert(self.rules@[i as int]@ == was[i as int]);
            let ghost before = self.rules@;
            if text::same(self.rules[i].pattern.as_str(), pattern) {
                self.rules[i].backend = backend.clone();
                updated = updated + 1;
            }
            assert(self.rules@[i as int]@ == goal[i as int]);
            assert forall|j: int| 0 <= j < was.len() && j != i implies (#[trigger] self.rules@[j])
                == before[j] by {
            }
            i = i + 1;
        }
        proof {
            assert(was.take(i as int) =~= was);
            assert(self.table() =~= goal);
            assert forall|j: int| 0 <= j < self.table().len() implies (
            #[trigger] self.table()[j]).chain.len() > 0 && fanout::places(
                self.table()[j].chain,
                self.volumes@.len(),
            ) by {
                assert(was[j].chain.len() > 0);
            }
        }
        updated
    }

    /// Puts `backend` behind every rule with exactly this pattern, or adds such a
    /// rule at the end. Says whether a rule was added.
    pub fn upsert(&mut self, pattern: String, backend: Backend) -> (r: bool)
        requires
            old(self).ruled(),
            backend.valid(old(self).volumes@.len()),
        ensures
            final(self).ruled(),
            final(self).volumes == old(self).volumes,
            final(self).record == old(self).record,
            final(self).trail == old(self).trail,
            r == !has_pattern(old(self).table(), pattern@),
            final(self).table() == upserted(old(self).table(), pattern@, backend.chain@),
    {
        let ghost was = self.table();
        match self.find_pattern(pattern.as_str()) {
            Some(i) => {
                proof {
                    lemma_first_with_pattern(was, pattern@, i as int);
                }
                self.repoint(pattern.as_str(), backend);
                false
            },
            None => {
                self.rules.push(RouteRule { pattern, backend });
                proof {
                    assert(self.table() =~= upserted(was, pattern@, backend.chain@));
                    assert forall|j: int| 0 <= j < self.table().len() implies (
                    #[trigger] self.table()[j]).chain.len() > 0 && fanout::places(
                        self.table()[j].chain,
                        self.volumes@.len(),
                    ) by {
                        if j < was.len() {
                            assert(was[j].chain.len() > 0);
                        }
                    }
                }
                true
            },
        }
    }

    /// Every volume behind a rule, once.
    fn distinct_volumes(&self) -> (r: Vec<usize>)
        requires
            self.ruled(),
        ensures
            r@ == listed_volumes(self.table()),
            fanout::places(r@, self.volumes@.len()),
    {
        let ghost t = self.table();
        let mut out: Vec<usize> = Vec::new();
        let mut i: usize = 0;
        assert(listed_volumes(t.take(0)) =~= Seq::<usize>::empty());
        while i < self.rules.len()
            invariant
                i <= self.rules@.len(),
                self.ruled(),
                t == self.table(),
                out@ == listed_volumes(t.take(i as int)),
                fanout::places(out@, self.volumes@.len()),
            decreases self.rules@.len() - i,
        {
            let more = self.rules[i].backend.order();
            assert(t.take(i + 1).drop_last() =~= t.take(i as int));
            assert(t[i as int].chain == more@);
            assert(fanout::places(more@, self.volumes@.len()));
            add_new(&mut out, &more, Ghost(self.volumes@.len()));
            i = i + 1;
        }
        assert(t.take(i as int) =~= t);
        out
    }
}

/// The volume with the name of `volume` is at `r`: the first that there was, or
/// `volume` itself behind the others.
pub open spec fn placed_at<S>(
    was: Seq<Partition<S>>,
    now: Seq<Partition<S>>,
    volume: Partition<S>,
    r: usize,
) -> bool {
    if exists|i: int| 0 <= i < was.len() && (#[trigger] was[i]).name@ == volume.name@ {
        &&& now == was
        &&& r < was.len()
        &&& was[r as int].name@ == volume.name@
        &&& forall|j: int| 0 <= j < r ==> (#[trigger] was[j]).name@ != volume.name@
    } else {
        now == was.push(volume) && r == was.len()
    }
}

/// The rule leads to the volume of the mount.
pub open spec fn mounted<S>(
    was: Seq<Partition<S>>,
    now: Seq<Partition<S>>,
    mount: (String, Partition<S>),
    rule: RuleView,
) -> bool {
    &&& rule.pattern == mount.0@
    &&& rule.chain.len() == 1
    &&& placed_at(was, now, mount.1, rule.chain[0])
}

/// The mounts are gone through in order: the volumes are `states[0]`, `states[1]` and so
/// on meanwhile, and `table` has a rule for each.
pub open spec fn assembled<S>(
    mounts: Seq<(String, Partition<S>)>,
    states: Seq<Seq<Partition<S>>>,
    table: Seq<RuleView>,
) -> bool {
    &&& states.len() == mounts.len() + 1
    &&& states[0].len() == 0
    &&& table.len() == mounts.len()
    &&& forall|i: int|
        0 <= i < mounts.len() ==> mounted(states[i], states[i + 1], #[trigger] mounts[i], table[i])
}

/// The place of the volume with the name of `volume`, which is added where there is none.
fn place_volume<S>(volumes: &mut Vec<Partition<S>>, volume: Partition<S>) -> (r: usize)
    ensures
        r < final(volumes)@.len(),
        old(volumes)@.len() <= final(volumes)@.len(),
        placed_at(old(volumes)@, final(volumes)@, volume, r),
{
    let mut i: usize = 0;
    while i < volumes.len()
        invariant
            i <= volumes@.len(),
            volumes@ == old(volumes)@,
            forall|j: int| 0 <= j < i ==> (#[trigger] volumes@[j]).name@ != volume.name@,
        decreases volumes@.len() - i,
    {
        if text::same(volumes[i].name.as_str(), volume.name.as_str()) {
            return i;
        }
        i = i + 1;
    }
    volumes.push(volume);
    i
}

/// The rules with `chain` behind every rule that has exactly this pattern.
pub open spec fn repointed(
    rules: Seq<RuleView>,
    pattern: Seq<char>,
    chain: Seq<usize>,
) -> Seq<RuleView> {
    Seq::new(
        rules.len(),
        |i: int|
            if rules[i].pattern == pattern {
                RuleView { pattern, chain }
            } else {
                rules[i]
            },
    )
}

/// The rules with `chain` behind every rule that has exactly this pattern, or with
/// such a rule added at the end.
pub open spec fn upserted(
    rules: Seq<RuleView>,
    pattern: Seq<char>,
    chain: Seq<usize>,
) -> Seq<RuleView> {
    if has_pattern(rules, pattern) {
        repointed(rules, pattern, chain)
    } else {
        rules.push(RuleView { pattern, chain })
    }
}

/// The first rule with a pattern is one rule.
pub proof fn lemma_first_with_pattern(rules: Seq<RuleView>, pattern: Seq<char>, i: int)
    requires
        first_with_pattern(rules, pattern, i),
    ensures
        has_pattern(rules, pattern),
        i == choose|j: int| first_with_pattern(rules, pattern, j),
{
    assert(rules[i].pattern == pattern);
    let j = choose|j: int| first_with_pattern(rules, pattern, j);
    assert(first_with_pattern(rules, pattern, j));
    if i < j {
        assert(rules[i].pattern != pattern);
    } else if j < i {
        assert(rules[j].pattern != pattern);
    }
}

fn add_new(out: &mut Vec<usize>, more: &Vec<usize>, Ghost(n): Ghost<nat>)
    requires
        fanout::places(old(out)@, n),
        fanout::places(more@, n),
    ensures
        final(out)@ == with_new(old(out)@, more@),
        fanout::places(final(out)@, n),
{
    let mut i: usize = 0;
    assert(more@.take(0) =~= Seq::<usize>::empty());
    while i < more.len()
        invariant
            i <= more@.len(),
            fanout::places(more@, n),
            fanout::places(out@, n),
            out@ == with_new(old(out)@, more@.take(i as int)),
        decreases more@.len() - i,
    {
        assert(more@.take(i + 1).drop_last() =~= more@.take(i as int));
        let ghost was = out@;
        let v: usize = more[i];
        let mut k: usize = 0;
        let mut found = false;
        while k < out.len() && !found
            invariant
                k <= out@.len(),
                out@ == was,
                found ==> out@.contains(v),
                !found ==> forall|j: int| 0 <= j < k ==> out@[j] != v,
            decreases out@.len() - k + (if found {
                0int
            } else {
                1
            }),
        {
            if out[k] == v {
                found = true;
            } else {
                k = k + 1;
            }
        }
        if !found {
            out.push(v);
        }
        i = i + 1;
    }
    assert(more@.take(i as int) =~= more@);
}

impl<S: Storage> RepoRouter<S> {
    fn targets(&self, repo: &str) -> (r: Vec<usize>)
        requires
            self.ruled(),
        ensures
            r@ == self.route(repo@),
            r@.len() > 0,
            fanout::places(r@, self.volumes@.len()),
    {
        let at: usize = self.resolve(repo);
        assert(self.table()[at as int].chain == self.rules@[at as int].backend.chain@);
        self.rules[at].backend.order()
    }

    /// Adds a call to the record, and to the trail what the volumes became by it.
    fn note(&mut self, was: Ghost<RepoRouter<S>>, call: Ghost<Call>)
        requires
            was@.wf(),
            old(self).ruled(),
            fanout::all_wf(old(self).volumes@),
            old(self).rules == was@.rules,
            old(self).record == was@.record,
            old(self).trail == was@.trail,
            trail::served(was@.layout(), was@.volumes@, call@, old(self).volumes@),
        ensures
            final(self).wf(),
            final(self).volumes == old(self).volumes,
            final(self).rules == old(self).rules,
            final(self).record@ == was@.record@.push(call@),
            final(self).origin() == was@.origin(),
    {
        proof {
            trail::lemma_begun(was@.layout(), was@.record@, was@.volumes@);
            trail::lemma_onward(
                was@.path(),
                was@.record@,
                was@.volumes@,
                call@,
                self.volumes@,
            );
        }
        self.record = Ghost(self.record@.push(call@));
        self.trail = Ghost(was@.path().onward(self.volumes@));
    }

    fn read<A: Ask>(&mut self, repo: &str, a: &A) -> (r: Result<A::Answer, StorageError>)
        requires
            old(self).wf(),
        ensures
            final(self).wf(),
            final(self).rules == old(self).rules,
            final(self).record == old(self).record,
            final(self).trail == old(self).trail,
            asked_until_found(*old(self), *final(self), repo@, *a, r),
    {
        let order = self.targets(repo);
        let r = fanout::ask_until_found(&mut self.volumes, &order, a);
        proof {
            let was = old(self).volumes@;
            let replies = choose|replies: Seq<Result<A::Answer, StorageError>>|
                #![trigger fanout::asked(was, self.volumes@, order@, *a, replies)]
                fanout::asked(was, self.volumes@, order@, *a, replies) && fanout::first_answer(
                    replies,
                    order@.len(),
                    r,
                );
            assert(fanout::asked(was, self.volumes@, old(self).route(repo@), *a, replies));
            assert(fanout::first_answer(replies, old(self).route(repo@).len(), r));
        }
        r
    }

    fn write<A: Ask>(&mut self, repo: &str, a: &A) -> (r: Result<A::Answer, StorageError>)
        requires
            old(self).wf(),
        ensures
            final(self).wf(),
            final(self).rules == old(self).rules,
            final(self).record == old(self).record,
            final(self).trail == old(self).trail,
            fanout::asked(
                old(self).volumes@,
                final(self).volumes@,
                seq![old(self).route(repo@)[0]],
                *a,
                seq![r],
            ),
    {
        let order = self.targets(repo);
        fanout::ask_one(&mut self.volumes, order[0], a)
    }

    fn list<K: Key, A: Ask<Answer = Vec<K>>>(&mut self, repo: &str, a: &A) -> (r: Result<
        Vec<K>,
        StorageError,
    >)
        requires
            old(self).wf(),
        ensures
            final(self).wf(),
            final(self).rules == old(self).rules,
            final(self).record == old(self).record,
            final(self).trail == old(self).trail,
            asked_list(*old(self), *final(self), repo@, *a, r),
    {
        let order = self.targets(repo);
        if order.len() == 1 {
            assert(order@ =~= seq![order@[0]]);
            fanout::ask_one(&mut self.volumes, order[0], a)
        } else {
            fanout::ask_union(&mut self.volumes, &order, a)
        }
    }
}

/// `a` was asked of the volumes of `repo` until one answered other than
/// `NotFound`.
pub open spec fn asked_until_found<S: Storage, A: Ask>(
    was: RepoRouter<S>,
    now: RepoRouter<S>,
    repo: Seq<char>,
    a: A,
    r: Result<A::Answer, StorageError>,
) -> bool {
    exists|replies: Seq<Result<A::Answer, StorageError>>|
        #![trigger fanout::asked(was.volumes@, now.volumes@, was.route(repo), a, replies)]
        fanout::asked(was.volumes@, now.volumes@, was.route(repo), a, replies)
            && fanout::first_answer(replies, was.route(repo).len(), r)
}

/// `a` was asked of the volumes of `repo` until one said `true` or failed.
pub open spec fn asked_any<S: Storage, A: Ask<Answer = bool>>(
    was: RepoRouter<S>,
    now: RepoRouter<S>,
    repo: Seq<char>,
    a: A,
    r: Result<bool, StorageError>,
) -> bool {
    exists|replies: Seq<Result<bool, StorageError>>|
        #![trigger fanout::asked(was.volumes@, now.volumes@, was.route(repo), a, replies)]
        fanout::asked(was.volumes@, now.volumes@, was.route(repo), a, replies)
            && fanout::any_answer(replies, was.route(repo).len(), r)
}

/// `a` was asked of every volume of `repo`.
pub open spec fn asked_all<S: Storage, A: Ask<Answer = ()>>(
    was: RepoRouter<S>,
    now: RepoRouter<S>,
    repo: Seq<char>,
    a: A,
    r: Result<(), StorageError>,
) -> bool {
    exists|replies: Seq<Result<(), StorageError>>|
        #![trigger fanout::asked(was.volumes@, now.volumes@, was.route(repo), a, replies)]
        fanout::asked(was.volumes@, now.volumes@, was.route(repo), a, replies) && replies.len()
            == was.route(repo).len() && fanout::all_answer(replies, r)
}

/// A listing of one repository: the answer of its volume, or the union over a
/// chain.
pub open spec fn asked_list<S: Storage, K: Key, A: Ask<Answer = Vec<K>>>(
    was: RepoRouter<S>,
    now: RepoRouter<S>,
    repo: Seq<char>,
    a: A,
    r: Result<Vec<K>, StorageError>,
) -> bool {
    if was.route(repo).len() == 1 {
        fanout::asked(was.volumes@, now.volumes@, was.route(repo), a, seq![r])
    } else {
        exists|replies: Seq<Result<Vec<K>, StorageError>>|
            #![trigger fanout::asked(was.volumes@, now.volumes@, was.route(repo), a, replies)]
            fanout::asked(was.volumes@, now.volumes@, was.route(repo), a, replies)
                && fanout::union_answer(replies, was.route(repo).len(), r)
    }
}

/// A listing over the whole router: the union over every volume behind a rule.
pub open spec fn asked_union<S: Storage, K: Key, A: Ask<Answer = Vec<K>>>(
    was: RepoRouter<S>,
    now: RepoRouter<S>,
    a: A,
    r: Result<Vec<K>, StorageError>,
) -> bool {
    let order = listed_volumes(was.table());
    exists|replies: Seq<Result<Vec<K>, StorageError>>|
        #![trigger fanout::asked(was.volumes@, now.volumes@, order, a, replies)]
        fanout::asked(was.volumes@, now.volumes@, order, a, replies) && fanout::union_answer(
            replies,
            order.len(),
            r,
        )
}

impl<S: Storage> Storage for RepoRouter<S> {
    open spec fn log(&self) -> Seq<Call> {
        self.record@
    }

    open spec fn wf(&self) -> bool {
        self.ruled() && fanout::all_wf(self.volumes@) && trail::traced(self.trail@, self.record@)
    }

    type Origin = Start<Layout, Seq<Partition<S>>>;

    open spec fn origin(&self) -> Start<Layout, Seq<Partition<S>>> {
        self.path().start()
    }

    fn blob_exists(&mut self, repo: &str, digest: &Digest) -> (r: Result<bool, StorageError>)
        ensures
            final(self).rules == old(self).rules,
            asked_any(*old(self), *final(self), repo@, (fanout::BlobExists { repo, digest }), r),
    {
        let ghost was = *self;
        let a = fanout::BlobExists { repo, digest };
        let r = {
            let order = self.targets(repo);
            fanout::ask_until_true(&mut self.volumes, &order, &a)
        };
        assert(a.call(r)->BlobExists_repo == repo@);
        assert(trail::until_true(was.volumes@, self.volumes@, was.layout().reads(repo@), a, r));
        self.note(Ghost(was), Ghost(a.call(r)));
        r
    }

    fn blob_size(&mut self, repo: &str, digest: &Digest) -> (r: Result<u64, StorageError>)
        ensures
            final(self).rules == old(self).rules,
            asked_until_found(*old(self), *final(self), repo@, (fanout::BlobSize { repo, digest }), r),
    {
        let ghost was = *self;
        let a = fanout::BlobSize { repo, digest };
        let r = self.read(repo, &a);
        assert(a.call(r)->BlobSize_repo == repo@);
        assert(trail::until_found(was.volumes@, self.volumes@, was.layout().reads(repo@), a, r));
        self.note(Ghost(was), Ghost(a.call(r)));
        r
    }

    fn blob_read(&mut self, repo: &str, digest: &Digest) -> (r: Result<Vec<u8>, StorageError>)
        ensures
            final(self).rules == old(self).rules,
            asked_until_found(*old(self), *final(self), repo@, (fanout::BlobRead { repo, digest }), r),
    {
        let ghost was = *self;
        let a = fanout::BlobRead { repo, digest };
        let r = self.read(repo, &a);
        assert(a.call(r)->BlobRead_repo == repo@);
        assert(trail::until_found(was.volumes@, self.volumes@, was.layout().reads(repo@), a, r));
        self.note(Ghost(was), Ghost(a.call(r)));
        r
    }

    fn blob_write(&mut self, repo: &str, expected: &Digest, content: &[u8]) -> (r: Result<(), StorageError>)
        ensures
            final(self).rules == old(self).rules,
            fanout::asked(
                old(self).volumes@,
                final(self).volumes@,
                seq![old(self).route(repo@)[0]],
                (fanout::BlobWrite { repo, digest: expected, content }),
                seq![r],
            ),
    {
        let ghost was = *self;
        let a = fanout::BlobWrite { repo, digest: expected, content };
        let r = self.write(repo, &a);
        assert(a.call(r)->BlobWrite_repo == repo@);
        assert(trail::alone(was.volumes@, self.volumes@, was.layout().writes(repo@), a, r));
        self.note(Ghost(was), Ghost(a.call(r)));
        r
    }

    fn blob_delete(&mut self, repo: &str, digest: &Digest) -> (r: Result<(), StorageError>)
        ensures
            final(self).rules == old(self).rules,
            asked_all(*old(self), *final(self), repo@, (fanout::BlobDelete { repo, digest }), r),
    {
        let ghost was = *self;
        let a = fanout::BlobDelete { repo, digest };
        let r = {
            let order = self.targets(repo);
            fanout::ask_all(&mut self.volumes, &order, &a)
        };
        assert(a.call(r)->BlobDelete_repo == repo@);
        assert(trail::of_all(was.volumes@, self.volumes@, was.layout().holds(repo@), a, r));
        self.note(Ghost(was), Ghost(a.call(r)));
        r
    }

    fn upload_create(&mut self, repo: &str) -> (r: Result<UploadStatus, StorageError>)
        ensures
            final(self).rules == old(self).rules,
            fanout::asked(
                old(self).volumes@,
                final(self).volumes@,
                seq![old(self).route(repo@)[0]],
                (fanout::UploadCreate { repo }),
                seq![r],
            ),
    {
        let ghost was = *self;
        let a = fanout::UploadCreate { repo };
        let r = self.write(repo, &a);
        assert(a.call(r)->UploadCreate_repo == repo@);
        assert(trail::alone(was.volumes@, self.volumes@, was.layout().writes(repo@), a, r));
        self.note(Ghost(was), Ghost(a.call(r)));
        r
    }

    fn upload_status(&mut self, repo: &str, id: u128) -> (r: Result<UploadStatus, StorageError>)
        ensures
            final(self).rules == old(self).rules,
            fanout::asked(
                old(self).volumes@,
                final(self).volumes@,
                seq![old(self).route(repo@)[0]],
                (fanout::UploadState { repo, id }),
                seq![r],
            ),
    {
        let ghost was = *self;
        let a = fanout::UploadState { repo, id };
        let r = self.write(repo, &a);
        assert(a.call(r)->UploadState_repo == repo@);
        assert(trail::alone(was.volumes@, self.volumes@, was.layout().writes(repo@), a, r));
        self.note(Ghost(was), Ghost(a.call(r)));
        r
    }

    fn upload_append(&mut self, repo: &str, id: u128, chunk: &[u8]) -> (r: Result<UploadStatus, StorageError>)
        ensures
            final(self).rules == old(self).rules,
            fanout::asked(
                old(self).volumes@,
                final(self).volumes@,
                seq![old(self).route(repo@)[0]],
                (fanout::UploadAppend { repo, id, chunk }),
                seq![r],
            ),
    {
        let ghost was = *self;
        let a = fanout::UploadAppend { repo, id, chunk };
        let r = self.write(repo, &a);
        assert(a.call(r)->UploadAppend_repo == repo@);
        assert(trail::alone(was.volumes@, self.volumes@, was.layout().writes(repo@), a, r));
        self.note(Ghost(was), Ghost(a.call(r)));
        r
    }

    fn upload_finalize(&mut self, repo: &str, id: u128, expected: &Digest) -> (r: Result<(), StorageError>)
        ensures
            final(self).rules == old(self).rules,
            fanout::asked(
                old(self).volumes@,
                final(self).volumes@,
                seq![old(self).route(repo@)[0]],
                (fanout::UploadFinalize { repo, id, digest: expected }),
                seq![r],
            ),
    {
        let ghost was = *self;
        let a = fanout::UploadFinalize { repo, id, digest: expected };
        let r = self.write(repo, &a);
        assert(a.call(r)->UploadFinalize_repo == repo@);
        assert(trail::alone(was.volumes@, self.volumes@, was.layout().writes(repo@), a, r));
        self.note(Ghost(was), Ghost(a.call(r)));
        r
    }

    fn upload_cancel(&mut self, repo: &str, id: u128) -> (r: Result<(), StorageError>)
        ensures
            final(self).rules == old(self).rules,
            fanout::asked(
                old(self).volumes@,
                final(self).volumes@,
                seq![old(self).route(repo@)[0]],
                (fanout::UploadCancel { repo, id }),
                seq![r],
            ),
    {
        let ghost was = *self;
        let a = fanout::UploadCancel { repo, id };
        let r = self.write(repo, &a);
        assert(a.call(r)->UploadCancel_repo == repo@);
        assert(trail::alone(was.volumes@, self.volumes@, was.layout().writes(repo@), a, r));
        self.note(Ghost(was), Ghost(a.call(r)));
        r
    }

    fn manifest_get(&mut self, repo: &str, reference: &Reference) -> (r: Result<StoredManifest, StorageError>)
        ensures
            final(self).rules == old(self).rules,
            asked_until_found(*old(self), *final(self), repo@, (fanout::ManifestGet { repo, reference }), r),
    {
        let ghost was = *self;
        let a = fanout::ManifestGet { repo, reference };
        let r = self.read(repo, &a);
        assert(a.call(r)->ManifestGet_repo == repo@);
        assert(trail::until_found(was.volumes@, self.volumes@, was.layout().reads(repo@), a, r));
        self.note(Ghost(was), Ghost(a.call(r)));
        r
    }

    fn manifest_put(&mut self, repo: &str, reference: &Reference, content: &[u8]) -> (r: Result<Digest, StorageError>)
        ensures
            final(self).rules == old(self).rules,
            fanout::asked(
                old(self).volumes@,
                final(self).volumes@,
                seq![old(self).route(repo@)[0]],
                (fanout::ManifestPut { repo, reference, content }),
                seq![r],
            ),
    {
        let ghost was = *self;
        let a = fanout::ManifestPut { repo, reference, content };
        let r = self.write(repo, &a);
        assert(a.call(r)->ManifestPut_repo == repo@);
        assert(trail::alone(was.volumes@, self.volumes@, was.layout().writes(repo@), a, r));
        self.note(Ghost(was), Ghost(a.call(r)));
        r
    }

    fn manifest_delete(&mut self, repo: &str, reference: &Reference) -> (r: Result<(), StorageError>)
        ensures
            final(self).rules == old(self).rules,
            asked_all(*old(self), *final(self), repo@, (fanout::ManifestDelete { repo, reference }), r),
    {
        let ghost was = *self;
        let a = fanout::ManifestDelete { repo, reference };
        let r = {
            let order = self.targets(repo);
            fanout::ask_all(&mut self.volumes, &order, &a)
        };
        assert(a.call(r)->ManifestDelete_repo == repo@);
        assert(trail::of_all(was.volumes@, self.volumes@, was.layout().holds(repo@), a, r));
        self.note(Ghost(was), Ghost(a.call(r)));
        r
    }

    fn list_repos(&mut self) -> (r: Result<Vec<String>, StorageError>)
        ensures
            final(self).rules == old(self).rules,
            asked_union(*old(self), *final(self), fanout::ListRepos, r),
    {
        let ghost was = *self;
        let a = fanout::ListRepos;
        let r = {
            let order = self.distinct_volumes();
            fanout::ask_union(&mut self.volumes, &order, &a)
        };
        assert(trail::put_together(was.volumes@, self.volumes@, was.layout().everywhere(), a, r));
        self.note(Ghost(was), Ghost(a.call(r)));
        r
    }

    fn list_tags(&mut self, repo: &str) -> (r: Result<Vec<String>, StorageError>)
        ensures
            final(self).rules == old(self).rules,
            asked_list(*old(self), *final(self), repo@, (fanout::ListTags { repo }), r),
    {
        let ghost was = *self;
        let a = fanout::ListTags { repo };
        let r = self.list(repo, &a);
        assert(a.call(r)->ListTags_repo == repo@);
        assert(trail::put_together(was.volumes@, self.volumes@, was.layout().holds(repo@), a, r));
        self.note(Ghost(was), Ghost(a.call(r)));
        r
    }

    fn list_manifest_digests(&mut self, repo: &str) -> (r: Result<Vec<Digest>, StorageError>)
        ensures
            final(self).rules == old(self).rules,
            asked_list(*old(self), *final(self), repo@, (fanout::ListManifestDigests { repo }), r),
    {
        let ghost was = *self;
        let a = fanout::ListManifestDigests { repo };
        let r = self.list(repo, &a);
        assert(a.call(r)->ListManifestDigests_repo == repo@);
        assert(trail::put_together(was.volumes@, self.volumes@, was.layout().holds(repo@), a, r));
        self.note(Ghost(was), Ghost(a.call(r)));
        r
    }

    fn list_all_blobs(&mut self) -> (r: Result<Vec<Digest>, StorageError>)
        ensures
            final(self).rules == old(self).rules,
            asked_union(*old(self), *final(self), fanout::ListAllBlobs, r),
    {
        let ghost was = *self;
        let a = fanout::ListAllBlobs;
        let r = {
            let order = self.distinct_volumes();
            fanout::ask_union(&mut self.volumes, &order, &a)
        };
        assert(trail::put_together(was.volumes@, self.volumes@, was.layout().everywhere(), a, r));
        self.note(Ghost(was), Ghost(a.call(r)));
        r
    }
}

} // verus!
