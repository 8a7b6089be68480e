//! Patterns, and what is chosen by them.

use vstd::prelude::*;

use crate::fanout;
use crate::glob;
use crate::laws::moving;
use crate::multi;
use crate::repo_router;
use crate::repo_router::RuleView;
use crate::storage::StorageError;
use crate::trail::Layout;

verus! {

/// Nothing but the empty text matches the empty pattern.
pub proof fn empty_pattern(t: Seq<char>)
    ensures
        glob::matches(Seq::empty(), t) <==> t.len() == 0,
{
}

/// A star stands for any run of characters, slashes and none among them: the rest of the
/// pattern matches what is behind the run.
pub proof fn star_stands_for_any_run(p: Seq<char>, t: Seq<char>)
    ensures
        glob::matches(seq!['*'] + p, t) <==> exists|k: int|
            0 <= k <= t.len() && glob::matches(p, #[trigger] t.skip(k)),
    decreases t.len(),
{
    let w = seq!['*'] + p;
    assert(w.drop_first() =~= p);
    assert(t.skip(0) =~= t);
    if t.len() > 0 {
        let u = t.drop_first();
        star_stands_for_any_run(p, u);
        if glob::matches(w, u) {
            let k = choose|k: int| 0 <= k <= u.len() && glob::matches(p, #[trigger] u.skip(k));
            assert(t.skip(k + 1) =~= u.skip(k));
        }
        if exists|k: int| 0 <= k <= t.len() && glob::matches(p, #[trigger] t.skip(k)) {
            let k = choose|k: int| 0 <= k <= t.len() && glob::matches(p, #[trigger] t.skip(k));
            if k > 0 {
                assert(u.skip(k - 1) =~= t.skip(k));
            }
        }
    } else if exists|k: int| 0 <= k <= t.len() && glob::matches(p, #[trigger] t.skip(k)) {
        let k = choose|k: int| 0 <= k <= t.len() && glob::matches(p, #[trigger] t.skip(k));
        assert(k == 0);
    }
}

/// A question mark stands for any one character, and any other character for itself.
pub proof fn other_characters_stand_for_one(c: char, p: Seq<char>, t: Seq<char>)
    requires
        c != '*',
    ensures
        glob::matches(seq![c] + p, t) <==> t.len() > 0 && (c == '?' || c == t[0])
            && glob::matches(p, t.skip(1)),
{
    let w = seq![c] + p;
    assert(w.drop_first() =~= p);
    if t.len() > 0 {
        assert(t.skip(1) =~= t.drop_first());
    }
}

/// The rule is chosen for the repository: its pattern matches, no matching one is longer,
/// and none that is as long comes earlier; where none matches it is the last.
pub open spec fn is_chosen(rules: Seq<RuleView>, repo: Seq<char>, i: int) -> bool {
    &&& 0 <= i < rules.len()
    &&& (forall|j: int|
        0 <= j < rules.len() ==> !glob::matches((#[trigger] rules[j]).pattern, repo)) ==> i
        == rules.len() - 1
    &&& forall|j: int|
        0 <= j < rules.len() && glob::matches((#[trigger] rules[j]).pattern, repo) ==> {
            let a = vstd::utf8::encode_utf8(rules[j].pattern).len();
            let b = vstd::utf8::encode_utf8(rules[i].pattern).len();
            glob::matches(rules[i].pattern, repo) && (a < b || (a == b && i <= j))
        }
}

/// The rule that decides for a repository is the one that is chosen for it.
pub proof fn deciding_is_being_chosen(rules: Seq<RuleView>, repo: Seq<char>, i: int)
    requires
        0 <= i < rules.len(),
    ensures
        repo_router::decides(rules, repo, i) <==> is_chosen(rules, repo, i),
{
    if is_chosen(rules, repo, i) {
        if exists|j: int| repo_router::rule_matches(rules, repo, j) {
            let j = choose|j: int| repo_router::rule_matches(rules, repo, j);
            assert(glob::matches(rules[j].pattern, repo));
            assert(repo_router::rule_matches(rules, repo, i));
            assert forall|k: int| #[trigger] repo_router::rule_matches(rules, repo, k) implies {
                let a = crate::text::byte_len(rules[k].pattern);
                let b = crate::text::byte_len(rules[i].pattern);
                a < b || (a == b && i <= k)
            } by {
                assert(glob::matches(rules[k].pattern, repo));
            }
        } else {
            assert forall|j: int| 0 <= j < rules.len() implies !glob::matches(
                (#[trigger] rules[j]).pattern,
                repo,
            ) by {
                assert(!repo_router::rule_matches(rules, repo, j));
            }
        }
    }
    if repo_router::decides(rules, repo, i) {
        assert forall|j: int|
            0 <= j < rules.len() && glob::matches((#[trigger] rules[j]).pattern, repo) implies {
            let a = vstd::utf8::encode_utf8(rules[j].pattern).len();
            let b = vstd::utf8::encode_utf8(rules[i].pattern).len();
            glob::matches(rules[i].pattern, repo) && (a < b || (a == b && i <= j))
        } by {
            assert(repo_router::rule_matches(rules, repo, j));
        }
        if forall|j: int|
            0 <= j < rules.len() ==> !glob::matches((#[trigger] rules[j]).pattern, repo) {
            if exists|j: int| repo_router::rule_matches(rules, repo, j) {
                let j = choose|j: int| repo_router::rule_matches(rules, repo, j);
                assert(!glob::matches(rules[j].pattern, repo));
            }
        }
    }
}

/// A repository is placed where the rule leads that is chosen for it.
pub proof fn repository_is_placed_by_the_chosen_rule(rules: Seq<RuleView>, repo: Seq<char>, i: int)
    requires
        is_chosen(rules, repo, i),
    ensures
        repo_router::placed(rules, repo) == rules[i].chain,
{
    deciding_is_being_chosen(rules, repo, i);
    moving::some_rule_decides(rules, repo);
    repo_router::one_rule_decides(rules, repo, i, repo_router::deciding_rule(rules, repo));
}

/// And one is chosen for every repository.
pub proof fn some_rule_is_chosen(rules: Seq<RuleView>, repo: Seq<char>)
    requires
        rules.len() > 0,
    ensures
        is_chosen(rules, repo, repo_router::deciding_rule(rules, repo)),
{
    moving::some_rule_decides(rules, repo);
    let i = repo_router::deciding_rule(rules, repo);
    if exists|j: int| repo_router::rule_matches(rules, repo, j) {
        let j = choose|j: int| repo_router::rule_matches(rules, repo, j);
        assert(glob::matches(rules[j].pattern, repo));
        assert forall|k: int|
            0 <= k < rules.len() && glob::matches((#[trigger] rules[k]).pattern, repo) implies {
            let a = vstd::utf8::encode_utf8(rules[k].pattern).len();
            let b = vstd::utf8::encode_utf8(rules[i].pattern).len();
            glob::matches(rules[i].pattern, repo) && (a < b || (a == b && i <= k))
        } by {
            assert(repo_router::rule_matches(rules, repo, k));
        }
    } else {
        assert forall|k: int|
            0 <= k < rules.len() && glob::matches((#[trigger] rules[k]).pattern, repo) implies {
            let a = vstd::utf8::encode_utf8(rules[k].pattern).len();
            let b = vstd::utf8::encode_utf8(rules[i].pattern).len();
            glob::matches(rules[i].pattern, repo) && (a < b || (a == b && i <= k))
        } by {
            assert(repo_router::rule_matches(rules, repo, k));
        }
    }
}

/// Where a pattern is pointed elsewhere, every rule with it is, and no other changes; a
/// pattern that no rule has gets one behind the others.
pub proof fn pattern_is_pointed_elsewhere(
    rules: Seq<RuleView>,
    pattern: Seq<char>,
    chain: Seq<usize>,
    i: int,
)
    requires
        0 <= i < rules.len(),
    ensures
        ({
            let now = repo_router::upserted(rules, pattern, chain);
            &&& now[i].pattern == rules[i].pattern
            &&& now[i].chain == if rules[i].pattern == pattern {
                chain
            } else {
                rules[i].chain
            }
            &&& (forall|j: int| 0 <= j < rules.len() ==> (#[trigger] rules[j]).pattern != pattern)
                ==> now.len() == rules.len() + 1 && now.last().pattern == pattern
                && now.last().chain == chain
            &&& rules[i].pattern == pattern ==> now.len() == rules.len()
        }),
{
    if repo_router::has_pattern(rules, pattern) {
        let j = choose|j: int| 0 <= j < rules.len() && (#[trigger] rules[j]).pattern == pattern;
        assert(rules[j].pattern == pattern);
    }
}

/// A chain without a volume has the others in their order.
pub proof fn chain_without_a_volume(chain: Seq<usize>, v: usize)
    ensures
        repo_router::without(chain, v) == chain.filter(|x: usize| x != v),
    decreases chain.len(),
{
    reveal(Seq::filter);
    if chain.len() > 0 {
        chain_without_a_volume(chain.drop_last(), v);
    }
}

proof fn lemma_with_new(s: Seq<usize>, more: Seq<usize>, p: usize)
    ensures
        repo_router::with_new(s, more).contains(p) <==> s.contains(p) || more.contains(p),
    decreases more.len(),
{
    if more.len() > 0 {
        let rest = more.drop_last();
        let t = repo_router::with_new(s, rest);
        let m = more.last();
        lemma_with_new(s, rest, p);
        assert(more[more.len() - 1] == m);
        if more.contains(p) {
            let i = choose|i: int| 0 <= i < more.len() && more[i] == p;
            if i < rest.len() {
                assert(rest[i] == p);
            }
        }
        if rest.contains(p) {
            let i = choose|i: int| 0 <= i < rest.len() && rest[i] == p;
            assert(more[i] == p);
        }
        if !t.contains(m) {
            let u = t.push(m);
            if t.contains(p) {
                let i = choose|i: int| 0 <= i < t.len() && t[i] == p;
                assert(u[i] == p);
            }
            if u.contains(p) {
                let i = choose|i: int| 0 <= i < u.len() && u[i] == p;
                if i < t.len() {
                    assert(t[i] == p);
                }
            }
            assert(u[t.len() as int] == m);
        }
    }
}

/// A listing over all asks every volume that a rule leads to, and no other.
pub proof fn every_volume_of_a_rule_is_listed(rules: Seq<RuleView>, v: usize)
    ensures
        repo_router::listed_volumes(rules).contains(v) <==> exists|i: int|
            0 <= i < rules.len() && (#[trigger] rules[i]).chain.contains(v),
    decreases rules.len(),
{
    if rules.len() > 0 {
        let rest = rules.drop_last();
        every_volume_of_a_rule_is_listed(rest, v);
        lemma_with_new(repo_router::listed_volumes(rest), rules.last().chain, v);
        if exists|i: int| 0 <= i < rest.len() && (#[trigger] rest[i]).chain.contains(v) {
            let i = choose|i: int| 0 <= i < rest.len() && (#[trigger] rest[i]).chain.contains(v);
            assert(rules[i].chain.contains(v));
        }
        if exists|i: int| 0 <= i < rules.len() && (#[trigger] rules[i]).chain.contains(v) {
            let i = choose|i: int| 0 <= i < rules.len() && (#[trigger] rules[i]).chain.contains(v);
            if i < rest.len() {
                assert(rest[i].chain.contains(v));
            }
        }
        assert(rules[rules.len() - 1] == rules.last());
    } else {
        assert(!repo_router::listed_volumes(rules).contains(v));
    }
}

/// Partitions are read from the primary on, then in the order in which they are declared,
/// each once; they are listed and deleted from as they are declared.
pub proof fn partitions_are_read_from_the_primary_on(n: nat, primary: usize)
    requires
        primary < n,
        n <= usize::MAX,
    ensures
        multi::read_order(n, primary as int).len() == n,
        multi::read_order(n, primary as int)[0] == primary,
        forall|i: int|
            1 <= i < n ==> (#[trigger] multi::read_order(n, primary as int)[i]) < n
                && multi::read_order(n, primary as int)[i] != primary,
        forall|i: int, j: int|
            1 <= i < j < n ==> (#[trigger] multi::read_order(n, primary as int)[i]) < (
            #[trigger] multi::read_order(n, primary as int)[j]),
        multi::declared_order(n).len() == n,
        forall|i: int| 0 <= i < n ==> #[trigger] multi::declared_order(n)[i] == i,
{
}

/// A deletion that any of the stores refuses is refused; where none does, it is done if
/// one of them had something to delete, and else there was nothing.
pub proof fn deletion_is_what_all_say(
    replies: Seq<Result<(), StorageError>>,
    r: Result<(), StorageError>,
    i: int,
)
    requires
        fanout::all_answer(replies, r),
        0 <= i < replies.len(),
    ensures
        replies[i] is Err && replies[i]->Err_0 != StorageError::NotFound ==> r is Err && r->Err_0
            != StorageError::NotFound,
        (forall|j: int|
            0 <= j < replies.len() ==> (#[trigger] replies[j]) is Ok || replies[j]->Err_0
                == StorageError::NotFound) ==> (r is Ok <==> exists|j: int|
            0 <= j < replies.len() && (#[trigger] replies[j]) is Ok) && (r is Err ==> r->Err_0
            == StorageError::NotFound),
        r is Err && r->Err_0 != StorageError::NotFound ==> exists|j: int|
            0 <= j < replies.len() && #[trigger] replies[j] == r,
{
    lemma_last_failure(replies);
    let f = fanout::last_failure(replies);
    if f->Err_0 == StorageError::NotFound {
        assert(f == Err::<(), _>(StorageError::NotFound));
    }
}

proof fn lemma_last_failure(replies: Seq<Result<(), StorageError>>)
    ensures
        ({
            let f = fanout::last_failure(replies);
            &&& f is Err
            &&& f->Err_0 != StorageError::NotFound ==> exists|j: int|
                0 <= j < replies.len() && #[trigger] replies[j] == f
            &&& f->Err_0 == StorageError::NotFound ==> forall|j: int|
                0 <= j < replies.len() ==> (#[trigger] replies[j]) is Ok || replies[j]->Err_0
                    == StorageError::NotFound
        }),
    decreases replies.len(),
{
    if replies.len() > 0 {
        let rest = replies.drop_last();
        lemma_last_failure(rest);
        let f = fanout::last_failure(replies);
        let g = fanout::last_failure(rest);
        assert(replies[replies.len() - 1] == replies.last());
        if g->Err_0 != StorageError::NotFound {
            let j = choose|j: int| 0 <= j < rest.len() && #[trigger] rest[j] == g;
            assert(replies[j] == g);
        } else {
            assert forall|j: int|
                0 <= j < rest.len() implies (#[trigger] replies[j]) is Ok || replies[j]->Err_0
                == StorageError::NotFound by {
                assert(rest[j] == replies[j]);
            }
        }
    }
}

/// A repository is written to the first volume of the rule that is chosen for it; it is read
/// from the volumes of the rule, in their order, and these are all that hold it.
pub proof fn rule_says_where_to_read_and_write(rules: Seq<RuleView>, repo: Seq<char>, i: int)
    requires
        is_chosen(rules, repo, i),
    ensures
        Layout::Rules(rules).writes(repo) == rules[i].chain[0],
        Layout::Rules(rules).reads(repo) == rules[i].chain,
        Layout::Rules(rules).holds(repo) == rules[i].chain,
{
    repository_is_placed_by_the_chosen_rule(rules, repo, i);
}

/// Of partitions the primary is written to, and read first; every one of them may hold a
/// repository, and is listed.
pub proof fn primary_is_written_to(n: nat, primary: usize, repo: Seq<char>, p: usize)
    requires
        primary < n,
        p < n,
    ensures
        Layout::Partitions(n, primary).writes(repo) == primary,
        Layout::Partitions(n, primary).reads(repo).len() == n,
        Layout::Partitions(n, primary).reads(repo)[0] == primary,
        Layout::Partitions(n, primary).holds(repo).contains(p),
        Layout::Partitions(n, primary).everywhere().contains(p),
{
    assert(Layout::Partitions(n, primary).holds(repo)[p as int] == p);
    assert(Layout::Partitions(n, primary).everywhere()[p as int] == p);
}

} // verus!
