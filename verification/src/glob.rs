//! Shell-style patterns: `*` stands for any run of characters, also an empty one,
//! and `?` for one character; every other character stands for itself. A pattern
//! is matched against the whole text.

use vstd::prelude::*;

use crate::text;

verus! {

/// The pattern `p` matches the text `t`.
pub open spec fn matches(p: Seq<char>, t: Seq<char>) -> bool
    decreases p.len() + t.len(),
{
    if p.len() == 0 {
        t.len() == 0
    } else if p[0] == '*' {
        matches(p.drop_first(), t) || (t.len() > 0 && matches(p, t.drop_first()))
    } else {
        &&& t.len() > 0
        &&& p[0] == '?' || p[0] == t[0]
        &&& matches(p.drop_first(), t.drop_first())
    }
}

/// Whether the pattern `pat` matches `s`.
pub fn glob_match(pat: &str, s: &str) -> (r: bool)
    ensures
        r == matches(pat@, s@),
{
    let p = text::chars_of(pat);
    let t = text::chars_of(s);
    assert(text::from_pos(p@, 0) =~= p@);
    assert(text::from_pos(t@, 0) =~= t@);
    glob_helper(&p, 0, &t, 0)
}

fn glob_helper(p: &Vec<char>, pi: usize, t: &Vec<char>, ti: usize) -> (r: bool)
    requires
        pi <= p@.len(),
        ti <= t@.len(),
    ensures
        r == matches(text::from_pos(p@, pi as int), text::from_pos(t@, ti as int)),
    decreases p@.len() - pi,
{
    if pi == p.len() {
        return ti == t.len();
    }
    let ghost rest = text::from_pos(p@, pi as int);
    let ghost tail = text::from_pos(t@, ti as int);
    assert(rest.drop_first() =~= text::from_pos(p@, pi + 1));
    let c: char = p[pi];
    if c == '*' {
        let mut k: usize = ti;
        let next: usize = pi + 1;
        while k < t.len()
            invariant
                pi < p@.len(),
                next == pi + 1,
                ti <= k <= t@.len(),
                rest == text::from_pos(p@, pi as int),
                tail == text::from_pos(t@, ti as int),
                rest[0] == '*',
                rest.drop_first() == text::from_pos(p@, pi + 1),
                matches(rest, tail) == matches(rest, text::from_pos(t@, k as int)),
            decreases t@.len() - k,
        {
            if glob_helper(p, next, t, k) {
                return true;
            }
            assert(text::from_pos(t@, k as int).drop_first() =~= text::from_pos(t@, k + 1));
            k = k + 1;
        }
        return glob_helper(p, next, t, k);
    }
    if ti == t.len() {
        return false;
    }
    assert(tail.drop_first() =~= text::from_pos(t@, ti + 1));
    if c != '?' && t[ti] != c {
        return false;
    }
    glob_helper(p, pi + 1, t, ti + 1)
}

/// `*` matches everything.
pub proof fn star_matches_everything(t: Seq<char>)
    ensures
        matches(seq!['*'], t),
    decreases t.len(),
{
    let p = seq!['*'];
    assert(p.drop_first() =~= Seq::<char>::empty());
    if t.len() > 0 {
        star_matches_everything(t.drop_first());
    } else {
        assert(matches(p.drop_first(), t));
    }
}

/// A pattern without `*` and `?` matches itself and nothing else.
pub proof fn plain_pattern_matches_itself(p: Seq<char>, t: Seq<char>)
    requires
        !p.contains('*'),
        !p.contains('?'),
    ensures
        matches(p, t) <==> p == t,
    decreases p.len(),
{
    if p.len() > 0 {
        assert(p.contains(p[0]));
        let q = p.drop_first();
        assert forall|c: char| q.contains(c) implies p.contains(c) by {
            let i = choose|i: int| 0 <= i < q.len() && q[i] == c;
            assert(p[i + 1] == c);
        }
        if t.len() > 0 {
            plain_pattern_matches_itself(q, t.drop_first());
            if p[0] == t[0] && q == t.drop_first() {
                assert forall|i: int| 0 <= i < p.len() implies p[i] == t[i] by {
                    if i > 0 {
                        assert(q[i - 1] == t.drop_first()[i - 1]);
                    }
                }
                assert(p =~= t);
            }
        }
    } else if t.len() == 0 {
        assert(p =~= t);
    }
}

/// A pattern that is a plain text followed by `*` matches exactly the texts that
/// begin with that text.
pub proof fn prefix_pattern(p: Seq<char>, t: Seq<char>)
    requires
        !p.contains('*'),
        !p.contains('?'),
    ensures
        matches(p.push('*'), t) <==> text::starts_with(t, p),
    decreases p.len(),
{
    let w = p.push('*');
    if p.len() == 0 {
        assert(w =~= seq!['*']);
        star_matches_everything(t);
        assert(t.subrange(0, 0) =~= p);
    } else {
        assert(p.contains(p[0]));
        let q = p.drop_first();
        assert forall|c: char| q.contains(c) implies p.contains(c) by {
            let i = choose|i: int| 0 <= i < q.len() && q[i] == c;
            assert(p[i + 1] == c);
        }
        assert(w.drop_first() =~= q.push('*'));
        if t.len() > 0 {
            let u = t.drop_first();
            prefix_pattern(q, u);
            if t[0] == p[0] && text::starts_with(u, q) {
                assert forall|i: int| 0 <= i < p.len() implies t.subrange(0, p.len() as int)[i]
                    == p[i] by {
                    if i > 0 {
                        assert(u.subrange(0, q.len() as int)[i - 1] == q[i - 1]);
                    }
                }
                assert(t.subrange(0, p.len() as int) =~= p);
            }
            if text::starts_with(t, p) {
                assert(t.subrange(0, p.len() as int)[0] == p[0]);
                assert forall|i: int| 0 <= i < q.len() implies u.subrange(0, q.len() as int)[i]
                    == q[i] by {
                    assert(t.subrange(0, p.len() as int)[i + 1] == p[i + 1]);
                }
                assert(u.subrange(0, q.len() as int) =~= q);
            }
        }
    }
}

} // verus!
