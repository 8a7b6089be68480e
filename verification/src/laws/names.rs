//! The grammar of repository names.

use vstd::prelude::*;

use crate::handlers;
use crate::text;

verus! {

/// Lower-case letters and digits, at least one.
pub open spec fn is_run(s: Seq<char>) -> bool {
    s.len() > 0 && forall|i: int|
        0 <= i < s.len() ==> ('a' <= #[trigger] s[i] && s[i] <= 'z') || ('0' <= s[i] && s[i] <= '9')
}

/// `.`, `_`, `__` or a run of `-`.
pub open spec fn is_separator(s: Seq<char>) -> bool {
    ||| s == seq!['.']
    ||| s == seq!['_']
    ||| s == seq!['_', '_']
    ||| s.len() > 0 && forall|i: int| 0 <= i < s.len() ==> #[trigger] s[i] == '-'
}

/// The component ends with a separator and a run, and `i` characters stand before them.
pub open spec fn splits(c: Seq<char>, i: int, j: int) -> bool {
    0 < i < j < c.len() && is_separator(c.subrange(i, j)) && is_run(c.skip(j))
}

/// The text is a run, or one that is derived already with a separator and a run behind it.
pub open spec fn derived(c: Seq<char>) -> bool
    decreases c.len(),
{
    is_run(c) || exists|i: int, j: int| #[trigger] splits(c, i, j) && derived(c.take(i))
}

spec fn accepted(c: Seq<char>) -> bool {
    &&& c.len() > 0
    &&& handlers::name_start(c[0])
    &&& forall|i: int| 0 <= i < c.len() ==> handlers::name_part(#[trigger] c[i])
    &&& handlers::well_separated(c)
}

proof fn lemma_separator(s: Seq<char>)
    requires
        is_separator(s),
    ensures
        s.len() > 0,
        s[0] == '.' || s[0] == '_' || s[0] == '-',
        s[0] == '.' ==> s.len() == 1,
        s[0] == '_' ==> s.len() <= 2,
        forall|k: int| 0 <= k < s.len() ==> #[trigger] s[k] == s[0],
{
    if s == seq!['.'] {
        assert(s.len() == 1 && s[0] == '.');
    } else if s == seq!['_'] {
        assert(s.len() == 1 && s[0] == '_');
    } else if s == seq!['_', '_'] {
        assert(s.len() == 2 && s[0] == '_' && s[1] == '_');
    }
}

proof fn lemma_derived_accepted(c: Seq<char>)
    requires
        derived(c),
    ensures
        accepted(c),
    decreases c.len(),
{
    if is_run(c) {
        assert(handlers::name_start(c[0]));
        assert(handlers::name_start(c[c.len() - 1]));
        assert forall|k: int| 0 <= k < c.len() implies handlers::name_start(#[trigger] c[k]) by {
        }
    } else {
        let (i, j) = choose|i: int, j: int| #[trigger] splits(c, i, j) && derived(c.take(i));
        let a = c.take(i);
        let s = c.subrange(i, j);
        let t = c.skip(j);
        lemma_derived_accepted(a);
        assert(a[0] == c[0]);
        assert(handlers::name_start(a.last()));
        assert forall|k: int| j <= k < c.len() implies handlers::name_start(#[trigger] c[k]) by {
            assert(t[k - j] == c[k]);
        }
        lemma_separator(s);
        assert(s[0] == c[i]);
        assert forall|k: int| i <= k < j implies #[trigger] c[k] == c[i] by {
            assert(s[k - i] == c[k]);
            assert(s[0] == c[i]);
        }
        assert forall|k: int| 0 <= k < c.len() implies handlers::name_part(#[trigger] c[k]) by {
            if k < i {
                assert(a[k] == c[k]);
            }
        }
        assert forall|k: int| 0 <= k < c.len() - 1 implies handlers::neighbours(
            #[trigger] c[k],
            c[k + 1],
        ) by {
            if k + 1 < i {
                assert(a[k] == c[k] && a[k + 1] == c[k + 1]);
            } else if k + 1 == i {
                assert(a.last() == c[k]);
            } else if k + 1 < j {
                assert(c[k] == c[i] && c[k + 1] == c[i]);
            }
        }
        assert forall|k: int| 0 <= k < c.len() - 2 implies !(#[trigger] c[k] == '_' && c[k + 1] == '_'
            && c[k + 2] == '_') by {
            if k + 2 < i {
                assert(a[k] == c[k] && a[k + 1] == c[k + 1] && a[k + 2] == c[k + 2]);
            } else if k < i {
                assert(a.last() == c[i - 1]);
                assert(i - 1 == k || i - 1 == k + 1);
            } else if k + 2 >= j {
                assert(handlers::name_start(c[k + 2]) || k + 2 < j);
            }
        }
    }
}

/// Where the run at the end begins.
spec fn tail(c: Seq<char>) -> int
    decreases c.len(),
{
    if c.len() == 0 || !handlers::name_start(c.last()) {
        c.len() as int
    } else {
        tail(c.drop_last())
    }
}

proof fn lemma_tail(c: Seq<char>)
    ensures
        0 <= tail(c) <= c.len(),
        forall|k: int| tail(c) <= k < c.len() ==> handlers::name_start(#[trigger] c[k]),
        tail(c) > 0 ==> !handlers::name_start(c[tail(c) - 1]),
    decreases c.len(),
{
    if c.len() > 0 && handlers::name_start(c.last()) {
        let b = c.drop_last();
        lemma_tail(b);
        assert forall|k: int| tail(c) <= k < c.len() implies handlers::name_start(
            #[trigger] c[k],
        ) by {
            if k < b.len() {
                assert(b[k] == c[k]);
            }
        }
    }
}

/// Where the separators at the end begin.
spec fn gap(c: Seq<char>) -> int
    decreases c.len(),
{
    if c.len() == 0 || handlers::name_start(c.last()) {
        c.len() as int
    } else {
        gap(c.drop_last())
    }
}

proof fn lemma_gap(c: Seq<char>)
    ensures
        0 <= gap(c) <= c.len(),
        forall|k: int| gap(c) <= k < c.len() ==> !handlers::name_start(#[trigger] c[k]),
        gap(c) > 0 ==> handlers::name_start(c[gap(c) - 1]),
    decreases c.len(),
{
    if c.len() > 0 && !handlers::name_start(c.last()) {
        let b = c.drop_last();
        lemma_gap(b);
        assert forall|k: int| gap(c) <= k < c.len() implies !handlers::name_start(
            #[trigger] c[k],
        ) by {
            if k < b.len() {
                assert(b[k] == c[k]);
            }
        }
    }
}

/// Separators that follow each other are the same.
proof fn lemma_same_separators(c: Seq<char>, i: int, k: int)
    requires
        accepted(c),
        0 <= i <= k < c.len(),
        forall|x: int| i <= x <= k ==> !handlers::name_start(#[trigger] c[x]),
    ensures
        c[k] == c[i],
        k > i ==> c[i] != '.',
    decreases k - i,
{
    if i < k {
        lemma_same_separators(c, i, k - 1);
        assert(handlers::neighbours(c[k - 1], c[k - 1 + 1]));
        assert(!handlers::name_start(c[k - 1]) && !handlers::name_start(c[k]));
    }
}

/// Separators between runs are one of those that there are.
proof fn lemma_gap_separates(c: Seq<char>, i: int, j: int)
    requires
        accepted(c),
        0 <= i < j < c.len(),
        forall|k: int| i <= k < j ==> !handlers::name_start(#[trigger] c[k]),
    ensures
        is_separator(c.subrange(i, j)),
{
    let s = c.subrange(i, j);
    assert(handlers::name_part(c[i]));
    assert(!handlers::name_start(c[i]));
    assert forall|k: int| 0 <= k < s.len() implies #[trigger] s[k] == c[i] by {
        lemma_same_separators(c, i, i + k);
    }
    if s.len() > 1 {
        lemma_same_separators(c, i, i + 1);
    }
    if c[i] == '.' {
        assert(s =~= seq!['.']);
    } else if c[i] == '_' {
        if s.len() > 2 {
            assert(s[1] == '_' && s[2] == '_');
            assert(c[i] == '_' && c[i + 1] == '_' && c[i + 2] == '_');
        }
        if s.len() == 1 {
            assert(s =~= seq!['_']);
        } else {
            assert(s[1] == '_');
            assert(s =~= seq!['_', '_']);
        }
    }
}

proof fn lemma_beginning_accepted(c: Seq<char>, i: int)
    requires
        accepted(c),
        0 < i <= c.len(),
        handlers::name_start(c[i - 1]),
    ensures
        accepted(c.take(i)),
{
    let a = c.take(i);
    assert(a[0] == c[0]);
    assert(a.last() == c[i - 1]);
    assert forall|k: int| 0 <= k < a.len() implies handlers::name_part(#[trigger] a[k]) by {
        assert(a[k] == c[k]);
    }
    assert forall|k: int| 0 <= k < a.len() - 1 implies handlers::neighbours(
        #[trigger] a[k],
        a[k + 1],
    ) by {
        assert(a[k] == c[k] && a[k + 1] == c[k + 1]);
    }
    assert forall|k: int| 0 <= k < a.len() - 2 implies !(#[trigger] a[k] == '_' && a[k + 1] == '_'
        && a[k + 2] == '_') by {
        assert(a[k] == c[k] && a[k + 1] == c[k + 1] && a[k + 2] == c[k + 2]);
    }
}

proof fn lemma_run(s: Seq<char>)
    requires
        s.len() > 0,
        forall|k: int| 0 <= k < s.len() ==> handlers::name_start(#[trigger] s[k]),
    ensures
        is_run(s),
{
}

#[verifier::rlimit(40)]
proof fn lemma_accepted_derived(c: Seq<char>)
    requires
        accepted(c),
    ensures
        derived(c),
    decreases c.len(),
{
    lemma_tail(c);
    let j = tail(c);
    if j > 0 {
        assert(j < c.len()) by {
            assert(c[c.len() - 1] == c.last());
        }
        let head = c.take(j);
        lemma_gap(head);
        let i = gap(head);
        assert(head[j - 1] == c[j - 1]);
        assert(head[0] == c[0]);
        assert(0 < i < j);
        assert forall|k: int| i <= k < j implies !handlers::name_start(#[trigger] c[k]) by {
            assert(head[k] == c[k]);
        }
        assert(head[i - 1] == c[i - 1]);
        lemma_gap_separates(c, i, j);
        let t = c.skip(j);
        assert forall|k: int| 0 <= k < t.len() implies handlers::name_start(#[trigger] t[k]) by {
            assert(t[k] == c[j + k]);
        }
        lemma_run(t);
        lemma_beginning_accepted(c, i);
        lemma_accepted_derived(c.take(i));
        assert(splits(c, i, j));
    } else {
        lemma_run(c);
    }
}

/// A component is right exactly when it is made of runs of lower-case letters and digits
/// with one separator between each two: `[a-z0-9]+((\.|_|__|-+)[a-z0-9]+)*`.
pub proof fn component_grammar(c: Seq<char>)
    ensures
        handlers::component_problem(c) is None <==> derived(c),
{
    if handlers::component_problem(c) is None {
        assert forall|i: int| 0 <= i < c.len() implies handlers::name_part(#[trigger] c[i]) by {
        }
        lemma_accepted_derived(c);
    }
    if derived(c) {
        lemma_derived_accepted(c);
    }
}

/// A name is right exactly when it is made of such components with a slash between each
/// two, and is of 1 to 255 bytes.
pub proof fn name_grammar(name: Seq<char>)
    ensures
        handlers::valid_name(name) <==> {
            &&& 0 < vstd::utf8::encode_utf8(name).len() <= 255
            &&& forall|k: int|
                0 <= k < text::split(name, '/').len() ==> derived(
                    #[trigger] text::split(name, '/')[k],
                )
        },
{
    handlers::valid_name_grammar(name);
    lemma_some_bytes(name);
    let parts = text::split(name, '/');
    assert forall|k: int| 0 <= k < parts.len() implies (derived(#[trigger] parts[k]) <==> {
        let c = parts[k];
        &&& c.len() > 0
        &&& handlers::name_start(c[0])
        &&& forall|i: int| 1 <= i < c.len() ==> handlers::name_part(#[trigger] c[i])
        &&& handlers::well_separated(c)
    }) by {
        component_grammar(parts[k]);
    }
}

proof fn lemma_some_bytes(s: Seq<char>)
    ensures
        vstd::utf8::encode_utf8(s).len() > 0 <==> s.len() > 0,
{
    if s.len() > 0 {
        assert(vstd::utf8::encode_scalar(s[0] as u32).len() > 0);
    }
}

} // verus!
