//! Texts: where something stands in them, how they are cut and how numbers are written.

use vstd::prelude::*;

use crate::text;

verus! {

/// The character is not in the text.
pub open spec fn lacks(s: Seq<char>, c: char) -> bool {
    forall|i: int| 0 <= i < s.len() ==> #[trigger] s[i] != c
}

/// The first place of a character is behind everything that lacks it.
pub proof fn first_place_of_a_character(a: Seq<char>, c: char, b: Seq<char>)
    requires
        lacks(a, c),
    ensures
        text::index_of(a + seq![c] + b, c) == a.len(),
        (a + seq![c] + b).contains(c),
        !a.contains(c),
        text::index_of(a, c) == a.len(),
    decreases a.len(),
{
    let s = a + seq![c] + b;
    assert(s[a.len() as int] == c);
    if a.len() > 0 {
        let a2 = a.drop_first();
        assert forall|i: int| 0 <= i < a2.len() implies #[trigger] a2[i] != c by {
            assert(a2[i] == a[i + 1]);
        }
        first_place_of_a_character(a2, c, b);
        assert(s.drop_first() =~= a2 + seq![c] + b);
        assert(s[0] == a[0]);
        assert(a[0] != c);
    }
    if a.contains(c) {
        let i = choose|i: int| 0 <= i < a.len() && a[i] == c;
        assert(a[i] != c);
    }
}

/// A text is cut at each of the characters: what stands before the first is the first
/// part, and what stands behind it is cut the same way. A text without one is one part.
pub proof fn split_cuts_at_each(a: Seq<char>, c: char, b: Seq<char>)
    requires
        lacks(a, c),
    ensures
        text::split(a, c) == seq![a],
        text::split(a + seq![c] + b, c) == seq![a] + text::split(b, c),
{
    first_place_of_a_character(a, c, b);
    let s = a + seq![c] + b;
    assert(s.subrange(0, a.len() as int) =~= a);
    assert(text::from_pos(s, (a.len() + 1) as int) =~= b);
}

/// A text begins with another where it is that one with something behind it.
pub proof fn beginning_with(p: Seq<char>, r: Seq<char>, s: Seq<char>)
    ensures
        text::starts_with(p + r, p),
        text::from_pos(p + r, p.len() as int) == r,
        text::starts_with(s, p) ==> s == p + text::from_pos(s, p.len() as int),
        text::ends_with(r + p, p),
        text::ends_with(s, p) ==> s == s.subrange(0, s.len() - p.len()) + p,
{
    assert((p + r).subrange(0, p.len() as int) =~= p);
    assert(text::from_pos(p + r, p.len() as int) =~= r);
    assert((r + p).subrange(r.len() as int, (r + p).len() as int) =~= p);
    if text::starts_with(s, p) {
        assert(s =~= p + text::from_pos(s, p.len() as int)) by {
            assert(s.subrange(0, p.len() as int) == p);
            assert forall|i: int| 0 <= i < p.len() implies s[i] == p[i] by {
                assert(s.subrange(0, p.len() as int)[i] == s[i]);
            }
        }
    }
    if text::ends_with(s, p) {
        let k = s.len() - p.len();
        assert(s =~= s.subrange(0, k) + p) by {
            assert forall|i: int| 0 <= i < p.len() implies s[k + i] == p[i] by {
                assert(s.subrange(k, k + p.len())[i] == s[k + i]);
            }
        }
    }
}

/// Where a text is found first and last in another: it stands there, and nowhere before
/// the first or behind the last place.
pub proof fn first_and_last_place(a: Seq<char>, p: Seq<char>, b: Seq<char>)
    ensures
        ({
            let s = a + p + b;
            let i = text::first_index(s, p);
            let j = text::last_index(s, p);
            &&& text::occurs(s, p)
            &&& 0 <= i <= a.len() <= j <= s.len() - p.len()
            &&& s.subrange(i, i + p.len()) == p
            &&& s.subrange(j, j + p.len()) == p
            &&& forall|k: int|
                0 <= k < i ==> #[trigger] s.subrange(k, k + p.len()) != p
            &&& forall|k: int|
                j < k <= s.len() - p.len() ==> #[trigger] s.subrange(k, k + p.len()) != p
        }),
{
    let s = a + p + b;
    assert(s.subrange(a.len() as int, (a.len() + p.len()) as int) =~= p);
    assert(text::occurs_at(s, p, a.len() as int));
    lemma_some_first(s, p, a.len() as int);
    lemma_some_last(s, p, a.len() as int);
    let i = text::first_index(s, p);
    let j = text::last_index(s, p);
    assert(text::first_at(s, p, i));
    assert(text::last_at(s, p, j));
    assert forall|k: int| 0 <= k < i implies #[trigger] s.subrange(k, k + p.len()) != p by {
        assert(!text::occurs_at(s, p, k));
    }
    assert forall|k: int| j < k <= s.len() - p.len() implies #[trigger] s.subrange(
        k,
        k + p.len(),
    ) != p by {
        assert(!text::occurs_at(s, p, k));
    }
}

proof fn lemma_some_first(s: Seq<char>, p: Seq<char>, n: int)
    requires
        text::occurs_at(s, p, n),
    ensures
        exists|i: int| text::first_at(s, p, i),
    decreases n,
{
    if exists|k: int| k < n && text::occurs_at(s, p, k) {
        let k = choose|k: int| k < n && text::occurs_at(s, p, k);
        lemma_some_first(s, p, k);
    } else {
        assert(text::first_at(s, p, n));
    }
}

proof fn lemma_some_last(s: Seq<char>, p: Seq<char>, n: int)
    requires
        text::occurs_at(s, p, n),
    ensures
        exists|i: int| text::last_at(s, p, i),
    decreases s.len() - n,
{
    if exists|k: int| k > n && text::occurs_at(s, p, k) {
        let k = choose|k: int| k > n && text::occurs_at(s, p, k);
        lemma_some_last(s, p, k);
    } else {
        assert(text::last_at(s, p, n));
    }
}

/// Blanks: the space, the tab and the ends of lines are white, and no other character of
/// printable ASCII is.
pub proof fn white_characters(c: char)
    ensures
        c == ' ' || c == '\t' || c == '\n' || c == '\r' ==> text::is_white(c),
        '!' <= c && c <= '~' ==> !text::is_white(c),
{
}

pub open spec fn all_white(s: Seq<char>) -> bool {
    forall|i: int| 0 <= i < s.len() ==> text::is_white(#[trigger] s[i])
}

/// Trimming takes the white space from both ends and nothing else.
pub proof fn trimming_takes_the_ends(a: Seq<char>, m: Seq<char>, b: Seq<char>)
    requires
        all_white(a),
        all_white(b),
        m.len() > 0 ==> !text::is_white(m[0]) && !text::is_white(m.last()),
    ensures
        text::trim(a + m + b) == m,
{
    lemma_trim_start(a, m + b);
    assert(a + m + b =~= a + (m + b));
    if m.len() == 0 {
        assert(m + b =~= b);
        lemma_trim_start(b, Seq::empty());
        assert(b + Seq::<char>::empty() =~= b);
        assert(text::trim_start(b) =~= Seq::<char>::empty());
        assert(text::trim_end(Seq::<char>::empty()) =~= Seq::<char>::empty());
        assert(m =~= Seq::<char>::empty());
    } else {
        assert((m + b)[0] == m[0]);
        lemma_trim_end(m, b);
    }
}

proof fn lemma_trim_start(a: Seq<char>, r: Seq<char>)
    requires
        all_white(a),
    ensures
        text::trim_start(a + r) == text::trim_start(r),
    decreases a.len(),
{
    if a.len() == 0 {
        assert(a + r =~= r);
    } else {
        let a2 = a.drop_first();
        assert forall|i: int| 0 <= i < a2.len() implies text::is_white(#[trigger] a2[i]) by {
            assert(a2[i] == a[i + 1]);
        }
        lemma_trim_start(a2, r);
        assert((a + r).drop_first() =~= a2 + r);
        assert((a + r)[0] == a[0]);
        assert(text::is_white(a[0]));
    }
}

proof fn lemma_trim_end(m: Seq<char>, b: Seq<char>)
    requires
        all_white(b),
        m.len() > 0,
        !text::is_white(m.last()),
    ensures
        text::trim_end(m + b) == m,
    decreases b.len(),
{
    if b.len() == 0 {
        assert(m + b =~= m);
    } else {
        let b2 = b.drop_last();
        assert forall|i: int| 0 <= i < b2.len() implies text::is_white(#[trigger] b2[i]) by {
            assert(b2[i] == b[i]);
        }
        lemma_trim_end(m, b2);
        assert((m + b).drop_last() =~= m + b2);
        assert((m + b).last() == b.last());
        assert(text::is_white(b[b.len() - 1]));
    }
}

/// A decimal number is read digit by digit: one more digit at the end makes it ten times
/// as large and adds the digit; where it gets too large, or where a character is no
/// digit, there is no number.
pub proof fn numbers_are_read_digit_by_digit(s: Seq<char>, c: char, max: nat)
    requires
        s.len() > 0,
        s != seq!['+'],
    ensures
        ({
            let v = text::parsed_unsigned(s, max);
            let w = text::parsed_unsigned(s.push(c), max);
            &&& !('0' <= c && c <= '9') ==> w is None
            &&& '0' <= c && c <= '9' ==> {
                let d = c as int - '0' as int;
                &&& v is None ==> w is None
                &&& v is Some ==> if v->0 * 10 + d <= max {
                    w == Some((v->0 * 10 + d) as nat)
                } else {
                    w is None
                }
            }
        }),
{
    let t = s.push(c);
    let x = text::unsigned_digits(s);
    let y = text::unsigned_digits(t);
    assert(t[0] == s[0]);
    if s[0] == '+' {
        assert(x.len() > 0) by {
            if s.len() == 1 {
                assert(s =~= seq!['+']);
            }
        }
        assert(y =~= x.push(c));
    } else {
        assert(y =~= x.push(c));
    }
    assert(y.drop_last() =~= x);
    assert(y.last() == c);
    assert(text::all_digits(y) <==> text::all_digits(x) && text::is_digit(c)) by {
        assert(y[x.len() as int] == c);
        if text::all_digits(y) {
            assert forall|i: int| 0 <= i < x.len() implies text::is_digit(#[trigger] x[i]) by {
                assert(y[i] == x[i]);
            }
        }
        if text::all_digits(x) && text::is_digit(c) {
            assert forall|i: int| 0 <= i < y.len() implies text::is_digit(#[trigger] y[i]) by {
                if i < x.len() {
                    assert(y[i] == x[i]);
                }
            }
        }
    }
}

/// One digit is the number that it stands for; a plus sign in front changes nothing, and
/// alone is no number.
pub proof fn numbers_begin_with_one_digit(c: char, s: Seq<char>, max: nat)
    requires
        max >= 9,
    ensures
        text::parsed_unsigned(Seq::empty(), max) is None,
        text::parsed_unsigned(seq!['+'], max) is None,
        '0' <= c && c <= '9' ==> text::parsed_unsigned(seq![c], max) == Some(
            (c as int - '0' as int) as nat,
        ),
        !('0' <= c && c <= '9') ==> text::parsed_unsigned(seq![c], max) is None,
        s.len() > 0 && s[0] != '+' ==> text::parsed_unsigned(seq!['+'] + s, max)
            == text::parsed_unsigned(s, max),
{
    let p = seq!['+'];
    assert(text::unsigned_digits(p) =~= Seq::<char>::empty());
    assert((p + s).drop_first() =~= s);
    let one = seq![c];
    if '0' <= c && c <= '9' {
        assert(one.drop_last() =~= Seq::<char>::empty());
        assert(text::digits_value(one.drop_last()) == 0);
        assert(text::all_digits(one));
    } else if c != '+' {
        assert(!text::is_digit(one[0]));
    }
}

/// Lower case changes the letters from `A` to `Z` to those from `a` to `z`, and no other
/// character.
pub proof fn lower_case_changes_capitals(s: Seq<char>, i: int)
    requires
        0 <= i < s.len(),
    ensures
        text::lowered(s).len() == s.len(),
        'A' <= s[i] && s[i] <= 'Z' ==> text::lowered(s)[i] as int == s[i] as int + 32,
        !('A' <= s[i] && s[i] <= 'Z') ==> text::lowered(s)[i] == s[i],
{
}

/// Numbers are written in digits, and none but zero begins with a zero.
pub proof fn numbers_are_written_without_zeros_in_front(n: nat)
    ensures
        text::decimal(n).len() > 0,
        n > 0 ==> text::decimal(n)[0] != '0',
        n == 0 ==> text::decimal(n) == seq!['0'],
        forall|i: int|
            0 <= i < text::decimal(n).len() ==> '0' <= #[trigger] text::decimal(n)[i]
                && text::decimal(n)[i] <= '9',
    decreases n,
{
    let d = text::decimal(n);
    let last = (('0' as u32 + (n % 10)) as u32) as char;
    assert('0' <= last && last <= '9');
    assert(n % 10 != 0 ==> last != '0');
    if n < 10 {
        assert(d =~= seq![last]);
        assert(n == 0 ==> last == '0');
    } else {
        numbers_are_written_without_zeros_in_front(n / 10);
        let e = text::decimal(n / 10);
        assert(d == e.push(last));
        assert(d[0] == e[0]);
        assert forall|i: int| 0 <= i < d.len() implies '0' <= #[trigger] d[i] && d[i] <= '9' by {
            if i < e.len() {
                assert(d[i] == e[i]);
            }
        }
    }
}

} // verus!
