//! What the flags mean.

use vstd::prelude::*;

use crate::config;
use crate::config::{AuthFlags, Declares, LayoutView, MountView, StorageFlags};
use crate::k8s::K8sAuthConfig;
use crate::laws::access;
use crate::laws::words;
use crate::quota::QuotaView;
use crate::text;

verus! {

/// A run of decimal digits that stands for this number.
pub open spec fn is_number(d: Seq<char>, n: nat) -> bool {
    &&& d.len() > 0
    &&& forall|i: int| 0 <= i < d.len() ==> '0' <= #[trigger] d[i] && d[i] <= '9'
    &&& text::parsed_unsigned(d, u64::MAX as nat) == Some(n)
}

proof fn lemma_digit_run(d: Seq<char>, r: Seq<char>)
    requires
        forall|i: int| 0 <= i < d.len() ==> '0' <= #[trigger] d[i] && d[i] <= '9',
        r.len() > 0 ==> !('0' <= r[0] && r[0] <= '9'),
    ensures
        config::digit_run(d + r) == d.len(),
    decreases d.len(),
{
    if d.len() == 0 {
        assert(d + r =~= r);
    } else {
        let e = d.drop_first();
        assert forall|i: int| 0 <= i < e.len() implies '0' <= #[trigger] e[i] && e[i] <= '9' by {
            assert(e[i] == d[i + 1]);
        }
        lemma_digit_run(e, r);
        assert((d + r).drop_first() =~= e + r);
        assert((d + r)[0] == d[0]);
        assert('0' <= d[0] && d[0] <= '9');
    }
}

/// How many bytes the unit stands for: each letter is 1024 times the one before, with or
/// without an `i`, in any letter case.
pub open spec fn unit_means(unit: Seq<char>, n: nat) -> bool {
    ||| n == 1 && (unit.len() == 0 || access::same_letters(unit, "b"@))
    ||| n == 1024 && (access::same_letters(unit, "k"@) || access::same_letters(unit, "ki"@))
    ||| n == 1024 * 1024 && (access::same_letters(unit, "m"@) || access::same_letters(
        unit,
        "mi"@,
    ))
    ||| n == 1024 * 1024 * 1024 && (access::same_letters(unit, "g"@) || access::same_letters(
        unit,
        "gi"@,
    ))
    ||| n == 1024 * 1024 * 1024 * 1024 && (access::same_letters(unit, "t"@)
        || access::same_letters(unit, "ti"@))
}

proof fn lemma_unit(unit: Seq<char>, n: nat)
    requires
        unit_means(unit, n),
    ensures
        config::unit_size(text::lowered(unit)) == Some(n as u64),
        n as u64 == n,
        unit.len() > 0 ==> !text::is_white(unit[0]) && !text::is_white(unit.last())
            && !text::is_digit(unit[0]),
{
    reveal_strlit("");
    reveal_strlit("b");
    reveal_strlit("k");
    reveal_strlit("ki");
    reveal_strlit("m");
    reveal_strlit("mi");
    reveal_strlit("g");
    reveal_strlit("gi");
    reveal_strlit("t");
    reveal_strlit("ti");
    lemma_lower_unit(unit, "b"@);
    lemma_lower_unit(unit, "k"@);
    lemma_lower_unit(unit, "ki"@);
    lemma_lower_unit(unit, "m"@);
    lemma_lower_unit(unit, "mi"@);
    lemma_lower_unit(unit, "g"@);
    lemma_lower_unit(unit, "gi"@);
    lemma_lower_unit(unit, "t"@);
    lemma_lower_unit(unit, "ti"@);
    let l = text::lowered(unit);
    if unit.len() == 0 {
        assert(l =~= ""@);
    }
    assert("b"@[0] == 'b' && "k"@[0] == 'k' && "m"@[0] == 'm' && "g"@[0] == 'g' && "t"@[0] == 't');
    assert("ki"@[0] == 'k' && "mi"@[0] == 'm' && "gi"@[0] == 'g' && "ti"@[0] == 't');
    assert("ki"@[1] == 'i' && "mi"@[1] == 'i' && "gi"@[1] == 'i' && "ti"@[1] == 'i');
    if unit.len() > 0 {
        assert(l[0] == text::ascii_lower(unit[0]));
        assert(l.last() == text::ascii_lower(unit.last()));
    }
}

/// A text of lower case is what another is in lower case where the letters are the same.
proof fn lemma_lower_unit(a: Seq<char>, b: Seq<char>)
    ensures
        (forall|i: int| 0 <= i < b.len() ==> !('A' <= #[trigger] b[i] && b[i] <= 'Z'))
            && access::same_letters(a, b) ==> text::lowered(a) == b,
{
    if (forall|i: int| 0 <= i < b.len() ==> !('A' <= #[trigger] b[i] && b[i] <= 'Z'))
        && access::same_letters(a, b) {
        let l = text::lowered(a);
        assert forall|i: int| 0 <= i < a.len() implies l[i] == b[i] by {
            assert(access::same_letter(a[i], b[i]));
            assert(l[i] == text::ascii_lower(a[i]));
            assert(!('A' <= b[i] && b[i] <= 'Z'));
        }
        assert(l =~= b);
    }
}

/// A size is a number with a unit: so many times what the unit stands for. White space
/// around the two and between them does not count. A size of more than 64 bits is none.
pub proof fn size_is_number_times_unit(
    a: Seq<char>,
    digits: Seq<char>,
    n: nat,
    gap: Seq<char>,
    unit: Seq<char>,
    m: nat,
    b: Seq<char>,
)
    requires
        words::all_white(a),
        words::all_white(gap),
        words::all_white(b),
        is_number(digits, n),
        unit_means(unit, m),
    ensures
        n * m <= u64::MAX ==> config::size_of(a + digits + gap + unit + b) == Ok::<u64, Seq<char>>(
            (n * m) as u64,
        ),
        n * m > u64::MAX ==> config::size_of(a + digits + gap + unit + b) is Err,
{
    lemma_unit(unit, m);
    let s = a + digits + gap + unit + b;
    let none = Seq::<char>::empty();
    // Without a unit the gap is white space at the end.
    let core = if unit.len() > 0 {
        digits + gap + unit
    } else {
        digits
    };
    let end = if unit.len() > 0 {
        b
    } else {
        gap + b
    };
    assert(s =~= a + core + end);
    assert(core[0] == digits[0]);
    assert(text::is_digit(digits[0]));
    assert(text::is_digit(digits[digits.len() - 1]));
    assert(words::all_white(end)) by {
        assert forall|i: int| 0 <= i < end.len() implies text::is_white(#[trigger] end[i]) by {
            if unit.len() == 0 {
                if i < gap.len() {
                    assert(end[i] == gap[i]);
                } else {
                    assert(end[i] == b[i - gap.len()]);
                }
            }
        }
    }
    words::trimming_takes_the_ends(a, core, end);
    let rest = if unit.len() > 0 {
        gap + unit
    } else {
        none
    };
    assert(core =~= digits + rest);
    assert(rest.len() > 0 ==> !('0' <= rest[0] && rest[0] <= '9')) by {
        if rest.len() > 0 {
            if gap.len() > 0 {
                assert(rest[0] == gap[0]);
                assert(text::is_white(gap[0]));
            } else {
                assert(rest[0] == unit[0]);
            }
        }
    }
    lemma_digit_run(digits, rest);
    assert(core.subrange(0, digits.len() as int) =~= digits);
    assert(text::from_pos(core, digits.len() as int) =~= rest);
    assert(rest =~= (if unit.len() > 0 {
        gap
    } else {
        none
    }) + unit + none);
    words::trimming_takes_the_ends(
        if unit.len() > 0 {
            gap
        } else {
            none
        },
        unit,
        none,
    );
}

/// What is some text in lower case has the same letters.
proof fn lemma_same_letters(a: Seq<char>, b: Seq<char>)
    ensures
        text::lowered(a) == b ==> access::same_letters(a, b),
{
    let l = text::lowered(a);
    if l == b {
        assert forall|i: int| 0 <= i < a.len() implies access::same_letter(#[trigger] a[i], b[i]) by {
            assert(l[i] == text::ascii_lower(a[i]));
        }
    }
}

/// A number with a unit that there is none of is no size.
pub proof fn unknown_units_are_refused(
    a: Seq<char>,
    digits: Seq<char>,
    n: nat,
    gap: Seq<char>,
    unit: Seq<char>,
    b: Seq<char>,
)
    requires
        words::all_white(a),
        words::all_white(gap),
        words::all_white(b),
        is_number(digits, n),
        unit.len() > 0,
        !text::is_white(unit[0]),
        !text::is_white(unit.last()),
        !('0' <= unit[0] && unit[0] <= '9'),
        forall|m: nat| !unit_means(unit, m),
    ensures
        config::size_of(a + digits + gap + unit + b) is Err,
{
    reveal_strlit("");
    assert(!unit_means(unit, 1));
    assert(!unit_means(unit, 1024));
    assert(!unit_means(unit, 1024 * 1024));
    assert(!unit_means(unit, 1024 * 1024 * 1024));
    assert(!unit_means(unit, 1024 * 1024 * 1024 * 1024));
    lemma_same_letters(unit, "b"@);
    lemma_same_letters(unit, "k"@);
    lemma_same_letters(unit, "ki"@);
    lemma_same_letters(unit, "m"@);
    lemma_same_letters(unit, "mi"@);
    lemma_same_letters(unit, "g"@);
    lemma_same_letters(unit, "gi"@);
    lemma_same_letters(unit, "t"@);
    lemma_same_letters(unit, "ti"@);
    assert(text::lowered(unit).len() == unit.len());
    assert(config::unit_size(text::lowered(unit)) is None);
    let s = a + digits + gap + unit + b;
    let none = Seq::<char>::empty();
    let core = digits + gap + unit;
    assert(s =~= a + core + b);
    assert(core[0] == digits[0]);
    assert(text::is_digit(digits[0]));
    assert(core.last() == unit.last());
    words::trimming_takes_the_ends(a, core, b);
    let rest = gap + unit;
    assert(core =~= digits + rest);
    assert(!('0' <= rest[0] && rest[0] <= '9')) by {
        if gap.len() > 0 {
            assert(rest[0] == gap[0]);
            assert(text::is_white(gap[0]));
        } else {
            assert(rest[0] == unit[0]);
        }
    }
    lemma_digit_run(digits, rest);
    assert(core.subrange(0, digits.len() as int) =~= digits);
    assert(text::from_pos(core, digits.len() as int) =~= rest);
    assert(rest =~= gap + unit + none);
    words::trimming_takes_the_ends(gap, unit, none);
}

/// A text that does not begin with a digit is no size and no duration.
pub proof fn sizes_begin_with_a_digit(a: Seq<char>, s: Seq<char>, b: Seq<char>)
    requires
        words::all_white(a),
        words::all_white(b),
        s.len() > 0 ==> !text::is_white(s[0]) && !text::is_white(s.last()) && !('0' <= s[0] && s[0]
            <= '9'),
    ensures
        config::size_of(a + s + b) is Err,
        config::duration_of(a + s + b) is Err,
{
    reveal_strlit("0");
    words::trimming_takes_the_ends(a, s, b);
    assert(config::digit_run(s) == 0);
    assert(s.subrange(0, 0) =~= Seq::<char>::empty());
    words::numbers_begin_with_one_digit('0', s, u64::MAX as nat);
    let t = a + s + b;
    if t == "0"@ {
        assert(t[0] == '0');
        if a.len() > 0 {
            assert(t[0] == a[0]);
            assert(text::is_white(a[0]));
        } else if s.len() > 0 {
            assert(t[0] == s[0]);
        } else {
            assert(t[0] == b[0]);
            assert(text::is_white(b[0]));
        }
    }
}

/// A duration is a number of seconds, minutes or hours; without a unit, of seconds.
pub proof fn duration_is_number_times_unit(
    a: Seq<char>,
    digits: Seq<char>,
    n: nat,
    unit: Seq<char>,
    b: Seq<char>,
)
    requires
        words::all_white(a),
        words::all_white(b),
        is_number(digits, n),
        unit.len() > 0 ==> !text::is_white(unit[0]) && !text::is_white(unit.last()) && !('0'
            <= unit[0] && unit[0] <= '9'),
    ensures
        ({
            let r = config::duration_of(a + digits + unit + b);
            &&& unit == ""@ || unit == "s"@ ==> r == Ok::<nat, Seq<char>>(n)
            &&& unit == "m"@ ==> r == Ok::<nat, Seq<char>>(n * 60)
            &&& unit == "h"@ ==> r == Ok::<nat, Seq<char>>(n * 3600)
            &&& unit.len() > 0 && unit != "s"@ && unit != "m"@ && unit != "h"@ ==> r is Err
        }),
{
    reveal_strlit("");
    reveal_strlit("0");
    reveal_strlit("s");
    reveal_strlit("m");
    reveal_strlit("h");
    assert("s"@[0] != "m"@[0] && "s"@[0] != "h"@[0] && "m"@[0] != "h"@[0]);
    let s = a + digits + unit + b;
    let core = digits + unit;
    assert(s =~= a + core + b);
    assert(core[0] == digits[0]);
    assert(text::is_digit(digits[0]));
    assert(text::is_digit(digits[digits.len() - 1]));
    if unit.len() > 0 {
        assert(core.last() == unit.last());
    } else {
        assert(core =~= digits);
    }
    words::trimming_takes_the_ends(a, core, b);
    lemma_digit_run(digits, unit);
    assert(core.subrange(0, digits.len() as int) =~= digits);
    assert(text::from_pos(core, digits.len() as int) =~= unit);
    if s == "0"@ {
        assert(s.len() == 1);
        assert(a.len() == 0 && unit.len() == 0 && b.len() == 0 && digits.len() == 1);
        assert(s[0] == digits[0]);
        assert(digits =~= seq!['0']);
        words::numbers_begin_with_one_digit('0', digits, u64::MAX as nat);
        assert(n == 0);
    }
}

/// A time in seconds is kept in milliseconds.
pub proof fn seconds_are_kept_in_milliseconds(n: nat)
    ensures
        n * 1000 <= u64::MAX ==> config::millis(n) == n * 1000,
        n * 1000 > u64::MAX ==> config::millis(n) == u64::MAX,
{
}

proof fn lemma_halves(name: Seq<char>, rest: Seq<char>)
    requires
        words::lacks(name, '='),
    ensures
        config::halves(name + seq!['='] + rest) == Some((name, rest)),
{
    let s = name + seq!['='] + rest;
    words::first_place_of_a_character(name, '=', rest);
    assert(s.subrange(0, name.len() as int) =~= name);
    assert(text::from_pos(s, (name.len() + 1) as int) =~= rest);
}

proof fn lemma_no_halves(s: Seq<char>)
    requires
        words::lacks(s, '='),
    ensures
        config::halves(s) is None,
{
    if s.contains('=') {
        let i = choose|i: int| 0 <= i < s.len() && s[i] == '=';
        assert(s[i] != '=');
    }
}

/// A quota flag `pattern=size` is a quota of this size for the pattern, and one for a class
/// for all repositories of the class.
pub proof fn quota_flag_is_a_quota(name: Seq<char>, size: Seq<char>, n: u64, s: Seq<char>, class: bool)
    requires
        words::lacks(name, '='),
        words::lacks(s, '='),
    ensures
        ({
            let q = config::quota_in(name + seq!['='] + size, class);
            &&& name.len() > 0 && config::size_of(size) == Ok::<u64, Seq<char>>(n) ==> q == Ok::<
                _,
                Seq<char>,
            >(
                QuotaView {
                    pattern: if class {
                        name + seq!['/', '*']
                    } else {
                        name
                    },
                    max_bytes: n,
                },
            )
            &&& name.len() == 0 || config::size_of(size) is Err ==> q is Err
            &&& config::quota_in(s, class) is Err
        }),
{
    reveal_strlit("/*");
    assert("/*"@ =~= seq!['/', '*']);
    lemma_halves(name, size);
    lemma_no_halves(s);
}

proof fn lemma_quotas_upto(raws: Seq<Seq<char>>, class: bool, n: nat)
    requires
        n <= raws.len(),
    ensures
        ({
            let r = config::quotas_upto(raws, class, n);
            &&& r is Ok <==> forall|i: int|
                0 <= i < n ==> config::quota_in(#[trigger] raws[i], class) is Ok
            &&& r is Ok ==> r->Ok_0.len() == n && forall|i: int|
                0 <= i < n ==> #[trigger] r->Ok_0[i] == config::quota_in(raws[i], class)->Ok_0
        }),
    decreases n,
{
    if n > 0 {
        lemma_quotas_upto(raws, class, (n - 1) as nat);
        let before = config::quotas_upto(raws, class, (n - 1) as nat);
        let r = config::quotas_upto(raws, class, n);
        if r is Ok {
            assert forall|i: int| 0 <= i < n implies config::quota_in(#[trigger] raws[i], class) is Ok by {
                if i < n - 1 {
                    assert(before is Ok);
                }
            }
            assert forall|i: int| 0 <= i < n implies #[trigger] r->Ok_0[i] == config::quota_in(
                raws[i],
                class,
            )->Ok_0 by {
                if i < n - 1 {
                    assert(r->Ok_0[i] == before->Ok_0[i]);
                }
            }
        }
        if forall|i: int| 0 <= i < n ==> config::quota_in(#[trigger] raws[i], class) is Ok {
            assert(config::quota_in(raws[n - 1], class) is Ok);
        }
    }
}

/// Every quota flag gives a quota, those for classes first, in their order; one that is
/// wrong spoils all.
pub proof fn quota_flags_are_quotas(quotas: Seq<Seq<char>>, classes: Seq<Seq<char>>)
    ensures
        ({
            let r = config::quotas_of(quotas, classes);
            &&& r is Ok <==> (forall|i: int|
                0 <= i < classes.len() ==> config::quota_in(#[trigger] classes[i], true) is Ok) && (
            forall|i: int|
                0 <= i < quotas.len() ==> config::quota_in(#[trigger] quotas[i], false) is Ok)
            &&& r is Ok ==> {
                &&& r->Ok_0.len() == classes.len() + quotas.len()
                &&& forall|i: int|
                    0 <= i < classes.len() ==> r->Ok_0[i] == config::quota_in(
                        #[trigger] classes[i],
                        true,
                    )->Ok_0
                &&& forall|i: int|
                    0 <= i < quotas.len() ==> r->Ok_0[classes.len() + i] == config::quota_in(
                        #[trigger] quotas[i],
                        false,
                    )->Ok_0
            }
        }),
{
    lemma_quotas_upto(classes, true, classes.len());
    lemma_quotas_upto(quotas, false, quotas.len());
    let a = config::quotas_upto(classes, true, classes.len());
    let b = config::quotas_upto(quotas, false, quotas.len());
    let r = config::quotas_of(quotas, classes);
    if r is Ok {
        assert forall|i: int| 0 <= i < classes.len() implies r->Ok_0[i] == config::quota_in(
            #[trigger] classes[i],
            true,
        )->Ok_0 by {
            assert(a->Ok_0[i] == config::quota_in(classes[i], true)->Ok_0);
        }
        assert forall|i: int| 0 <= i < quotas.len() implies r->Ok_0[classes.len() + i]
            == config::quota_in(#[trigger] quotas[i], false)->Ok_0 by {
            assert(b->Ok_0[i] == config::quota_in(quotas[i], false)->Ok_0);
        }
    }
}

/// A flag `name=path` declares a directory under a name; the name of a class holds no
/// slash and no star.
pub proof fn mount_flag_is_a_mount(kind: Declares, name: Seq<char>, path: Seq<char>, s: Seq<char>)
    requires
        words::lacks(name, '='),
        words::lacks(s, '='),
    ensures
        ({
            let m = config::mount_in(kind, name + seq!['='] + path);
            let bare = words::lacks(name, '/') && words::lacks(name, '*');
            &&& name.len() > 0 && (kind != Declares::Class || bare) ==> m == Ok::<_, Seq<char>>(
                MountView { name, path },
            )
            &&& name.len() == 0 || (kind == Declares::Class && !bare) ==> m is Err
            &&& config::mount_in(kind, s) is Err
        }),
{
    lemma_halves(name, path);
    lemma_no_halves(s);
    lemma_contains(name, '/');
    lemma_contains(name, '*');
}

proof fn lemma_contains(s: Seq<char>, c: char)
    ensures
        s.contains(c) <==> !words::lacks(s, c),
{
    if s.contains(c) {
        let i = choose|i: int| 0 <= i < s.len() && s[i] == c;
        assert(s[i] == c);
    }
    if !words::lacks(s, c) {
        let i = choose|i: int| 0 <= i < s.len() && !(#[trigger] s[i] != c);
        assert(s.contains(s[i]));
    }
}

proof fn lemma_mounts_upto(kind: Declares, raws: Seq<Seq<char>>, n: nat)
    requires
        n <= raws.len(),
    ensures
        ({
            let (v, e) = config::mounts_upto(kind, raws, n);
            &&& e is None <==> forall|i: int|
                0 <= i < n ==> config::mount_in(kind, #[trigger] raws[i]) is Ok
            &&& e is None ==> v.len() == n
            &&& v.len() <= n
            &&& forall|i: int|
                0 <= i < v.len() ==> #[trigger] config::mount_in(kind, raws[i]) is Ok && v[i]
                    == config::mount_in(kind, raws[i])->Ok_0
        }),
    decreases n,
{
    if n > 0 {
        lemma_mounts_upto(kind, raws, (n - 1) as nat);
        let (v, e) = config::mounts_upto(kind, raws, (n - 1) as nat);
        let (w, f) = config::mounts_upto(kind, raws, n);
        assert(e is Some ==> w == v && f == e);
        assert(e is None && f is None ==> w == v.push(
            config::mount_in(kind, raws[n - 1])->Ok_0,
        ));
        assert(e is None && f is Some ==> w == v && config::mount_in(kind, raws[n - 1]) is Err);
        if f is None {
            assert forall|i: int| 0 <= i < n implies config::mount_in(kind, #[trigger] raws[i]) is Ok by {
                if i < n - 1 {
                    assert(e is None);
                }
            }
        }
        if forall|i: int| 0 <= i < n ==> config::mount_in(kind, #[trigger] raws[i]) is Ok {
            assert(config::mount_in(kind, raws[n - 1]) is Ok);
        }
        assert forall|i: int| 0 <= i < w.len() implies #[trigger] config::mount_in(kind, raws[i]) is Ok
            && w[i] == config::mount_in(kind, raws[i])->Ok_0 by {
            if i < v.len() {
                assert(w[i] == v[i]);
            }
        }
    }
}

/// The flags that declare something are all right.
pub open spec fn all_right(kind: Declares, raws: Seq<String>) -> bool {
    forall|i: int| 0 <= i < raws.len() ==> config::mount_in(kind, (#[trigger] raws[i])@) is Ok
}

/// With classes or roots there is a router: it has a rule for each class, for all its
/// repositories, and then one for each root, in the order of the flags, and every
/// directory is opened.
pub proof fn classes_and_roots_make_a_router(f: StorageFlags)
    requires
        f.repo_roots@.len() > 0 || f.repo_classes@.len() > 0,
        all_right(Declares::Class, f.repo_classes@),
        all_right(Declares::Root, f.repo_roots@),
        config::quotas_of(text::views(f.quotas@), text::views(f.quota_classes@)) is Ok,
    ensures
        ({
            let p = config::plan_of(f);
            let n = f.repo_classes@.len() as int;
            &&& p.opens.len() == n + f.repo_roots@.len()
            &&& p.end is Ok
            &&& p.end->Ok_0 is Routed
            &&& p.end->Ok_0->patterns.len() == n + f.repo_roots@.len()
            &&& p.end->Ok_0->classes.len() == n
            &&& p.end->Ok_0->quotas == config::quotas_of(
                text::views(f.quotas@),
                text::views(f.quota_classes@),
            )->Ok_0
            &&& forall|i: int|
                0 <= i < n ==> {
                    let m = config::mount_in(
                        Declares::Class,
                        (#[trigger] f.repo_classes@[i])@,
                    )->Ok_0;
                    &&& p.opens[i].path == m.path
                    &&& p.end->Ok_0->patterns[i] == m.name + seq!['/', '*']
                    &&& p.end->Ok_0->classes[i].name == m.name
                    &&& p.end->Ok_0->classes[i].pattern == m.name + seq!['/', '*']
                    &&& p.end->Ok_0->classes[i].root == m.path
                }
            &&& forall|i: int|
                0 <= i < f.repo_roots@.len() ==> {
                    let m = config::mount_in(Declares::Root, (#[trigger] f.repo_roots@[i])@)->Ok_0;
                    &&& p.opens[n + i].path == m.path
                    &&& p.end->Ok_0->patterns[n + i] == m.name
                }
        }),
{
    reveal_strlit("/*");
    assert("/*"@ =~= seq!['/', '*']);
    let a = text::views(f.repo_classes@);
    let b = text::views(f.repo_roots@);
    lemma_mounts_upto(Declares::Class, a, a.len());
    lemma_mounts_upto(Declares::Root, b, b.len());
    assert forall|i: int| 0 <= i < a.len() implies config::mount_in(
        Declares::Class,
        #[trigger] a[i],
    ) is Ok by {
        assert(a[i] == f.repo_classes@[i]@);
    }
    assert forall|i: int| 0 <= i < b.len() implies config::mount_in(
        Declares::Root,
        #[trigger] b[i],
    ) is Ok by {
        assert(b[i] == f.repo_roots@[i]@);
    }
    let (cs, e) = config::mounts_upto(Declares::Class, a, a.len());
    let (rs, e2) = config::mounts_upto(Declares::Root, b, b.len());
    let p = config::plan_of(f);
    let n = a.len() as int;
    assert forall|i: int| 0 <= i < n implies {
        let m = config::mount_in(Declares::Class, (#[trigger] f.repo_classes@[i])@)->Ok_0;
        &&& p.opens[i].path == m.path
        &&& p.end->Ok_0->patterns[i] == m.name + seq!['/', '*']
        &&& p.end->Ok_0->classes[i].name == m.name
        &&& p.end->Ok_0->classes[i].pattern == m.name + seq!['/', '*']
        &&& p.end->Ok_0->classes[i].root == m.path
    } by {
        assert(a[i] == f.repo_classes@[i]@);
        assert(cs[i] == config::mount_in(Declares::Class, a[i])->Ok_0);
    }
    assert forall|i: int| 0 <= i < f.repo_roots@.len() implies {
        let m = config::mount_in(Declares::Root, (#[trigger] f.repo_roots@[i])@)->Ok_0;
        &&& p.opens[n + i].path == m.path
        &&& p.end->Ok_0->patterns[n + i] == m.name
    } by {
        assert(b[i] == f.repo_roots@[i]@);
        assert(rs[i] == config::mount_in(Declares::Root, b[i])->Ok_0);
    }
}

/// With partitions there is a store that is composed of them; the primary is the one that
/// is named, or the only one. With several, one must be named.
pub proof fn partitions_make_a_composed_store(f: StorageFlags)
    requires
        f.repo_roots@.len() == 0,
        f.repo_classes@.len() == 0,
        f.partitions@.len() > 0,
        all_right(Declares::Partition, f.partitions@),
    ensures
        ({
            let p = config::plan_of(f);
            let n = f.partitions@.len() as int;
            &&& p.opens.len() == n
            &&& p.end is Ok <==> f.primary is Some || n == 1
            &&& p.end is Ok ==> {
                &&& p.end->Ok_0 is Partitions
                &&& p.end->Ok_0->names.len() == n
                &&& f.primary is Some ==> p.end->Ok_0->primary == f.primary->0@
                &&& f.primary is None ==> p.end->Ok_0->primary == p.end->Ok_0->names[0]
                &&& forall|i: int|
                    0 <= i < n ==> p.end->Ok_0->names[i] == config::mount_in(
                        Declares::Partition,
                        (#[trigger] f.partitions@[i])@,
                    )->Ok_0.name
            }
            &&& forall|i: int|
                0 <= i < n ==> p.opens[i].path == config::mount_in(
                    Declares::Partition,
                    (#[trigger] f.partitions@[i])@,
                )->Ok_0.path
        }),
{
    let a = text::views(f.partitions@);
    lemma_mounts_upto(Declares::Partition, a, a.len());
    assert forall|i: int| 0 <= i < a.len() implies config::mount_in(
        Declares::Partition,
        #[trigger] a[i],
    ) is Ok by {
        assert(a[i] == f.partitions@[i]@);
    }
    let (ps, e) = config::mounts_upto(Declares::Partition, a, a.len());
    let p = config::plan_of(f);
    assert forall|i: int| 0 <= i < a.len() implies p.opens[i].path == config::mount_in(
        Declares::Partition,
        (#[trigger] f.partitions@[i])@,
    )->Ok_0.path && (p.end is Ok ==> p.end->Ok_0->names[i] == config::mount_in(
        Declares::Partition,
        f.partitions@[i]@,
    )->Ok_0.name) by {
        assert(a[i] == f.partitions@[i]@);
        assert(ps[i] == config::mount_in(Declares::Partition, a[i])->Ok_0);
    }
}

/// Without any of these there is one directory.
pub proof fn without_flags_there_is_one_directory(f: StorageFlags)
    requires
        f.repo_roots@.len() == 0,
        f.repo_classes@.len() == 0,
        f.partitions@.len() == 0,
    ensures
        config::plan_of(f).end == Ok::<_, Seq<char>>(LayoutView::Single),
        config::plan_of(f).opens.len() == 0,
{
}

/// A flag that is wrong is told of.
pub proof fn wrong_flags_are_told_of(f: StorageFlags)
    requires
        ({
            ||| f.repo_roots@.len() + f.repo_classes@.len() > 0 && (!all_right(
                Declares::Class,
                f.repo_classes@,
            ) || !all_right(Declares::Root, f.repo_roots@) || config::quotas_of(
                text::views(f.quotas@),
                text::views(f.quota_classes@),
            ) is Err)
            ||| f.repo_roots@.len() + f.repo_classes@.len() == 0 && !all_right(
                Declares::Partition,
                f.partitions@,
            )
        }),
    ensures
        config::plan_of(f).end is Err,
{
    lemma_wrong(Declares::Class, f.repo_classes@);
    lemma_wrong(Declares::Root, f.repo_roots@);
    lemma_wrong(Declares::Partition, f.partitions@);
}

proof fn lemma_wrong(kind: Declares, raws: Seq<String>)
    ensures
        config::mounts_upto(kind, text::views(raws), raws.len()).1 is None <==> all_right(
            kind,
            raws,
        ),
{
    let a = text::views(raws);
    lemma_mounts_upto(kind, a, a.len());
    if all_right(kind, raws) {
        assert forall|i: int| 0 <= i < a.len() implies config::mount_in(kind, #[trigger] a[i]) is Ok by {
            assert(a[i] == raws[i]@);
        }
    }
    if forall|i: int| 0 <= i < a.len() ==> config::mount_in(kind, #[trigger] a[i]) is Ok {
        assert forall|i: int| 0 <= i < raws.len() implies config::mount_in(
            kind,
            (#[trigger] raws[i])@,
        ) is Ok by {
            assert(a[i] == raws[i]@);
        }
    }
}

/// The mode of authentication is the one that is named; without a name it is by a file
/// where there is one, and else there is none.
pub proof fn mode_of_authentication(f: AuthFlags)
    ensures
        f.auth is Some ==> config::auth_mode(f) == f.auth->0@,
        f.auth is None && f.has_file ==> config::auth_mode(f) == "htpasswd"@,
        f.auth is None && !f.has_file ==> config::auth_mode(f) == "none"@,
{
}

/// What is wrong with the flags about authentication: a file is missing, a resource has no
/// group, a time is none, or the mode is unknown. Nothing else is.
pub proof fn flags_about_authentication(f: AuthFlags)
    ensures
        ({
            let mode = config::auth_mode(f);
            let wrong = config::auth_problem(f) is Some;
            &&& mode == "none"@ ==> !wrong
            &&& mode == "htpasswd"@ ==> (wrong <==> !f.has_file)
            &&& mode == "k8s"@ ==> (wrong <==> words::lacks(f.resource@, '/')
                || config::duration_of(f.cache_ttl@) is Err)
            &&& mode != "none"@ && mode != "htpasswd"@ && mode != "k8s"@ ==> wrong
        }),
{
    reveal_strlit("none");
    reveal_strlit("htpasswd");
    reveal_strlit("k8s");
    assert("none"@.len() != "htpasswd"@.len() && "none"@.len() != "k8s"@.len());
    lemma_contains(f.resource@, '/');
}

/// The configuration of a cluster is what the flags say: the resource is cut at its first
/// slash, times are in milliseconds, and the realm is the URL that is given or this
/// server's own.
pub proof fn cluster_is_configured(
    f: AuthFlags,
    cfg: K8sAuthConfig,
    group: Seq<char>,
    resource: Seq<char>,
    secs: nat,
)
    requires
        config::configured(f, cfg),
        words::lacks(group, '/'),
        f.resource@ == group + seq!['/'] + resource,
        config::duration_of(f.cache_ttl@) == Ok::<nat, Seq<char>>(secs),
        secs * 1000 <= u64::MAX,
    ensures
        cfg.resource_group@ == group,
        cfg.resource@ == resource,
        cfg.cache_ttl == secs * 1000,
        cfg.allow_loopback == f.allow_loopback,
        cfg.default_namespace is Some <==> f.default_namespace is Some,
        cfg.default_namespace is Some ==> cfg.default_namespace->0@ == f.default_namespace->0@,
        f.token_url is Some ==> cfg.token_realm@ == f.token_url->0@,
        f.token_url is None && f.has_cert ==> cfg.token_realm@ == "https"@ + "://"@ + f.listen@
            + "/token"@,
        f.token_url is None && !f.has_cert ==> cfg.token_realm@ == "http"@ + "://"@ + f.listen@
            + "/token"@,
        cfg.service@ == "rspace-registry"@,
{
    words::first_place_of_a_character(group, '/', resource);
    let s = f.resource@;
    assert(s.subrange(0, group.len() as int) =~= group);
    assert(text::from_pos(s, (group.len() + 1) as int) =~= resource);
}

} // verus!
