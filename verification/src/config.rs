//! From command-line flags to what they ask for.

use vstd::prelude::*;

use crate::k8s::K8sAuthConfig;
use crate::order;
use crate::quota::{Quota, QuotaView};
use crate::router::RepoClass;
use crate::text;

verus! {

// ---- Sizes and durations --------------------------------------------------

/// How many digits a text begins with.
pub open spec fn digit_run(s: Seq<char>) -> nat
    decreases s.len(),
{
    if s.len() == 0 || !text::is_digit(s[0]) {
        0
    } else {
        1 + digit_run(s.drop_first())
    }
}

proof fn lemma_digit_run(s: Seq<char>, i: int)
    requires
        0 <= i <= s.len(),
        forall|j: int| 0 <= j < i ==> text::is_digit(#[trigger] s[j]),
        i < s.len() ==> !text::is_digit(s[i]),
    ensures
        digit_run(s) == i,
    decreases i,
{
    if i > 0 {
        let t = s.drop_first();
        assert forall|j: int| 0 <= j < i - 1 implies text::is_digit(#[trigger] t[j]) by {
            assert(t[j] == s[j + 1]);
        }
        lemma_digit_run(t, i - 1);
        assert(text::is_digit(s[0]));
    }
}

fn leading_digits(v: &Vec<char>) -> (r: usize)
    ensures
        r == digit_run(v@),
        r <= v@.len(),
{
    let mut i: usize = 0;
    while i < v.len() && '0' <= v[i] && v[i] <= '9'
        invariant
            i <= v@.len(),
            forall|j: int| 0 <= j < i ==> text::is_digit(#[trigger] v@[j]),
        decreases v@.len() - i,
    {
        i = i + 1;
    }
    proof {
        lemma_digit_run(v@, i as int);
    }
    i
}

/// The number of bytes that a unit stands for; all are powers of 1024.
pub open spec fn unit_size(unit: Seq<char>) -> Option<u64> {
    if unit == ""@ || unit == "b"@ {
        Some(1)
    } else if unit == "k"@ || unit == "ki"@ {
        Some(0x400)
    } else if unit == "m"@ || unit == "mi"@ {
        Some(0x10_0000)
    } else if unit == "g"@ || unit == "gi"@ {
        Some(0x4000_0000)
    } else if unit == "t"@ || unit == "ti"@ {
        Some(0x100_0000_0000)
    } else {
        None
    }
}

fn bytes_in(unit: &str) -> (r: Option<u64>)
    ensures
        r == unit_size(unit@),
{
    if text::same(unit, "") || text::same(unit, "b") {
        Some(1)
    } else if text::same(unit, "k") || text::same(unit, "ki") {
        Some(0x400)
    } else if text::same(unit, "m") || text::same(unit, "mi") {
        Some(0x10_0000)
    } else if text::same(unit, "g") || text::same(unit, "gi") {
        Some(0x4000_0000)
    } else if text::same(unit, "t") || text::same(unit, "ti") {
        Some(0x100_0000_0000)
    } else {
        None
    }
}

/// A size: a number of bytes, or a number with a unit in any letter case.
pub open spec fn size_of(s: Seq<char>) -> Result<u64, Seq<char>> {
    let t = text::trim(s);
    let k = digit_run(t) as int;
    let unit = text::lowered(text::trim(text::from_pos(t, k)));
    match text::parsed_unsigned(t.subrange(0, k), u64::MAX as nat) {
        None => Err("invalid size "@ + text::debug_text(t)),
        Some(n) => match unit_size(unit) {
            None => Err(
                "unknown size unit "@ + text::debug_text(unit) + " in "@ + text::debug_text(t),
            ),
            Some(m) => if n * m > u64::MAX {
                Err("size "@ + text::debug_text(t) + " overflows u64"@)
            } else {
                Ok((n * m) as u64)
            },
        },
    }
}

fn lower_text(v: &Vec<char>) -> (r: String)
    ensures
        r@ == text::lowered(v@),
{
    let mut out: Vec<char> = Vec::new();
    let mut i: usize = 0;
    while i < v.len()
        invariant
            i <= v@.len(),
            out@.len() == i,
            forall|j: int| 0 <= j < i ==> #[trigger] out@[j] == text::ascii_lower(v@[j]),
        decreases v@.len() - i,
    {
        out.push(text::lower(v[i]));
        i = i + 1;
    }
    assert(out@ =~= text::lowered(v@));
    text::text_of(&out)
}

pub open spec fn message_of<T>(r: Result<T, String>) -> Result<T, Seq<char>> {
    match r {
        Ok(x) => Ok(x),
        Err(m) => Err(m@),
    }
}

/// Reads a size.
pub fn parse_size(s: &str) -> (r: Result<u64, String>)
    ensures
        message_of(r) == size_of(s@),
{
    let v = text::chars_of(s);
    let t = text::trimmed(&v);
    let n: usize = t.len();
    let k = leading_digits(&t);
    let shown_text = text::text_of(&t);
    let num = text::cut(&t, 0, k);
    let number: u64 = match text::parse_u64(&num) {
        Some(x) => x,
        None => {
            let shown = text::debug_quote(shown_text.as_str());
            return Err(text::cat("invalid size ", shown.as_str()));
        },
    };
    let rest = text::cut(&t, k, n);
    let unit_chars = text::trimmed(&rest);
    let unit = lower_text(&unit_chars);
    let mult: u64 = match bytes_in(unit.as_str()) {
        Some(m) => m,
        None => {
            let q = text::debug_quote(unit.as_str());
            let shown = text::debug_quote(shown_text.as_str());
            let mut m = text::cat3("unknown size unit ", q.as_str(), " in ");
            m.append(shown.as_str());
            return Err(m);
        },
    };
    match number.checked_mul(mult) {
        Some(x) => Ok(x),
        None => {
            let shown = text::debug_quote(shown_text.as_str());
            Err(text::cat3("size ", shown.as_str(), " overflows u64"))
        },
    }
}

/// A duration in seconds: `0`, or a number with `s`, `m` or `h`; without a unit it is
/// seconds.
pub open spec fn duration_of(s: Seq<char>) -> Result<nat, Seq<char>> {
    let t = text::trim(s);
    let k = digit_run(t) as int;
    let unit = if k == t.len() {
        "s"@
    } else {
        text::from_pos(t, k)
    };
    if s == "0"@ {
        Ok(0)
    } else {
        match text::parsed_unsigned(t.subrange(0, k), u64::MAX as nat) {
            None => Err("invalid duration "@ + text::debug_text(t)),
            Some(n) => if unit == "s"@ {
                Ok(n)
            } else if unit == "m"@ {
                Ok(n * 60)
            } else if unit == "h"@ {
                Ok(n * 3600)
            } else {
                Err(
                    "unknown duration unit "@ + text::debug_text(unit) + " in "@ + text::debug_text(
                        t,
                    ),
                )
            },
        }
    }
}

/// The duration has no more seconds than can be counted.
pub open spec fn countable(s: Seq<char>) -> bool {
    match duration_of(s) {
        Ok(n) => n <= u64::MAX,
        Err(_) => true,
    }
}

pub open spec fn seconds_view(r: Result<Option<u64>, String>) -> Result<Option<nat>, Seq<char>> {
    match r {
        Ok(Some(n)) => Ok(Some(n as nat)),
        Ok(None) => Ok(None),
        Err(m) => Err(m@),
    }
}

/// Reads a duration; none where it has more seconds than can be counted.
pub fn measure_duration(s: &str) -> (r: Result<Option<u64>, String>)
    ensures
        match duration_of(s@) {
            Ok(n) => if n <= u64::MAX {
                seconds_view(r) == Ok::<_, Seq<char>>(Some(n))
            } else {
                seconds_view(r) == Ok::<Option<nat>, Seq<char>>(None)
            },
            Err(m) => seconds_view(r) == Err::<Option<nat>, _>(m),
        },
{
    if text::same(s, "0") {
        return Ok(Some(0));
    }
    let v = text::chars_of(s);
    let t = text::trimmed(&v);
    let n: usize = t.len();
    let k = leading_digits(&t);
    let shown_text = text::text_of(&t);
    let unit: String = if k == n {
        "s".to_owned()
    } else {
        text::piece(&t, k, n)
    };
    let num = text::cut(&t, 0, k);
    let number: u64 = match text::parse_u64(&num) {
        Some(x) => x,
        None => {
            let shown = text::debug_quote(shown_text.as_str());
            return Err(text::cat("invalid duration ", shown.as_str()));
        },
    };
    if text::same(unit.as_str(), "s") {
        Ok(Some(number))
    } else if text::same(unit.as_str(), "m") {
        Ok(number.checked_mul(60))
    } else if text::same(unit.as_str(), "h") {
        Ok(number.checked_mul(3600))
    } else {
        let q = text::debug_quote(unit.as_str());
        let shown = text::debug_quote(shown_text.as_str());
        let mut m = text::cat3("unknown duration unit ", q.as_str(), " in ");
        m.append(shown.as_str());
        Err(m)
    }
}

/// Reads a duration.
pub fn parse_duration(s: &str) -> (r: Result<u64, String>)
    requires
        countable(s@),
    ensures
        match duration_of(s@) {
            Ok(n) => r is Ok && r->Ok_0 == n,
            Err(m) => r is Err && r->Err_0@ == m,
        },
{
    match measure_duration(s) {
        Ok(Some(n)) => Ok(n),
        Ok(None) => Ok(0),
        Err(m) => Err(m),
    }
}

// ---- Flags of the form name=value -----------------------------------------

/// What stands before and behind the first `=`.
pub open spec fn halves(raw: Seq<char>) -> Option<(Seq<char>, Seq<char>)> {
    if raw.contains('=') {
        let i = text::index_of(raw, '=');
        Some((raw.subrange(0, i), text::from_pos(raw, i + 1)))
    } else {
        None
    }
}

fn cut_in_two(raw: &str, c: char) -> (r: Option<(String, String)>)
    ensures
        match r {
            Some((a, b)) => {
                let i = text::index_of(raw@, c);
                raw@.contains(c) && a@ == raw@.subrange(0, i) && b@ == text::from_pos(raw@, i + 1)
            },
            None => !raw@.contains(c),
        },
{
    let v = text::chars_of(raw);
    let n: usize = v.len();
    match text::find_char(&v, c) {
        None => None,
        Some(i) => {
            proof {
                text::lemma_index_of(v@, c, i as int);
            }
            Some((text::piece(&v, 0, i), text::piece(&v, i + 1, n)))
        },
    }
}

/// The flag `raw` is not of the form that it must have.
pub open spec fn malformed(flag: Seq<char>, raw: Seq<char>, form: Seq<char>) -> Seq<char> {
    flag + " "@ + text::debug_text(raw) + " must be "@ + form
}

/// The flag `raw` has nothing before its `=`.
pub open spec fn unnamed(flag: Seq<char>, raw: Seq<char>, what: Seq<char>) -> Seq<char> {
    flag + " "@ + text::debug_text(raw) + " has empty "@ + what
}

fn complain(flag: &str, raw: &str, problem: &str, what: &str) -> (r: String)
    ensures
        r@ == flag@ + " "@ + text::debug_text(raw@) + problem@ + what@,
{
    let q = text::debug_quote(raw);
    let mut m = text::cat3(flag, " ", q.as_str());
    m.append(problem);
    m.append(what);
    m
}

// ---- Quotas ---------------------------------------------------------------

/// The quota that a flag gives. One for a class is for all its repositories.
pub open spec fn quota_in(raw: Seq<char>, class: bool) -> Result<QuotaView, Seq<char>> {
    let flag = if class {
        "--quota-class"@
    } else {
        "--quota"@
    };
    match halves(raw) {
        None => Err(
            malformed(
                flag,
                raw,
                if class {
                    "name=size"@
                } else {
                    "pattern=size"@
                },
            ),
        ),
        Some((name, size)) => if name.len() == 0 {
            Err(
                unnamed(
                    flag,
                    raw,
                    if class {
                        "name"@
                    } else {
                        "pattern"@
                    },
                ),
            )
        } else {
            match size_of(size) {
                Err(m) => Err(m),
                Ok(n) => Ok(
                    QuotaView {
                        pattern: if class {
                            name + "/*"@
                        } else {
                            name
                        },
                        max_bytes: n,
                    },
                ),
            }
        },
    }
}

fn read_quota(raw: &str, class: bool) -> (r: Result<Quota, String>)
    ensures
        match r {
            Ok(q) => quota_in(raw@, class) == Ok::<_, Seq<char>>(q@),
            Err(m) => quota_in(raw@, class) == Err::<QuotaView, _>(m@),
        },
{
    let flag: &str = if class {
        "--quota-class"
    } else {
        "--quota"
    };
    let (name, size) = match cut_in_two(raw, '=') {
        Some(x) => x,
        None => {
            let form: &str = if class {
                "name=size"
            } else {
                "pattern=size"
            };
            return Err(complain(flag, raw, " must be ", form));
        },
    };
    if name.as_str().is_empty() {
        let what: &str = if class {
            "name"
        } else {
            "pattern"
        };
        return Err(complain(flag, raw, " has empty ", what));
    }
    let max_bytes: u64 = match parse_size(size.as_str()) {
        Ok(n) => n,
        Err(m) => return Err(m),
    };
    let pattern = if class {
        text::cat(name.as_str(), "/*")
    } else {
        name
    };
    Ok(Quota { pattern, max_bytes })
}

/// The quotas that the first `n` flags give, or what is wrong with the first that is
/// wrong.
pub open spec fn quotas_upto(raws: Seq<Seq<char>>, class: bool, n: nat) -> Result<
    Seq<QuotaView>,
    Seq<char>,
>
    decreases n,
{
    if n == 0 {
        Ok(Seq::empty())
    } else {
        match quotas_upto(raws, class, (n - 1) as nat) {
            Err(m) => Err(m),
            Ok(v) => match quota_in(raws[n - 1], class) {
                Err(m) => Err(m),
                Ok(q) => Ok(v.push(q)),
            },
        }
    }
}

/// The quotas that the flags give, those for classes first.
pub open spec fn quotas_of(quotas: Seq<Seq<char>>, classes: Seq<Seq<char>>) -> Result<
    Seq<QuotaView>,
    Seq<char>,
> {
    match quotas_upto(classes, true, classes.len()) {
        Err(m) => Err(m),
        Ok(a) => match quotas_upto(quotas, false, quotas.len()) {
            Err(m) => Err(m),
            Ok(b) => Ok(a + b),
        },
    }
}

proof fn lemma_quotas_fail(raws: Seq<Seq<char>>, class: bool, k: nat, n: nat)
    requires
        k <= n,
        quotas_upto(raws, class, k) is Err,
    ensures
        quotas_upto(raws, class, n) == quotas_upto(raws, class, k),
    decreases n,
{
    if k < n {
        lemma_quotas_fail(raws, class, k, (n - 1) as nat);
    }
}

fn read_quotas(raws: &Vec<String>, class: bool, out: &mut Vec<Quota>) -> (r: Result<(), String>)
    ensures
        match quotas_upto(text::views(raws@), class, raws@.len()) {
            Ok(v) => r is Ok && order::views_of(final(out)@) == order::views_of(old(out)@) + v,
            Err(m) => r is Err && r->Err_0@ == m,
        },
{
    let ghost all = text::views(raws@);
    let ghost was = order::views_of(out@);
    let mut i: usize = 0;
    assert(was + Seq::<QuotaView>::empty() =~= was);
    while i < raws.len()
        invariant
            i <= raws@.len(),
            all == text::views(raws@),
            quotas_upto(all, class, i as nat) is Ok,
            order::views_of(out@) == was + quotas_upto(all, class, i as nat)->Ok_0,
        decreases raws@.len() - i,
    {
        assert(all[i as int] == raws@[i as int]@);
        let ghost before = order::views_of(out@);
        match read_quota(raws[i].as_str(), class) {
            Err(m) => {
                proof {
                    lemma_quotas_fail(all, class, (i + 1) as nat, raws@.len());
                }
                return Err(m);
            },
            Ok(q) => {
                let ghost qv = q@;
                out.push(q);
                proof {
                    let sofar = quotas_upto(all, class, i as nat)->Ok_0;
                    assert(order::views_of(out@) =~= before.push(qv));
                    assert(before.push(qv) =~= was + sofar.push(qv));
                }
            },
        }
        i = i + 1;
    }
    Ok(())
}

/// Reads the quota flags.
pub fn parse_quotas(quotas: &Vec<String>, quota_classes: &Vec<String>) -> (r: Result<
    Vec<Quota>,
    String,
>)
    ensures
        match r {
            Ok(v) => quotas_of(text::views(quotas@), text::views(quota_classes@)) == Ok::<
                _,
                Seq<char>,
            >(order::views_of(v@)),
            Err(m) => quotas_of(text::views(quotas@), text::views(quota_classes@)) == Err::<
                Seq<QuotaView>,
                _,
            >(m@),
        },
{
    let mut out: Vec<Quota> = Vec::new();
    assert(order::views_of(out@) =~= Seq::<QuotaView>::empty());
    match read_quotas(quota_classes, true, &mut out) {
        Ok(()) => {},
        Err(m) => return Err(m),
    }
    let ghost a = order::views_of(out@);
    assert(a =~= quotas_upto(text::views(quota_classes@), true, quota_classes@.len())->Ok_0);
    match read_quotas(quotas, false, &mut out) {
        Ok(()) => Ok(out),
        Err(m) => Err(m),
    }
}

// ---- Storage --------------------------------------------------------------

/// What a flag of the form `name=/path` declares.
#[derive(Debug, Clone, Copy, PartialEq, Eq, Structural)]
pub enum Declares {
    Class,
    Root,
    Partition,
}

impl Declares {
    pub open spec fn flag(self) -> Seq<char> {
        match self {
            Declares::Class => "--repo-class"@,
            Declares::Root => "--repo-root"@,
            Declares::Partition => "--partition"@,
        }
    }

    pub open spec fn form(self) -> Seq<char> {
        match self {
            Declares::Root => "pattern=/path"@,
            _ => "name=/path"@,
        }
    }

    pub open spec fn key(self) -> Seq<char> {
        match self {
            Declares::Root => "pattern"@,
            _ => "name"@,
        }
    }

    /// What is said to be opened, before the name.
    pub open spec fn opening(self) -> Seq<char> {
        match self {
            Declares::Class => "opening repo class "@,
            Declares::Root => "opening repo root "@,
            Declares::Partition => "opening partition "@,
        }
    }
}

/// A directory that a flag gives a name.
#[derive(Debug, Clone)]
pub struct Mount {
    pub name: String,
    pub path: String,
}

pub struct MountView {
    pub name: Seq<char>,
    pub path: Seq<char>,
}

impl View for Mount {
    type V = MountView;

    open spec fn view(&self) -> MountView {
        MountView { name: self.name@, path: self.path@ }
    }
}

/// What a flag declares. The name of a class holds no slash and no star.
pub open spec fn mount_in(kind: Declares, raw: Seq<char>) -> Result<MountView, Seq<char>> {
    match halves(raw) {
        None => Err(malformed(kind.flag(), raw, kind.form())),
        Some((name, path)) => if name.len() == 0 {
            Err(unnamed(kind.flag(), raw, kind.key()))
        } else if kind == Declares::Class && (name.contains('/') || name.contains('*')) {
            Err(
                "--repo-class name "@ + text::debug_text(name)
                    + " must be a bare class name (no '/' or '*')"@,
            )
        } else {
            Ok(MountView { name, path })
        },
    }
}

fn read_mount(kind: Declares, raw: &str) -> (r: Result<Mount, String>)
    ensures
        match r {
            Ok(m) => mount_in(kind, raw@) == Ok::<_, Seq<char>>(m@),
            Err(m) => mount_in(kind, raw@) == Err::<MountView, _>(m@),
        },
{
    let flag: &str = match kind {
        Declares::Class => "--repo-class",
        Declares::Root => "--repo-root",
        Declares::Partition => "--partition",
    };
    let (name, path) = match cut_in_two(raw, '=') {
        Some(x) => x,
        None => {
            let form: &str = match kind {
                Declares::Root => "pattern=/path",
                _ => "name=/path",
            };
            return Err(complain(flag, raw, " must be ", form));
        },
    };
    if name.as_str().is_empty() {
        let what: &str = match kind {
            Declares::Root => "pattern",
            _ => "name",
        };
        return Err(complain(flag, raw, " has empty ", what));
    }
    if kind == Declares::Class {
        let v = text::chars_of(name.as_str());
        if text::find_char(&v, '/').is_some() || text::find_char(&v, '*').is_some() {
            let q = text::debug_quote(name.as_str());
            return Err(
                text::cat3(
                    "--repo-class name ",
                    q.as_str(),
                    " must be a bare class name (no '/' or '*')",
                ),
            );
        }
    }
    Ok(Mount { name, path })
}

/// What the first `n` flags declare, up to the first that is wrong, and what is wrong
/// with that.
pub open spec fn mounts_upto(kind: Declares, raws: Seq<Seq<char>>, n: nat) -> (
    Seq<MountView>,
    Option<Seq<char>>,
)
    decreases n,
{
    if n == 0 {
        (Seq::empty(), None)
    } else {
        let (v, e) = mounts_upto(kind, raws, (n - 1) as nat);
        if e is Some {
            (v, e)
        } else {
            match mount_in(kind, raws[n - 1]) {
                Err(m) => (v, Some(m)),
                Ok(x) => (v.push(x), None),
            }
        }
    }
}

proof fn lemma_mounts_fail(kind: Declares, raws: Seq<Seq<char>>, k: nat, n: nat)
    requires
        k <= n,
        mounts_upto(kind, raws, k).1 is Some,
    ensures
        mounts_upto(kind, raws, n) == mounts_upto(kind, raws, k),
    decreases n,
{
    if k < n {
        lemma_mounts_fail(kind, raws, k, (n - 1) as nat);
    }
}

fn read_mounts(kind: Declares, raws: &Vec<String>) -> (r: (Vec<Mount>, Option<String>))
    ensures
        (order::views_of(r.0@), text::opt(r.1)) == mounts_upto(
            kind,
            text::views(raws@),
            raws@.len(),
        ),
{
    let ghost all = text::views(raws@);
    let mut out: Vec<Mount> = Vec::new();
    let mut i: usize = 0;
    assert(order::views_of(out@) =~= Seq::<MountView>::empty());
    while i < raws.len()
        invariant
            i <= raws@.len(),
            all == text::views(raws@),
            (order::views_of(out@), None::<Seq<char>>) == mounts_upto(kind, all, i as nat),
        decreases raws@.len() - i,
    {
        assert(all[i as int] == raws@[i as int]@);
        let ghost was = order::views_of(out@);
        match read_mount(kind, raws[i].as_str()) {
            Err(m) => {
                proof {
                    lemma_mounts_fail(kind, all, (i + 1) as nat, raws@.len());
                }
                return (out, Some(m));
            },
            Ok(x) => {
                let ghost xv = x@;
                out.push(x);
                assert(order::views_of(out@) =~= was.push(xv));
            },
        }
        i = i + 1;
    }
    (out, None)
}

/// The flags about storage.
#[derive(Debug, Clone)]
pub struct StorageFlags {
    pub repo_roots: Vec<String>,
    pub repo_classes: Vec<String>,
    pub quotas: Vec<String>,
    pub quota_classes: Vec<String>,
    pub partitions: Vec<String>,
    pub primary: Option<String>,
}

/// A directory to open, with what to say where that fails.
#[derive(Debug, Clone)]
pub struct Open {
    pub context: String,
    pub path: String,
}

pub struct OpenView {
    pub context: Seq<char>,
    pub path: Seq<char>,
}

impl View for Open {
    type V = OpenView;

    open spec fn view(&self) -> OpenView {
        OpenView { context: self.context@, path: self.path@ }
    }
}

/// How the opened directories are put together.
#[derive(Debug, Clone)]
pub enum Layout {
    /// A router with one rule for each directory, in order, and its quotas.
    Routed { patterns: Vec<String>, classes: Vec<RepoClass>, quotas: Vec<Quota> },
    /// A composition of partitions, one for each directory, in order.
    Partitions { names: Vec<String>, primary: String },
    /// The data directory alone.
    Single,
}

pub struct RepoClassView {
    pub name: Seq<char>,
    pub pattern: Seq<char>,
    pub root: Seq<char>,
}

impl View for RepoClass {
    type V = RepoClassView;

    open spec fn view(&self) -> RepoClassView {
        RepoClassView { name: self.name@, pattern: self.pattern@, root: self.root@ }
    }
}

#[allow(inconsistent_fields)]
pub enum LayoutView {
    Routed {
        patterns: Seq<Seq<char>>,
        classes: Seq<RepoClassView>,
        quotas: Seq<QuotaView>,
    },
    Partitions { names: Seq<Seq<char>>, primary: Seq<char> },
    Single,
}

impl View for Layout {
    type V = LayoutView;

    open spec fn view(&self) -> LayoutView {
        match *self {
            Layout::Routed { patterns, classes, quotas } => LayoutView::Routed {
                patterns: text::views(patterns@),
                classes: order::views_of(classes@),
                quotas: order::views_of(quotas@),
            },
            Layout::Partitions { names, primary } => LayoutView::Partitions {
                names: text::views(names@),
                primary: primary@,
            },
            Layout::Single => LayoutView::Single,
        }
    }
}

/// What the flags about storage ask for: directories to open, in order, and then
/// either a layout or an error.
#[derive(Debug)]
pub struct Plan {
    pub opens: Vec<Open>,
    pub end: Result<Layout, String>,
}

pub struct PlanView {
    pub opens: Seq<OpenView>,
    pub end: Result<LayoutView, Seq<char>>,
}

impl View for Plan {
    type V = PlanView;

    open spec fn view(&self) -> PlanView {
        PlanView {
            opens: order::views_of(self.opens@),
            end: match self.end {
                Ok(l) => Ok(l@),
                Err(m) => Err(m@),
            },
        }
    }
}

/// The directory of a declaration, to be opened.
pub open spec fn open_of(kind: Declares, m: MountView) -> OpenView {
    OpenView { context: kind.opening() + m.name + "="@ + m.path, path: m.path }
}

pub open spec fn opens_of(kind: Declares, ms: Seq<MountView>) -> Seq<OpenView> {
    ms.map_values(|m: MountView| open_of(kind, m))
}

/// The pattern of a class.
pub open spec fn class_pattern(name: Seq<char>) -> Seq<char> {
    name + "/*"@
}

pub open spec fn classes_of(ms: Seq<MountView>) -> Seq<RepoClassView> {
    ms.map_values(
        |m: MountView|
            RepoClassView { name: m.name, pattern: class_pattern(m.name), root: m.path },
    )
}

pub open spec fn class_patterns(ms: Seq<MountView>) -> Seq<Seq<char>> {
    ms.map_values(|m: MountView| class_pattern(m.name))
}

pub open spec fn names_of(ms: Seq<MountView>) -> Seq<Seq<char>> {
    ms.map_values(|m: MountView| m.name)
}

/// The plan for a router: the classes come before the roots.
pub open spec fn routed_plan(f: StorageFlags) -> PlanView {
    let (cs, e) = mounts_upto(Declares::Class, text::views(f.repo_classes@), f.repo_classes@.len());
    let (rs, e2) = mounts_upto(Declares::Root, text::views(f.repo_roots@), f.repo_roots@.len());
    let first = opens_of(Declares::Class, cs);
    if e is Some {
        PlanView { opens: first, end: Err(e->0) }
    } else {
        let opens = first + opens_of(Declares::Root, rs);
        if e2 is Some {
            PlanView { opens, end: Err(e2->0) }
        } else {
            PlanView {
                opens,
                end: match quotas_of(text::views(f.quotas@), text::views(f.quota_classes@)) {
                    Err(m) => Err(m),
                    Ok(quotas) => Ok(
                        LayoutView::Routed {
                            patterns: class_patterns(cs) + names_of(rs),
                            classes: classes_of(cs),
                            quotas,
                        },
                    ),
                },
            }
        }
    }
}

/// The plan for partitions. The primary need not be named where there is one.
pub open spec fn partitioned_plan(f: StorageFlags) -> PlanView {
    let (ps, e) = mounts_upto(Declares::Partition, text::views(f.partitions@), f.partitions@.len());
    PlanView {
        opens: opens_of(Declares::Partition, ps),
        end: if e is Some {
            Err(e->0)
        } else {
            match f.primary {
                Some(p) => Ok(LayoutView::Partitions { names: names_of(ps), primary: p@ }),
                None => if ps.len() == 1 {
                    Ok(LayoutView::Partitions { names: names_of(ps), primary: ps[0].name })
                } else {
                    Err("--primary required when more than one --partition is declared"@)
                },
            }
        },
    }
}

/// The plan for the flags: a router goes before partitions, and these before a single
/// directory.
pub open spec fn plan_of(f: StorageFlags) -> PlanView {
    if f.repo_roots@.len() > 0 || f.repo_classes@.len() > 0 {
        routed_plan(f)
    } else if f.partitions@.len() > 0 {
        partitioned_plan(f)
    } else {
        PlanView { opens: Seq::empty(), end: Ok(LayoutView::Single) }
    }
}

fn add_opens(kind: Declares, ms: &Vec<Mount>, out: &mut Vec<Open>)
    ensures
        order::views_of(final(out)@) == order::views_of(old(out)@) + opens_of(
            kind,
            order::views_of(ms@),
        ),
{
    let ghost was = order::views_of(out@);
    let ghost all = opens_of(kind, order::views_of(ms@));
    let mut i: usize = 0;
    assert(was + all.take(0) =~= was);
    while i < ms.len()
        invariant
            i <= ms@.len(),
            all == opens_of(kind, order::views_of(ms@)),
            order::views_of(out@) == was + all.take(i as int),
        decreases ms@.len() - i,
    {
        let opening: &str = match kind {
            Declares::Class => "opening repo class ",
            Declares::Root => "opening repo root ",
            Declares::Partition => "opening partition ",
        };
        let mut context = text::cat3(opening, ms[i].name.as_str(), "=");
        context.append(ms[i].path.as_str());
        let o = Open { context, path: ms[i].path.clone() };
        let ghost ov = o@;
        let ghost before = order::views_of(out@);
        assert(ov == all[i as int]);
        out.push(o);
        i = i + 1;
        proof {
            assert(order::views_of(out@) =~= before.push(ov));
            assert(before.push(ov) =~= was + all.take(i as int));
        }
    }
    assert(all.take(i as int) =~= all);
}

fn add_names(ms: &Vec<Mount>, out: &mut Vec<String>)
    ensures
        text::views(final(out)@) == text::views(old(out)@) + names_of(order::views_of(ms@)),
{
    let ghost was = text::views(out@);
    let ghost all = names_of(order::views_of(ms@));
    let mut i: usize = 0;
    assert(was + all.take(0) =~= was);
    while i < ms.len()
        invariant
            i <= ms@.len(),
            all == names_of(order::views_of(ms@)),
            text::views(out@) == was + all.take(i as int),
        decreases ms@.len() - i,
    {
        let s = ms[i].name.clone();
        let ghost sv = s@;
        let ghost before = text::views(out@);
        assert(sv == all[i as int]);
        out.push(s);
        i = i + 1;
        proof {
            assert(text::views(out@) =~= before.push(sv));
            assert(before.push(sv) =~= was + all.take(i as int));
        }
    }
    assert(all.take(i as int) =~= all);
}

fn read_classes(ms: &Vec<Mount>) -> (r: (Vec<RepoClass>, Vec<String>))
    ensures
        order::views_of(r.0@) == classes_of(order::views_of(ms@)),
        text::views(r.1@) == class_patterns(order::views_of(ms@)),
{
    let mut classes: Vec<RepoClass> = Vec::new();
    let mut patterns: Vec<String> = Vec::new();
    let mut i: usize = 0;
    while i < ms.len()
        invariant
            i <= ms@.len(),
            classes@.len() == i,
            patterns@.len() == i,
            forall|j: int|
                0 <= j < i ==> (#[trigger] classes@[j])@ == (RepoClassView {
                    name: ms@[j].name@,
                    pattern: class_pattern(ms@[j].name@),
                    root: ms@[j].path@,
                }),
            forall|j: int| 0 <= j < i ==> (#[trigger] patterns@[j])@ == class_pattern(ms@[j].name@),
        decreases ms@.len() - i,
    {
        let pattern = text::cat(ms[i].name.as_str(), "/*");
        patterns.push(pattern.clone());
        classes.push(
            RepoClass { name: ms[i].name.clone(), pattern, root: ms[i].path.clone() },
        );
        i = i + 1;
    }
    assert(order::views_of(classes@) =~= classes_of(order::views_of(ms@)));
    assert(text::views(patterns@) =~= class_patterns(order::views_of(ms@)));
    (classes, patterns)
}

fn plan_router(f: &StorageFlags) -> (r: Plan)
    ensures
        r@ == routed_plan(*f),
{
    let mut opens: Vec<Open> = Vec::new();
    assert(order::views_of(opens@) =~= Seq::<OpenView>::empty());
    let (class_mounts, problem) = read_mounts(Declares::Class, &f.repo_classes);
    add_opens(Declares::Class, &class_mounts, &mut opens);
    assert(order::views_of(opens@) =~= opens_of(
        Declares::Class,
        order::views_of(class_mounts@),
    ));
    if let Some(m) = problem {
        return Plan { opens, end: Err(m) };
    }
    let (root_mounts, problem) = read_mounts(Declares::Root, &f.repo_roots);
    add_opens(Declares::Root, &root_mounts, &mut opens);
    if let Some(m) = problem {
        return Plan { opens, end: Err(m) };
    }
    let (classes, mut patterns): (Vec<RepoClass>, Vec<String>) = read_classes(&class_mounts);
    add_names(&root_mounts, &mut patterns);
    match parse_quotas(&f.quotas, &f.quota_classes) {
        Err(m) => Plan { opens, end: Err(m) },
        Ok(quotas) => Plan { opens, end: Ok(Layout::Routed { patterns, classes, quotas }) },
    }
}

fn plan_partitions(f: &StorageFlags) -> (r: Plan)
    ensures
        r@ == partitioned_plan(*f),
{
    let mut opens: Vec<Open> = Vec::new();
    assert(order::views_of(opens@) =~= Seq::<OpenView>::empty());
    let (mounts, problem) = read_mounts(Declares::Partition, &f.partitions);
    add_opens(Declares::Partition, &mounts, &mut opens);
    assert(order::views_of(opens@) =~= opens_of(Declares::Partition, order::views_of(mounts@)));
    if let Some(m) = problem {
        return Plan { opens, end: Err(m) };
    }
    let mut names: Vec<String> = Vec::new();
    assert(text::views(names@) =~= Seq::<Seq<char>>::empty());
    add_names(&mounts, &mut names);
    assert(text::views(names@) =~= names_of(order::views_of(mounts@)));
    let primary: String = match &f.primary {
        Some(p) => p.clone(),
        None => {
            if mounts.len() != 1 {
                return Plan {
                    opens,
                    end: Err(
                        "--primary required when more than one --partition is declared".to_owned(),
                    ),
                };
            }
            mounts[0].name.clone()
        },
    };
    Plan { opens, end: Ok(Layout::Partitions { names, primary }) }
}

/// Says what the flags about storage ask for.
pub fn plan_storage(f: &StorageFlags) -> (r: Plan)
    ensures
        r@ == plan_of(*f),
{
    if f.repo_roots.len() > 0 || f.repo_classes.len() > 0 {
        plan_router(f)
    } else if f.partitions.len() > 0 {
        plan_partitions(f)
    } else {
        let r = Plan { opens: Vec::new(), end: Ok(Layout::Single) };
        assert(r@.opens =~= Seq::<OpenView>::empty());
        r
    }
}

// ---- Authentication -------------------------------------------------------

/// The flags about authentication.
#[derive(Debug, Clone)]
pub struct AuthFlags {
    pub auth: Option<String>,
    /// Whether an htpasswd file is given.
    pub has_file: bool,
    pub resource: String,
    pub default_namespace: Option<String>,
    pub cache_ttl: String,
    pub token_url: Option<String>,
    pub allow_loopback: bool,
    /// Whether a certificate is given.
    pub has_cert: bool,
    pub listen: String,
}

/// How requests are to be authenticated.
#[derive(Debug, Clone)]
pub enum AuthPlan {
    Open,
    Htpasswd,
    K8s(K8sAuthConfig),
}

/// The mode of authentication: the one named, else htpasswd where a file is given.
pub open spec fn auth_mode(f: AuthFlags) -> Seq<char> {
    match f.auth {
        Some(m) => m@,
        None => if f.has_file {
            "htpasswd"@
        } else {
            "none"@
        },
    }
}

/// The URL of the token exchange: the one given, else this server's own.
pub open spec fn realm_of(f: AuthFlags) -> Seq<char> {
    match f.token_url {
        Some(u) => u@,
        None => (if f.has_cert {
            "https"@
        } else {
            "http"@
        }) + "://"@ + f.listen@ + "/token"@,
    }
}

/// Milliseconds of a number of seconds, as many as can be counted.
pub open spec fn millis(secs: nat) -> u64 {
    if secs * 1000 > u64::MAX {
        u64::MAX
    } else {
        (secs * 1000) as u64
    }
}

/// The configuration is what the flags say.
pub open spec fn configured(f: AuthFlags, cfg: K8sAuthConfig) -> bool {
    let i = text::index_of(f.resource@, '/');
    &&& f.resource@.contains('/')
    &&& cfg.resource_group@ == f.resource@.subrange(0, i)
    &&& cfg.resource@ == text::from_pos(f.resource@, i + 1)
    &&& text::opt(cfg.default_namespace) == text::opt(f.default_namespace)
    &&& duration_of(f.cache_ttl@) is Ok
    &&& cfg.cache_ttl == millis(duration_of(f.cache_ttl@)->Ok_0)
    &&& cfg.allow_loopback == f.allow_loopback
    &&& cfg.token_realm@ == realm_of(f)
    &&& cfg.service@ == "rspace-registry"@
}

/// What is wrong with the flags about authentication.
pub open spec fn auth_problem(f: AuthFlags) -> Option<Seq<char>> {
    let mode = auth_mode(f);
    if mode == "none"@ {
        None
    } else if mode == "htpasswd"@ {
        if f.has_file {
            None
        } else {
            Some("--auth htpasswd requires --auth-file"@)
        }
    } else if mode == "k8s"@ {
        if !f.resource@.contains('/') {
            Some("--auth-k8s-resource must be group/resource"@)
        } else {
            match duration_of(f.cache_ttl@) {
                Err(m) => Some(m),
                Ok(_) => None,
            }
        }
    } else {
        Some("unknown --auth mode "@ + text::debug_text(mode) + " (expected none|htpasswd|k8s)"@)
    }
}

fn token_realm(f: &AuthFlags) -> (r: String)
    ensures
        r@ == realm_of(*f),
{
    match &f.token_url {
        Some(u) => u.clone(),
        None => {
            let mut s = if f.has_cert {
                text::cat3("https", "://", f.listen.as_str())
            } else {
                text::cat3("http", "://", f.listen.as_str())
            };
            s.append("/token");
            s
        },
    }
}

/// Says how requests are to be authenticated.
pub fn plan_auth(f: &AuthFlags) -> (r: Result<AuthPlan, String>)
    requires
        auth_mode(*f) == "k8s"@ && f.resource@.contains('/') ==> countable(f.cache_ttl@),
    ensures
        match r {
            Err(m) => auth_problem(*f) == Some(m@),
            Ok(p) => auth_problem(*f) is None && match p {
                AuthPlan::Open => auth_mode(*f) == "none"@,
                AuthPlan::Htpasswd => auth_mode(*f) == "htpasswd"@,
                AuthPlan::K8s(cfg) => auth_mode(*f) == "k8s"@ && configured(*f, cfg),
            },
        },
{
    let mode: String = match &f.auth {
        Some(m) => m.clone(),
        None => if f.has_file {
            "htpasswd".to_owned()
        } else {
            "none".to_owned()
        },
    };
    if text::same(mode.as_str(), "none") {
        return Ok(AuthPlan::Open);
    }
    if text::same(mode.as_str(), "htpasswd") {
        if f.has_file {
            return Ok(AuthPlan::Htpasswd);
        }
        return Err("--auth htpasswd requires --auth-file".to_owned());
    }
    if !text::same(mode.as_str(), "k8s") {
        let q = text::debug_quote(mode.as_str());
        return Err(
            text::cat3("unknown --auth mode ", q.as_str(), " (expected none|htpasswd|k8s)"),
        );
    }
    let (resource_group, resource) = match cut_in_two(f.resource.as_str(), '/') {
        Some(x) => x,
        None => return Err("--auth-k8s-resource must be group/resource".to_owned()),
    };
    let token_realm = token_realm(f);
    let secs: u64 = match parse_duration(f.cache_ttl.as_str()) {
        Ok(n) => n,
        Err(m) => return Err(m),
    };
    let cache_ttl: u64 = match secs.checked_mul(1000) {
        Some(n) => n,
        None => u64::MAX,
    };
    Ok(
        AuthPlan::K8s(
            K8sAuthConfig {
                resource_group,
                resource,
                default_namespace: f.default_namespace.clone(),
                cache_ttl,
                allow_loopback: f.allow_loopback,
                token_realm,
                service: "rspace-registry".to_owned(),
            },
        ),
    )
}

// ---- Serving --------------------------------------------------------------

/// How often to replicate, in seconds; none where there is nothing to replicate or the
/// interval is zero. `partitions` is the number of partitions, if the store is made of
/// such.
pub fn plan_loop(partitions: Option<usize>, interval: &str) -> (r: Result<Option<u64>, String>)
    requires
        partitions matches Some(n) && n > 1 ==> countable(interval@),
    ensures
        match partitions {
            Some(n) if n > 1 => match duration_of(interval@) {
                Err(m) => r is Err && r->Err_0@ == m,
                Ok(secs) => r is Ok && match r->Ok_0 {
                    None => secs == 0,
                    Some(k) => secs > 0 && k == secs,
                },
            },
            _ => r == Ok::<_, String>(None::<u64>),
        },
{
    match partitions {
        Some(n) => {
            if n <= 1 {
                return Ok(None);
            }
        },
        None => return Ok(None),
    }
    match parse_duration(interval) {
        Err(m) => Err(m),
        Ok(secs) => if secs == 0 {
            Ok(None)
        } else {
            Ok(Some(secs))
        },
    }
}

/// Whether to serve over TLS, by whether a certificate and a key are given.
pub fn plan_tls(has_cert: bool, has_key: bool) -> (r: Result<bool, String>)
    ensures
        match r {
            Ok(tls) => has_cert == has_key && tls == has_cert,
            Err(m) => has_cert != has_key && m@ == "--cert and --key must be provided together"@,
        },
{
    if has_cert == has_key {
        Ok(has_cert)
    } else {
        Err("--cert and --key must be provided together".to_owned())
    }
}

} // verus!
