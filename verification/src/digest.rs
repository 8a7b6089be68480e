//! OCI content digests: `<algorithm>:<hex>`, with `sha256` and `sha512`.

use std::str::FromStr;

use vstd::prelude::*;

use crate::order;
use crate::order::Key;
use crate::outside;
use crate::text;

verus! {

#[derive(Debug, Clone, Copy, PartialEq, Eq, Structural, Hash, PartialOrd, Ord)]
pub enum Algorithm {
    Sha256,
    Sha512,
}

impl Algorithm {
    /// How many hexadecimal digits a digest of this algorithm has.
    pub open spec fn digits(self) -> nat {
        match self {
            Algorithm::Sha256 => 64,
            Algorithm::Sha512 => 128,
        }
    }

    /// The name in front of the colon.
    pub open spec fn spec_name(self) -> Seq<char> {
        match self {
            Algorithm::Sha256 => "sha256"@,
            Algorithm::Sha512 => "sha512"@,
        }
    }

    pub fn hex_len(self) -> (r: usize)
        ensures
            r == self.digits(),
    {
        match self {
            Algorithm::Sha256 => 64,
            Algorithm::Sha512 => 128,
        }
    }

    pub fn name(self) -> (r: &'static str)
        ensures
            r@ == self.spec_name(),
    {
        match self {
            Algorithm::Sha256 => "sha256",
            Algorithm::Sha512 => "sha512",
        }
    }
}

#[derive(Debug, Clone, PartialEq, Eq, Hash, PartialOrd, Ord)]
pub struct Digest {
    pub algorithm: Algorithm,
    /// Lowercase hex digits; their number is determined by the algorithm.
    pub hex: String,
}

/// A digest as a mathematical value.
pub struct DigestView {
    pub algorithm: Algorithm,
    pub hex: Seq<char>,
}

impl View for Digest {
    type V = DigestView;

    open spec fn view(&self) -> DigestView {
        DigestView { algorithm: self.algorithm, hex: self.hex@ }
    }
}

pub open spec fn is_hex(c: char) -> bool {
    ('0' <= c && c <= '9') || ('a' <= c && c <= 'f')
}

pub open spec fn all_hex(s: Seq<char>) -> bool {
    forall|i: int| 0 <= i < s.len() ==> is_hex(#[trigger] s[i])
}

impl DigestView {
    /// The right number of lower-case hexadecimal digits.
    pub open spec fn wf(self) -> bool {
        self.hex.len() == self.algorithm.digits() && all_hex(self.hex)
    }

    /// The text form `<algorithm>:<hex>`.
    pub open spec fn text(self) -> Seq<char> {
        self.algorithm.spec_name() + seq![':'] + self.hex
    }
}

#[derive(Debug)]
pub enum DigestError {
    MissingColon,
    UnknownAlgorithm(String),
    HexLen { expected: usize, got: usize },
    NonHex,
}

pub enum DigestErrorView {
    MissingColon,
    UnknownAlgorithm(Seq<char>),
    HexLen { expected: int, got: int },
    NonHex,
}

impl View for DigestError {
    type V = DigestErrorView;

    open spec fn view(&self) -> DigestErrorView {
        match *self {
            DigestError::MissingColon => DigestErrorView::MissingColon,
            DigestError::UnknownAlgorithm(s) => DigestErrorView::UnknownAlgorithm(s@),
            DigestError::HexLen { expected, got } => DigestErrorView::HexLen {
                expected: expected as int,
                got: got as int,
            },
            DigestError::NonHex => DigestErrorView::NonHex,
        }
    }
}

impl DigestErrorView {
    /// The message that reports this error.
    pub open spec fn text(self) -> Seq<char> {
        match self {
            DigestErrorView::MissingColon => "missing ':' in digest"@,
            DigestErrorView::UnknownAlgorithm(s) => "unknown algorithm: "@ + s,
            DigestErrorView::HexLen { expected, got } => "hex length wrong: expected "@
                + text::decimal(expected as nat) + ", got "@ + text::decimal(got as nat),
            DigestErrorView::NonHex => "hex contains non-hex characters"@,
        }
    }
}

impl DigestError {
    pub fn to_string(&self) -> (r: String)
        ensures
            r@ == self@.text(),
    {
        match self {
            DigestError::MissingColon => "missing ':' in digest".to_owned(),
            DigestError::UnknownAlgorithm(s) => text::cat("unknown algorithm: ", s.as_str()),
            DigestError::HexLen { expected, got } => {
                let e = text::decimal_text(*expected as u64);
                let g = text::decimal_text(*got as u64);
                let mut s = text::cat3("hex length wrong: expected ", e.as_str(), ", got ");
                s.append(g.as_str());
                s
            },
            DigestError::NonHex => "hex contains non-hex characters".to_owned(),
        }
    }
}

/// The algorithm of a name.
pub open spec fn algorithm_named(s: Seq<char>) -> Option<Algorithm> {
    if s == "sha256"@ {
        Some(Algorithm::Sha256)
    } else if s == "sha512"@ {
        Some(Algorithm::Sha512)
    } else {
        None
    }
}

/// What a text says when it is read as a digest. The first colon parts the
/// algorithm from the digits; the length of the digits is counted in bytes.
pub open spec fn parsed(s: Seq<char>) -> Result<DigestView, DigestErrorView> {
    if !s.contains(':') {
        Err(DigestErrorView::MissingColon)
    } else {
        let i = text::index_of(s, ':');
        let name = s.subrange(0, i);
        let hex = text::from_pos(s, i + 1);
        match algorithm_named(name) {
            None => Err(DigestErrorView::UnknownAlgorithm(name)),
            Some(a) => if text::byte_len(hex) != a.digits() {
                Err(
                    DigestErrorView::HexLen {
                        expected: a.digits() as int,
                        got: text::byte_len(hex) as int,
                    },
                )
            } else if !all_hex(hex) {
                Err(DigestErrorView::NonHex)
            } else {
                Ok(DigestView { algorithm: a, hex })
            },
        }
    }
}

fn hex_only(s: &str) -> (r: bool)
    ensures
        r == all_hex(s@),
{
    let v = text::chars_of(s);
    let mut i: usize = 0;
    while i < v.len()
        invariant
            i <= v@.len(),
            v@ == s@,
            forall|j: int| 0 <= j < i ==> is_hex(#[trigger] v@[j]),
        decreases v@.len() - i,
    {
        let c: char = v[i];
        if !(('0' <= c && c <= '9') || ('a' <= c && c <= 'f')) {
            assert(!is_hex(s@[i as int]));
            return false;
        }
        i = i + 1;
    }
    true
}

impl Digest {
    /// Reads `<algorithm>:<hex>`.
    pub fn parse(s: &str) -> (r: Result<Digest, DigestError>)
        ensures
            match parsed(s@) {
                Ok(d) => r is Ok && r->Ok_0@ == d,
                Err(e) => r is Err && r->Err_0@ == e,
            },
    {
        let v = text::chars_of(s);
        let n: usize = v.len();
        let at = match text::find_char(&v, ':') {
            None => return Err(DigestError::MissingColon),
            Some(i) => i,
        };
        proof {
            text::lemma_index_of(s@, ':', at as int);
        }
        let name = text::piece(&v, 0, at);
        let hex = text::piece(&v, at + 1, n);
        let algorithm = if text::same(name.as_str(), "sha256") {
            Algorithm::Sha256
        } else if text::same(name.as_str(), "sha512") {
            Algorithm::Sha512
        } else {
            return Err(DigestError::UnknownAlgorithm(name));
        };
        let got: usize = text::byte_count(hex.as_str());
        if got != algorithm.hex_len() {
            return Err(DigestError::HexLen { expected: algorithm.hex_len(), got });
        }
        if !hex_only(hex.as_str()) {
            return Err(DigestError::NonHex);
        }
        Ok(Digest { algorithm, hex })
    }

    pub fn to_string(&self) -> (r: String)
        ensures
            r@ == self@.text(),
    {
        let mut s = self.algorithm.name().to_owned();
        s.push(':');
        s.append(self.hex.as_str());
        assert(s@ =~= self@.text());
        s
    }

    /// Whether two digests are the same.
    pub fn same(&self, other: &Digest) -> (r: bool)
        ensures
            r == (self@ == other@),
    {
        self.algorithm == other.algorithm && text::same(self.hex.as_str(), other.hex.as_str())
    }
}

impl FromStr for Digest {
    type Err = DigestError;

    fn from_str(s: &str) -> (r: Result<Digest, DigestError>)
        ensures
            match parsed(s@) {
                Ok(d) => r is Ok && r->Ok_0@ == d,
                Err(e) => r is Err && r->Err_0@ == e,
            },
    {
        Digest::parse(s)
    }
}

/// How digests are ordered: by algorithm, then by their digits.
pub open spec fn digest_rank(d: DigestView) -> Seq<int> {
    seq![
        if d.algorithm == Algorithm::Sha256 {
            0int
        } else {
            1
        },
    ] + order::code_points(d.hex)
}

impl Key for Digest {
    open spec fn rank(v: DigestView) -> Seq<int> {
        digest_rank(v)
    }

    proof fn rank_injective(a: DigestView, b: DigestView) {
        let x = digest_rank(a);
        let y = digest_rank(b);
        assert(x[0] == y[0]);
        assert(x.drop_first() =~= order::code_points(a.hex));
        assert(y.drop_first() =~= order::code_points(b.hex));
        order::lemma_code_points_injective(a.hex, b.hex);
    }

    fn less(&self, other: &Digest) -> (r: bool) {
        let ghost x = digest_rank(self@);
        let ghost y = digest_rank(other@);
        let ghost p = order::code_points(self.hex@);
        let ghost q = order::code_points(other.hex@);
        if self.algorithm == other.algorithm {
            let r = order::text_less(self.hex.as_str(), other.hex.as_str());
            proof {
                if order::before(p, q) {
                    let k = choose|k: int| order::before_at(p, q, k);
                    assert(order::before_at(x, y, k + 1));
                }
                if order::before(x, y) {
                    let k = choose|k: int| order::before_at(x, y, k);
                    assert forall|j: int| 0 <= j < k - 1 implies p[j] == q[j] by {
                        assert(x[j + 1] == p[j]);
                        assert(y[j + 1] == q[j]);
                    }
                    assert(order::before_at(p, q, k - 1));
                }
            }
            r
        } else {
            let r = self.algorithm == Algorithm::Sha256;
            proof {
                if r {
                    assert(order::before_at(x, y, 0));
                } else {
                    assert(order::before_at(y, x, 0));
                    order::lemma_before_irreflexive(y, x);
                }
            }
            r
        }
    }

    fn dup(&self) -> (r: Digest) {
        Digest { algorithm: self.algorithm, hex: self.hex.clone() }
    }
}

impl Key for (String, Digest) {
    open spec fn rank(v: (Seq<char>, DigestView)) -> Seq<int> {
        order::code_points(v.0) + seq![-1int] + digest_rank(v.1)
    }

    proof fn rank_injective(a: (Seq<char>, DigestView), b: (Seq<char>, DigestView)) {
        lemma_pair_rank_parts(a, b);
        lemma_pair_rank_parts(b, a);
        let x = <(String, Digest) as Key>::rank(a);
        let y = <(String, Digest) as Key>::rank(b);
        let n = a.0.len() as int;
        assert(x.subrange(0, n) =~= order::code_points(a.0));
        assert(y.subrange(0, n) =~= order::code_points(b.0));
        order::lemma_code_points_injective(a.0, b.0);
        assert(x.subrange(n + 1, x.len() as int) =~= digest_rank(a.1));
        assert(y.subrange(n + 1, y.len() as int) =~= digest_rank(b.1));
        <Digest as Key>::rank_injective(a.1, b.1);
    }

    fn less(&self, other: &(String, Digest)) -> (r: bool) {
        let ghost x = <(String, Digest) as Key>::rank(self@);
        let ghost y = <(String, Digest) as Key>::rank(other@);
        let ghost p = order::code_points(self.0@);
        let ghost q = order::code_points(other.0@);
        if order::text_less(self.0.as_str(), other.0.as_str()) {
            proof {
                let k = choose|k: int| order::before_at(p, q, k);
                order::lemma_code_points_natural(other.0@);
                lemma_pair_before(x, y, p, q, digest_rank(self.1@), digest_rank(other.1@), k);
            }
            true
        } else if order::text_less(other.0.as_str(), self.0.as_str()) {
            proof {
                let k = choose|k: int| order::before_at(q, p, k);
                order::lemma_code_points_natural(self.0@);
                lemma_pair_before(y, x, q, p, digest_rank(other.1@), digest_rank(self.1@), k);
                order::lemma_before_irreflexive(y, x);
            }
            false
        } else {
            let r = self.1.less(&other.1);
            proof {
                if p != q {
                    order::lemma_before_total(p, q, 0);
                }
                lemma_prefix_before(
                    p + seq![-1int],
                    digest_rank(self.1@),
                    digest_rank(other.1@),
                );
            }
            r
        }
    }

    fn dup(&self) -> (r: (String, Digest)) {
        (self.0.clone(), self.1.dup())
    }
}

proof fn lemma_pair_rank_parts(a: (Seq<char>, DigestView), b: (Seq<char>, DigestView))
    requires
        <(String, Digest) as Key>::rank(a) == <(String, Digest) as Key>::rank(b),
    ensures
        a.0.len() <= b.0.len(),
{
    let x = <(String, Digest) as Key>::rank(a);
    let y = <(String, Digest) as Key>::rank(b);
    if b.0.len() < a.0.len() {
        let i = b.0.len() as int;
        assert(y[i] == -1);
        assert(x[i] == order::code_points(a.0)[i]);
        let c: char = a.0[i];
        assert(x[i] == c as int);
        order::lemma_code_points_natural(a.0);
    }
}

proof fn lemma_pair_before(
    x: Seq<int>,
    y: Seq<int>,
    p: Seq<int>,
    q: Seq<int>,
    d: Seq<int>,
    e: Seq<int>,
    k: int,
)
    requires
        x == p + seq![-1int] + d,
        y == q + seq![-1int] + e,
        order::before_at(p, q, k),
        forall|i: int| 0 <= i < q.len() ==> q[i] >= 0,
    ensures
        order::before(x, y),
{
    assert forall|j: int| 0 <= j < k implies x[j] == y[j] by {
        assert(x[j] == p[j]);
        assert(y[j] == q[j]);
    }
    assert(y[k] == q[k]);
    if k == p.len() {
        assert(x[k] == -1);
    } else {
        assert(x[k] == p[k]);
    }
    assert(order::before_at(x, y, k));
}

/// A common beginning does not change the order of what follows it.
proof fn lemma_prefix_before(c: Seq<int>, a: Seq<int>, b: Seq<int>)
    ensures
        order::before(c + a, c + b) <==> order::before(a, b),
{
    let n = c.len() as int;
    if order::before(a, b) {
        let k = choose|k: int| order::before_at(a, b, k);
        assert(order::before_at(c + a, c + b, n + k));
    }
    if order::before(c + a, c + b) {
        let k = choose|k: int| order::before_at(c + a, c + b, k);
        if k < n {
            assert((c + a)[k] == c[k]);
            assert((c + b)[k] == c[k]);
        }
        assert forall|j: int| 0 <= j < k - n implies a[j] == b[j] by {
            assert((c + a)[n + j] == a[j]);
            assert((c + b)[n + j] == b[j]);
        }
        assert(order::before_at(a, b, k - n));
    }
}

/// The digest that names a content under an algorithm.
pub open spec fn content_digest(a: Algorithm, content: Seq<u8>) -> DigestView {
    DigestView {
        algorithm: a,
        hex: outside::hex_text(
            match a {
                Algorithm::Sha256 => outside::sha256(content),
                Algorithm::Sha512 => outside::sha512(content),
            },
        ),
    }
}

proof fn lemma_hex_text(bytes: Seq<u8>)
    ensures
        all_hex(outside::hex_text(bytes)),
        outside::hex_text(bytes).len() == bytes.len() * 2,
{
    let s = outside::hex_text(bytes);
    assert forall|i: int| 0 <= i < s.len() implies is_hex(#[trigger] s[i]) by {
        let b = bytes[i / 2] as int;
        assert(0 <= b / 16 < 16);
        assert(0 <= b % 16 < 16);
    }
}

/// Hashes a content under the algorithm `a`.
pub fn hash_content(a: Algorithm, content: &[u8]) -> (r: Digest)
    ensures
        r@ == content_digest(a, content@),
        r@.wf(),
{
    let raw: Vec<u8> = match a {
        Algorithm::Sha256 => outside::hash_sha256(content),
        Algorithm::Sha512 => outside::hash_sha512(content),
    };
    let hex = outside::hex_encode(raw.as_slice());
    proof {
        lemma_hex_text(raw@);
    }
    Digest { algorithm: a, hex }
}

/// The SHA-256 digest of a content.
pub fn sha256_digest(content: &[u8]) -> (r: Digest)
    ensures
        r@ == content_digest(Algorithm::Sha256, content@),
        r@.wf(),
{
    hash_content(Algorithm::Sha256, content)
}

proof fn lemma_hex_bytes(s: Seq<char>)
    requires
        all_hex(s),
    ensures
        text::byte_len(s) == s.len(),
{
    assert(vstd::utf8::is_ascii_chars(s)) by {
        assert forall|i: int| 0 <= i < s.len() implies (#[trigger] s[i]) as nat <= 127 by {
            assert(is_hex(s[i]));
        }
    }
    vstd::utf8::is_ascii_chars_encode_utf8(s);
}

/// Reading back what a digest prints gives that digest again.
pub proof fn digest_round_trip(d: DigestView)
    requires
        d.wf(),
    ensures
        parsed(d.text()) == Ok::<DigestView, DigestErrorView>(d),
{
    let s = d.text();
    let n = d.algorithm.spec_name();
    reveal_strlit("sha256");
    reveal_strlit("sha512");
    let i = n.len() as int;
    assert(s[i] == ':');
    assert forall|j: int| 0 <= j < i implies s[j] != ':' by {
        assert(s[j] == n[j]);
    }
    text::lemma_index_of(s, ':', i);
    assert(s.subrange(0, i) =~= n);
    assert(text::from_pos(s, i + 1) =~= d.hex);
    assert("sha256"@[3] != "sha512"@[3]);
    lemma_hex_bytes(d.hex);
}

/// A text that reads as a digest is what that digest prints, and the digest is
/// well formed.
pub proof fn digest_text_is_canonical(s: Seq<char>)
    requires
        parsed(s) is Ok,
    ensures
        parsed(s)->Ok_0.text() == s,
        parsed(s)->Ok_0.wf(),
{
    let d = parsed(s)->Ok_0;
    let i = text::index_of(s, ':');
    text::lemma_index_of_bounds(s, ':');
    let j = choose|j: int| 0 <= j < s.len() && s[j] == ':';
    assert(s[j] == ':');
    lemma_hex_bytes(d.hex);
    assert(d.text() =~= s);
}

} // verus!
