//! The link to the next page asks for the next page.

use vstd::prelude::*;

use crate::handlers;
use crate::http;
use crate::http::Method;
use crate::router;
use crate::router::{Features, RouteView};
use crate::text;

verus! {

/// A character that stands for itself in the query of a link: ASCII, none that has a
/// meaning there, and none that cannot be sent in a header.
pub open spec fn stands_for_itself(c: char) -> bool {
    (c as u32) < 0x80 && http::may_be_sent(c) && c != '+' && c != '%' && c != '&'
}

pub open spec fn is_plain_text(s: Seq<char>) -> bool {
    forall|i: int| 0 <= i < s.len() ==> stands_for_itself(#[trigger] s[i])
}

/// A plain text in a query stands for itself.
pub proof fn plain_text_is_decoded_as_it_is(s: Seq<char>)
    requires
        is_plain_text(s),
    ensures
        router::decoded(s) == s,
{
    assert forall|i: int| 0 <= i < s.len() implies (#[trigger] s[i]) != '+' && s[i] != '%' by {
        assert(stands_for_itself(s[i]));
    }
    text_without_escapes_is_decoded_as_it_is(s);
}

/// A decimal number reads as that number.
pub proof fn decimal_reads_back(n: nat, max: nat)
    requires
        n <= max,
    ensures
        text::parsed_unsigned(text::decimal(n), max) == Some(n),
{
    lemma_decimal(n);
    let d = text::decimal(n);
    assert(text::is_digit(d[0]));
    assert(text::unsigned_digits(d) == d);
}

proof fn lemma_decimal(n: nat)
    ensures
        text::decimal(n).len() > 0,
        forall|i: int|
            0 <= i < text::decimal(n).len() ==> text::is_digit(#[trigger] text::decimal(n)[i]),
        text::digits_value(text::decimal(n)) == n,
    decreases n,
{
    let d = text::decimal(n);
    let last = (('0' as u32 + (n % 10)) as u32) as char;
    assert(text::is_digit(last));
    assert(text::digit_value(last) == n % 10);
    assert(d.last() == last);
    if n < 10 {
        assert(d.drop_last() =~= Seq::<char>::empty());
        assert(text::digits_value(Seq::<char>::empty()) == 0);
    } else {
        lemma_decimal(n / 10);
        assert(d.drop_last() =~= text::decimal(n / 10));
        assert forall|i: int| 0 <= i < d.len() implies text::is_digit(#[trigger] d[i]) by {
            if i < d.len() - 1 {
                assert(d[i] == text::decimal(n / 10)[i]);
            }
        }
    }
}

proof fn lemma_decimal_plain(n: nat)
    ensures
        is_plain_text(text::decimal(n)),
        !text::decimal(n).contains('='),
{
    lemma_decimal(n);
    let d = text::decimal(n);
    assert forall|i: int| 0 <= i < d.len() implies stands_for_itself(#[trigger] d[i]) by {
        assert(text::is_digit(d[i]));
    }
    if d.contains('=') {
        let i = choose|i: int| 0 <= i < d.len() && d[i] == '=';
        assert(text::is_digit(d[i]));
    }
}

/// A query of two pairs is split into these.
proof fn lemma_two_parts(a: Seq<char>, b: Seq<char>)
    requires
        !a.contains('&'),
        !b.contains('&'),
    ensures
        text::split(a + seq!['&'] + b, '&') == seq![a, b],
{
    let s = a + seq!['&'] + b;
    let n = a.len() as int;
    assert forall|j: int| 0 <= j < n implies s[j] != '&' by {
        if a[j] == '&' {
            assert(a.contains('&'));
        }
    }
    text::lemma_index_of(s, '&', n);
    assert(s.subrange(0, n) =~= a);
    assert(text::from_pos(s, n + 1) =~= b);
    assert forall|j: int| 0 <= j < b.len() implies b[j] != '&' by {
        if b[j] == '&' {
            assert(b.contains('&'));
        }
    }
    text::lemma_index_of(b, '&', b.len() as int);
    assert(text::split(b, '&') == seq![b]);
    assert(text::split(s, '&') == seq![a] + text::split(b, '&'));
    assert(seq![a] + seq![b] =~= seq![a, b]);
}

/// A pair of plain texts is taken apart into these.
proof fn lemma_pair(name: Seq<char>, value: Seq<char>)
    requires
        is_plain_text(name),
        is_plain_text(value),
        !name.contains('='),
    ensures
        router::pair_of(name + seq!['='] + value) == (name, value),
        !(name + seq!['='] + value).contains('&'),
        (name + seq!['='] + value).len() > 0,
{
    let p = name + seq!['='] + value;
    let n = name.len() as int;
    assert(p[n] == '=');
    assert forall|j: int| 0 <= j < n implies p[j] != '=' by {
        if name[j] == '=' {
            assert(name.contains('='));
        }
    }
    text::lemma_index_of(p, '=', n);
    assert(p.subrange(0, n) =~= name);
    assert(text::from_pos(p, n + 1) =~= value);
    plain_text_is_decoded_as_it_is(name);
    plain_text_is_decoded_as_it_is(value);
    if p.contains('&') {
        let i = choose|i: int| 0 <= i < p.len() && p[i] == '&';
        if i < n {
            assert(stands_for_itself(name[i]));
        } else if i > n {
            assert(stands_for_itself(value[i - n - 1]));
        }
    }
}

proof fn lemma_next_pairs(n: nat, last: Seq<char>)
    requires
        is_plain_text(last),
    ensures
        router::pairs_of(handlers::next_query(n, last)) == seq![
            ("n"@, text::decimal(n)),
            ("last"@, last),
        ],
{
    reveal_strlit("n=");
    reveal_strlit("&last=");
    reveal_strlit("n");
    reveal_strlit("last");
    lemma_decimal_plain(n);
    let a = "n"@ + seq!['='] + text::decimal(n);
    let b = "last"@ + seq!['='] + last;
    let q = handlers::next_query(n, last);
    assert(is_plain_text("n"@));
    assert(is_plain_text("last"@));
    assert(!"n"@.contains('='));
    assert(!"last"@.contains('='));
    lemma_pair("n"@, text::decimal(n));
    lemma_pair("last"@, last);
    assert(q =~= a + seq!['&'] + b);
    lemma_two_parts(a, b);
    let parts = seq![a, b];
    assert(parts.drop_last() =~= seq![a]);
    assert(seq![a].drop_last() =~= Seq::<Seq<char>>::empty());
    reveal_with_fuel(router::pairs_among, 3);
    assert(router::pairs_among(parts) =~= seq![("n"@, text::decimal(n)), ("last"@, last)]);
}

/// The query in the link to the next page of the catalog asks for as many items as
/// before, behind the last one.
pub proof fn next_link_asks_for_the_next_page(n: usize, last: Seq<char>, f: Features)
    requires
        is_plain_text(last),
    ensures
        router::routed(
            Method::Get,
            "/v2/_catalog"@,
            Some(handlers::next_query(n as nat, last)),
            f,
        ) == (RouteView::Catalog { n: Some(n), last: Some(last) }),
{
    reveal_strlit("/v2/_catalog");
    reveal_strlit("/v2/");
    reveal_strlit("/v2");
    reveal_strlit("_catalog");
    reveal_strlit("n");
    reveal_strlit("last");
    let p = "/v2/_catalog"@;
    lemma_next_pairs(n as nat, last);
    decimal_reads_back(n as nat, usize::MAX as nat);
    assert(p.subrange(0, 4) =~= "/v2/"@);
    assert(text::from_pos(p, 4) =~= "_catalog"@);
    let pairs = seq![("n"@, text::decimal(n as nat)), ("last"@, last)];
    assert("n"@.len() != "last"@.len());
    assert(pairs.drop_last() =~= seq![("n"@, text::decimal(n as nat))]);
    reveal_with_fuel(router::value_of, 3);
    assert(router::value_of(pairs, "last"@) == Some(last));
    assert(router::value_of(pairs, "n"@) == Some(text::decimal(n as nat)));
}

/// The link is sent with every page that is cut short and whose last item is plain.
pub proof fn next_link_is_sent(base: Seq<char>, n: usize, items: Seq<Seq<char>>)
    requires
        items.len() > 0,
        is_plain_text(items.last()),
        is_plain_text(base),
    ensures
        handlers::next_link(base, Some(n), items) == seq![
            (
                "link"@,
                "</v2/"@ + base + "?"@ + handlers::next_query(n as nat, items.last())
                    + ">; rel=\"next\""@,
            ),
        ],
{
    reveal_strlit("</v2/");
    reveal_strlit("?");
    reveal_strlit(">; rel=\"next\"");
    reveal_strlit("n=");
    reveal_strlit("&last=");
    let d = text::decimal(n as nat);
    lemma_decimal_plain(n as nat);
    let last = items.last();
    let value = "</v2/"@ + base + "?"@ + handlers::next_query(n as nat, last)
        + ">; rel=\"next\""@;
    lemma_plain_is_sent(base);
    lemma_plain_is_sent(last);
    lemma_plain_is_sent(d);
    lemma_sent_together("n="@, d);
    lemma_sent_together("n="@ + d, "&last="@);
    lemma_sent_together("n="@ + d + "&last="@, last);
    lemma_sent_together("</v2/"@, base);
    lemma_sent_together("</v2/"@ + base, "?"@);
    lemma_sent_together("</v2/"@ + base + "?"@, handlers::next_query(n as nat, last));
    lemma_sent_together(
        "</v2/"@ + base + "?"@ + handlers::next_query(n as nat, last),
        ">; rel=\"next\""@,
    );
    assert(http::can_be_sent(value));
}

proof fn lemma_plain_is_sent(s: Seq<char>)
    requires
        is_plain_text(s),
    ensures
        http::can_be_sent(s),
{
    assert forall|i: int| 0 <= i < s.len() implies http::may_be_sent(#[trigger] s[i]) by {
        assert(stands_for_itself(s[i]));
    }
}

proof fn lemma_sent_together(a: Seq<char>, b: Seq<char>)
    requires
        http::can_be_sent(a),
        http::can_be_sent(b),
    ensures
        http::can_be_sent(a + b),
{
    assert forall|i: int| 0 <= i < (a + b).len() implies http::may_be_sent(#[trigger] (a + b)[i]) by {
        if i < a.len() {
            assert((a + b)[i] == a[i]);
        } else {
            assert((a + b)[i] == b[i - a.len()]);
        }
    }
}

/// The name of a repository is plain text.
pub proof fn repository_names_are_plain(name: Seq<char>)
    requires
        handlers::valid_name(name),
    ensures
        is_plain_text(name),
{
    handlers::valid_name_grammar(name);
    lemma_parts_plain(name);
}

proof fn lemma_parts_plain(s: Seq<char>)
    requires
        forall|k: int|
            0 <= k < text::split(s, '/').len() ==> {
                let c = #[trigger] text::split(s, '/')[k];
                &&& c.len() > 0
                &&& handlers::name_start(c[0])
                &&& forall|i: int| 1 <= i < c.len() ==> handlers::name_part(#[trigger] c[i])
            },
    ensures
        is_plain_text(s),
    decreases s.len(),
{
    let parts = text::split(s, '/');
    let n = text::index_of(s, '/');
    text::lemma_index_of_bounds(s, '/');
    if n < s.len() {
        let rest = text::from_pos(s, n + 1);
        let c = parts[0];
        assert(c == s.subrange(0, n));
        assert forall|k: int| 0 <= k < text::split(rest, '/').len() implies {
            let c = #[trigger] text::split(rest, '/')[k];
            &&& c.len() > 0
            &&& handlers::name_start(c[0])
            &&& forall|i: int| 1 <= i < c.len() ==> handlers::name_part(#[trigger] c[i])
        } by {
            assert(parts[k + 1] == text::split(rest, '/')[k]);
        }
        lemma_parts_plain(rest);
        assert forall|i: int| 0 <= i < s.len() implies stands_for_itself(#[trigger] s[i]) by {
            if i < n {
                assert(c[i] == s[i]);
                if i > 0 {
                    assert(handlers::name_part(c[i]));
                }
            } else if i > n {
                assert(rest[i - n - 1] == s[i]);
            }
        }
    } else {
        assert(parts[0] == s);
        assert forall|i: int| 0 <= i < s.len() implies stands_for_itself(#[trigger] s[i]) by {
            if i > 0 {
                assert(handlers::name_part(s[i]));
            }
        }
    }
}

// ---- Escapes --------------------------------------------------------------

/// None of the bytes has a meaning in a form.
pub open spec fn is_plain(b: Seq<u8>) -> bool {
    forall|i: int| 0 <= i < b.len() ==> (#[trigger] b[i]) != 0x2b && b[i] != 0x25
}

proof fn lemma_plain_bytes(b: Seq<u8>)
    requires
        is_plain(b),
    ensures
        router::unescaped(b) == b,
    decreases b.len(),
{
    if b.len() > 0 {
        let rest = b.subrange(1, b.len() as int);
        assert forall|i: int| 0 <= i < rest.len() implies (#[trigger] rest[i]) != 0x2b && rest[i]
            != 0x25 by {
            assert(rest[i] == b[i + 1]);
        }
        lemma_plain_bytes(rest);
        assert(b[0] != 0x2b && b[0] != 0x25);
        assert(router::unescaped(b) =~= b);
    }
}

/// The bytes of a character that is neither `+` nor `%`.
proof fn lemma_char_plain(c: char)
    requires
        c != '+',
        c != '%',
    ensures
        is_plain(vstd::utf8::encode_scalar(c as u32)),
{
    let x = c as u32;
    if vstd::utf8::has_width_1_encoding(x) {
        assert(x <= 0x7f && x != 0x2b && x != 0x25 ==> (x & 0x7f) as u8 != 0x2b && (x & 0x7f) as u8
            != 0x25) by (bit_vector);
        assert(x != 0x2b && x != 0x25) by {
            if x == 0x2b {
                assert(c == '+');
            }
            if x == 0x25 {
                assert(c == '%');
            }
        }
    } else {
        assert(0xc0u8 | ((x >> 6) & 0x1f) as u8 >= 0xc0) by (bit_vector);
        assert(0xe0u8 | ((x >> 12) & 0x0f) as u8 >= 0xe0) by (bit_vector);
        assert(0xf0u8 | ((x >> 18) & 0x07) as u8 >= 0xf0) by (bit_vector);
        assert(0x80u8 | (x & 0x3f) as u8 >= 0x80) by (bit_vector);
        assert(0x80u8 | ((x >> 6) & 0x3f) as u8 >= 0x80) by (bit_vector);
        assert(0x80u8 | ((x >> 12) & 0x3f) as u8 >= 0x80) by (bit_vector);
    }
}

proof fn lemma_text_plain(s: Seq<char>)
    requires
        forall|i: int| 0 <= i < s.len() ==> (#[trigger] s[i]) != '+' && s[i] != '%',
    ensures
        is_plain(vstd::utf8::encode_utf8(s)),
    decreases s.len(),
{
    if s.len() > 0 {
        let rest = s.drop_first();
        assert forall|i: int| 0 <= i < rest.len() implies (#[trigger] rest[i]) != '+' && rest[i]
            != '%' by {
            assert(rest[i] == s[i + 1]);
        }
        lemma_text_plain(rest);
        assert(s[0] != '+' && s[0] != '%');
        lemma_char_plain(s[0]);
        let a = vstd::utf8::encode_scalar(s[0] as u32);
        let b = vstd::utf8::encode_utf8(rest);
        assert forall|i: int| 0 <= i < (a + b).len() implies (#[trigger] (a + b)[i]) != 0x2b && (a
            + b)[i] != 0x25 by {
            if i < a.len() {
                assert((a + b)[i] == a[i]);
            } else {
                assert((a + b)[i] == b[i - a.len()]);
            }
        }
    }
}

/// A text without `+` and `%` is decoded as it is.
pub proof fn text_without_escapes_is_decoded_as_it_is(s: Seq<char>)
    requires
        forall|i: int| 0 <= i < s.len() ==> (#[trigger] s[i]) != '+' && s[i] != '%',
    ensures
        router::decoded(s) == s,
{
    lemma_text_plain(s);
    lemma_plain_bytes(vstd::utf8::encode_utf8(s));
    vstd::utf8::encode_utf8_valid_utf8(s);
    vstd::utf8::encode_utf8_decode_utf8(s);
}

/// `e` is `b` with every byte as a percent sign and two hexadecimal digits, of either
/// case.
pub open spec fn spells(e: Seq<u8>, b: Seq<u8>) -> bool {
    &&& e.len() == 3 * b.len()
    &&& forall|i: int| 0 <= i < b.len() ==> spells_at(e, #[trigger] b[i], 3 * i)
}

pub open spec fn spells_at(e: Seq<u8>, x: u8, k: int) -> bool {
    &&& e[k] == 0x25
    &&& router::nibble(e[k + 1]) == Some((x / 16) as u8)
    &&& router::nibble(e[k + 2]) == Some((x % 16) as u8)
}

proof fn lemma_spelled(e: Seq<u8>, b: Seq<u8>)
    requires
        spells(e, b),
    ensures
        router::unescaped(e) == b,
    decreases b.len(),
{
    if b.len() > 0 {
        let e2 = e.subrange(3, e.len() as int);
        let b2 = b.subrange(1, b.len() as int);
        let zero: int = 0;
        assert(spells_at(e, b[zero], 3 * zero));
        assert forall|i: int| 0 <= i < b2.len() implies spells_at(e2, #[trigger] b2[i], 3 * i) by {
            assert(b2[i] == b[i + 1]);
            assert(spells_at(e, b[i + 1], 3 * (i + 1)));
            assert(e2[3 * i] == e[3 * (i + 1)]);
            assert(e2[3 * i + 1] == e[3 * (i + 1) + 1]);
            assert(e2[3 * i + 2] == e[3 * (i + 1) + 2]);
        }
        lemma_spelled(e2, b2);
        assert(router::escaped(e));
        assert((b[0] / 16) * 16 + b[0] % 16 == b[0]);
        assert(router::unescaped(e) =~= b);
    }
}

/// A text that was escaped byte by byte is decoded back, whichever case its digits have.
pub proof fn escaped_text_is_decoded_back(escaped: Seq<char>, s: Seq<char>)
    requires
        spells(vstd::utf8::encode_utf8(escaped), vstd::utf8::encode_utf8(s)),
    ensures
        router::decoded(escaped) == s,
{
    lemma_spelled(vstd::utf8::encode_utf8(escaped), vstd::utf8::encode_utf8(s));
    vstd::utf8::encode_utf8_valid_utf8(s);
    vstd::utf8::encode_utf8_decode_utf8(s);
}

/// A percent sign without two hexadecimal digits behind it stands for itself.
pub proof fn lone_percent_is_kept(rest: Seq<u8>)
    requires
        !router::escaped(seq![0x25u8] + rest),
    ensures
        router::unescaped(seq![0x25u8] + rest) == seq![0x25u8] + router::unescaped(rest),
{
    let b = seq![0x25u8] + rest;
    assert(b.subrange(1, b.len() as int) =~= rest);
}

/// A plus sign stands for a space.
pub proof fn plus_is_a_space(rest: Seq<u8>)
    ensures
        router::unescaped(seq![0x2bu8] + rest) == seq![0x20u8] + router::unescaped(rest),
{
    let b = seq![0x2bu8] + rest;
    assert(b.subrange(1, b.len() as int) =~= rest);
}

} // verus!
