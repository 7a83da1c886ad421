//! Content-addressed article identity: a URL is canonicalized by dropping
//! its fragment and its tracking query parameters, and the article id is a
//! deterministic name-based UUID of the canonical string.

use vstd::prelude::*;
use vstd::string::StringExecFns;
use crate::text::{chars_vec, push_char, str_eq, string_from_chars};

verus! {

/// What url::Url parsing splits a URL string into: the serialization with
/// query and fragment removed, the decoded query pairs in order, and the
/// fragment. `None` when the string does not parse as an absolute URL.
pub uninterp spec fn url_split_of(s: Seq<char>) -> Option<
    (Seq<char>, Seq<(Seq<char>, Seq<char>)>, Option<Seq<char>>),
>;

/// Relies on url::Url: `parse`, `fragment`, `query_pairs` (the decoded
/// pairs, in their original order), `set_fragment`/`set_query`, and the
/// Display serialization. The split is a pure function of the input string.
#[verifier::external_body]
fn split_url(raw: &str) -> (r: Option<(String, Vec<(String, String)>, Option<String>)>)
    ensures
        r.deep_view() == url_split_of(raw@),
{
    let mut u = match url::Url::parse(raw) {
        Ok(u) => u,
        Err(_) => return None,
    };
    let fragment: Option<String> = u.fragment().map(|f| f.to_string());
    let pairs: Vec<(String, String)> = u
        .query_pairs()
        .map(|(k, v)| (k.into_owned(), v.into_owned()))
        .collect();
    u.set_fragment(None);
    u.set_query(None);
    Some((u.to_string(), pairs, fragment))
}

/// What uuid::Uuid::new_v5 returns for a name, rendered in hyphenated form.
pub uninterp spec fn uuid_v5_of(name: Seq<char>) -> Seq<char>;

/// Relies on uuid's Uuid::new_v5 (RFC 9562 name-based UUID over SHA-1) with
/// the DNS namespace, and on Uuid's Display form: the result is a pure
/// function of the name alone, rendered as 36 hyphenated characters.
#[verifier::external_body]
fn uuid_v5_string(name: &str) -> (r: String)
    ensures
        r@ == uuid_v5_of(name@),
        r@.len() == 36,
{
    uuid::Uuid::new_v5(&uuid::Uuid::NAMESPACE_DNS, name.as_bytes()).to_string()
}

/// Whether a query parameter name belongs to the fixed tracking set that
/// canonicalization strips.
pub open spec fn is_tracking_name(k: Seq<char>) -> bool {
    ||| k == "utm_source"@
    ||| k == "utm_medium"@
    ||| k == "utm_campaign"@
    ||| k == "utm_term"@
    ||| k == "utm_content"@
    ||| k == "ref"@
    ||| k == "fbclid"@
    ||| k == "gclid"@
    ||| k == "mc_cid"@
    ||| k == "mc_eid"@
}

/// Executable test for the tracking-parameter set.
fn is_tracking_param(k: &str) -> (r: bool)
    ensures
        r == is_tracking_name(k@),
{
    str_eq(k, "utm_source") || str_eq(k, "utm_medium") || str_eq(k, "utm_campaign") || str_eq(
        k,
        "utm_term",
    ) || str_eq(k, "utm_content") || str_eq(k, "ref") || str_eq(k, "fbclid") || str_eq(k, "gclid")
        || str_eq(k, "mc_cid") || str_eq(k, "mc_eid")
}

/// The position of the first colon in a serialized URL, if any.
pub open spec fn colon_pos(s: Seq<char>) -> Option<int>
    decreases s.len(),
{
    if s.len() == 0 {
        None
    } else if s[0] == ':' {
        Some(0)
    } else {
        match colon_pos(s.drop_first()) {
            None => None,
            Some(i) => Some(i + 1),
        }
    }
}

/// `colon_pos` finds exactly the first colon.
proof fn lemma_colon_pos(s: Seq<char>)
    ensures
        match colon_pos(s) {
            None => forall|i: int| 0 <= i < s.len() ==> s[i] != ':',
            Some(k) => 0 <= k < s.len() && s[k] == ':' && forall|i: int|
                0 <= i < k ==> s[i] != ':',
        },
    decreases s.len(),
{
    if s.len() == 0 {
    } else if s[0] == ':' {
    } else {
        lemma_colon_pos(s.drop_first());
        let q = s.drop_first();
        match colon_pos(q) {
            None => {
                assert forall|i: int| 0 <= i < s.len() implies s[i] != ':' by {
                    if i > 0 {
                        assert(s[i] == q[i - 1]);
                    }
                }
            },
            Some(k) => {
                assert(s[k + 1] == q[k]);
                assert forall|i: int| 0 <= i < k + 1 implies s[i] != ':' by {
                    if i > 0 {
                        assert(s[i] == q[i - 1]);
                    }
                }
            },
        }
    }
}

/// The scheme of a serialized URL: everything before the first colon.
pub open spec fn scheme_of(base: Seq<char>) -> Seq<char> {
    match colon_pos(base) {
        None => base,
        Some(k) => base.take(k),
    }
}

/// Whether a scheme is one of the six special schemes, whose query
/// serialization additionally escapes the apostrophe.
pub open spec fn is_special_scheme(s: Seq<char>) -> bool {
    ||| s == "http"@
    ||| s == "https"@
    ||| s == "ws"@
    ||| s == "wss"@
    ||| s == "ftp"@
    ||| s == "file"@
}

/// Whether the query serialization percent-encodes this byte: the C0
/// controls and delete, space, quote, hash, angle brackets, every
/// non-ASCII byte, and the apostrophe for special schemes.
pub open spec fn query_byte_escaped(b: u8, special: bool) -> bool {
    ||| b <= 0x1f
    ||| b >= 0x7f
    ||| b == 0x20
    ||| b == 0x22
    ||| b == 0x23
    ||| b == 0x3c
    ||| b == 0x3e
    ||| (special && b == 0x27)
}

/// The upper-case hexadecimal digit for a value in 0..16.
pub open spec fn hex_digit(d: int) -> char {
    if d == 0 {
        '0'
    } else if d == 1 {
        '1'
    } else if d == 2 {
        '2'
    } else if d == 3 {
        '3'
    } else if d == 4 {
        '4'
    } else if d == 5 {
        '5'
    } else if d == 6 {
        '6'
    } else if d == 7 {
        '7'
    } else if d == 8 {
        '8'
    } else if d == 9 {
        '9'
    } else if d == 10 {
        'A'
    } else if d == 11 {
        'B'
    } else if d == 12 {
        'C'
    } else if d == 13 {
        'D'
    } else if d == 14 {
        'E'
    } else {
        'F'
    }
}

/// One byte as a percent escape, upper-case hex.
pub open spec fn escape_byte(b: u8) -> Seq<char> {
    seq!['%', hex_digit(b as int / 16), hex_digit(b as int % 16)]
}

/// One character of query text, serialized: tab and newlines are removed;
/// a plain ASCII character stays; everything else becomes the percent
/// escapes of its UTF-8 bytes.
pub open spec fn query_encoded_char(c: char, special: bool) -> Seq<char> {
    let u = c as u32;
    if u == 9 || u == 10 || u == 13 {
        Seq::empty()
    } else if u < 0x80 {
        if query_byte_escaped(u as u8, special) {
            escape_byte(u as u8)
        } else {
            seq![c]
        }
    } else if u < 0x800 {
        escape_byte((0xC0 + u / 64) as u8) + escape_byte((0x80 + u % 64) as u8)
    } else if u < 0x10000 {
        escape_byte((0xE0 + u / 4096) as u8) + escape_byte((0x80 + (u / 64) % 64) as u8)
            + escape_byte((0x80 + u % 64) as u8)
    } else {
        escape_byte((0xF0 + u / 262144) as u8) + escape_byte((0x80 + (u / 4096) % 64) as u8)
            + escape_byte((0x80 + (u / 64) % 64) as u8) + escape_byte((0x80 + u % 64) as u8)
    }
}

/// Query text, serialized character by character.
pub open spec fn query_encoded(s: Seq<char>, special: bool) -> Seq<char>
    decreases s.len(),
{
    if s.len() == 0 {
        Seq::empty()
    } else {
        query_encoded(s.drop_last(), special) + query_encoded_char(s.last(), special)
    }
}

/// One query pair rendered as `key=value`, both sides serialized.
pub open spec fn pair_str(p: (Seq<char>, Seq<char>), special: bool) -> Seq<char> {
    query_encoded(p.0, special) + "="@ + query_encoded(p.1, special)
}

/// Query pairs rendered in order, joined with `&`.
pub open spec fn joined_query(pairs: Seq<(Seq<char>, Seq<char>)>, special: bool) -> Seq<char>
    decreases pairs.len(),
{
    if pairs.len() == 0 {
        Seq::empty()
    } else if pairs.len() == 1 {
        pair_str(pairs[0], special)
    } else {
        joined_query(pairs.drop_last(), special) + "&"@ + pair_str(pairs.last(), special)
    }
}

/// The upper-case hex digit, executable form.
fn hex_digit_char(d: u32) -> (c: char)
    requires
        d < 16,
    ensures
        c == hex_digit(d as int),
{
    if d == 0 {
        '0'
    } else if d == 1 {
        '1'
    } else if d == 2 {
        '2'
    } else if d == 3 {
        '3'
    } else if d == 4 {
        '4'
    } else if d == 5 {
        '5'
    } else if d == 6 {
        '6'
    } else if d == 7 {
        '7'
    } else if d == 8 {
        '8'
    } else if d == 9 {
        '9'
    } else if d == 10 {
        'A'
    } else if d == 11 {
        'B'
    } else if d == 12 {
        'C'
    } else if d == 13 {
        'D'
    } else if d == 14 {
        'E'
    } else {
        'F'
    }
}

/// Append the percent escape of one byte.
fn push_escape(out: &mut String, b: u32)
    requires
        b < 256,
    ensures
        final(out)@ == old(out)@ + escape_byte(b as u8),
{
    push_char(out, '%');
    let hi = hex_digit_char(b / 16);
    push_char(out, hi);
    let lo = hex_digit_char(b % 16);
    push_char(out, lo);
    proof {
        assert(out@ =~= old(out)@ + escape_byte(b as u8));
    }
}

/// Whether the query serialization escapes this ASCII character.
fn ascii_query_escaped(u: u32, special: bool) -> (r: bool)
    requires
        u < 0x80,
    ensures
        r == query_byte_escaped(u as u8, special),
{
    u <= 0x1f || u == 0x7f || u == 0x20 || u == 0x22 || u == 0x23 || u == 0x3c || u == 0x3e || (
    special && u == 0x27)
}

/// Append query text, serialized with the scheme's escaping.
#[verifier::loop_isolation(false)]
fn push_query_encoded(out: &mut String, s: &str, special: bool)
    ensures
        final(out)@ == old(out)@ + query_encoded(s@, special),
{
    let cs = chars_vec(s);
    let mut i: usize = 0;
    proof {
        assert(query_encoded(s@.take(0), special) =~= Seq::<char>::empty());
        assert(out@ =~= old(out)@ + query_encoded(s@.take(0), special));
    }
    while i < cs.len()
        invariant
            i <= cs@.len(),
            cs@ == s@,
            out@ == old(out)@ + query_encoded(s@.take(i as int), special),
        decreases cs@.len() - i,
    {
        proof {
            let t1 = s@.take(i as int + 1);
            assert(t1.drop_last() =~= s@.take(i as int));
            assert(t1.last() == s@[i as int]);
        }
        let c = cs[i];
        let u = c as u32;
        if u == 9 || u == 10 || u == 13 {
            proof {
                assert(out@ =~= old(out)@ + query_encoded(s@.take(i as int + 1), special));
            }
        } else if u < 0x80 {
            if ascii_query_escaped(u, special) {
                push_escape(out, u);
            } else {
                push_char(out, c);
            }
            proof {
                assert(out@ =~= old(out)@ + query_encoded(s@.take(i as int + 1), special));
            }
        } else if u < 0x800 {
            push_escape(out, 0xC0 + u / 64);
            push_escape(out, 0x80 + u % 64);
            proof {
                assert(out@ =~= old(out)@ + query_encoded(s@.take(i as int + 1), special));
            }
        } else if u < 0x10000 {
            push_escape(out, 0xE0 + u / 4096);
            push_escape(out, 0x80 + (u / 64) % 64);
            push_escape(out, 0x80 + u % 64);
            proof {
                assert(out@ =~= old(out)@ + query_encoded(s@.take(i as int + 1), special));
            }
        } else {
            proof {
                vstd::utf8::char_is_scalar(c);
                assert(u <= 0x10FFFF);
            }
            push_escape(out, 0xF0 + u / 262144);
            push_escape(out, 0x80 + (u / 4096) % 64);
            push_escape(out, 0x80 + (u / 64) % 64);
            push_escape(out, 0x80 + u % 64);
            proof {
                assert(out@ =~= old(out)@ + query_encoded(s@.take(i as int + 1), special));
            }
        }
        i = i + 1;
    }
    proof {
        assert(s@.take(s@.len() as int) =~= s@);
    }
}

/// Whether the base's scheme is one of the special ones.
#[verifier::loop_isolation(false)]
fn scheme_is_special(base: &str) -> (r: bool)
    ensures
        r == is_special_scheme(scheme_of(base@)),
{
    let cs = chars_vec(base);
    let n = cs.len();
    let mut k: usize = 0;
    while k < n && cs[k] != ':'
        invariant
            k <= n,
            forall|i: int| 0 <= i < k ==> cs@[i] != ':',
        decreases n - k,
    {
        k = k + 1;
    }
    proof {
        lemma_colon_pos(base@);
        if k < n {
            assert(base@[k as int] == ':');
            assert(colon_pos(base@) == Some(k as int));
        } else {
            assert(colon_pos(base@) is None);
            assert(base@.take(k as int) =~= base@);
        }
        assert(scheme_of(base@) == base@.take(k as int));
    }
    let mut prefix: Vec<char> = Vec::new();
    let mut j: usize = 0;
    while j < k
        invariant
            j <= k,
            k <= n,
            prefix@ == base@.take(j as int),
        decreases k - j,
    {
        prefix.push(cs[j]);
        j = j + 1;
        proof {
            assert(prefix@ =~= base@.take(j as int));
        }
    }
    let s = string_from_chars(&prefix);
    str_eq(s.as_str(), "http") || str_eq(s.as_str(), "https") || str_eq(s.as_str(), "ws")
        || str_eq(s.as_str(), "wss") || str_eq(s.as_str(), "ftp") || str_eq(s.as_str(), "file")
}

/// The query pairs that canonicalization keeps: everything that is not a
/// tracking parameter, in the original order.
pub open spec fn kept_pairs(pairs: Seq<(Seq<char>, Seq<char>)>) -> Seq<(Seq<char>, Seq<char>)> {
    pairs.filter(|p: (Seq<char>, Seq<char>)| !is_tracking_name(p.0))
}

/// The canonical string for a split URL. The fragment is ignored; tracking
/// parameters are dropped; the remaining pairs keep their relative order
/// and are re-serialized with the scheme's query escaping, as writing the
/// query back through the URL type would.
pub open spec fn canonical_parts(
    base: Seq<char>,
    pairs: Seq<(Seq<char>, Seq<char>)>,
    fragment: Option<Seq<char>>,
) -> Seq<char> {
    let kept = kept_pairs(pairs);
    if kept.len() == 0 {
        base
    } else {
        base + "?"@ + joined_query(kept, is_special_scheme(scheme_of(base)))
    }
}

/// The canonical form of a raw URL string: its canonicalized split when it
/// parses, the raw string itself otherwise.
pub open spec fn canonical_url_of(raw: Seq<char>) -> Seq<char> {
    match url_split_of(raw) {
        None => raw,
        Some(t) => canonical_parts(t.0, t.1, t.2),
    }
}

/// Canonicalize a URL: drop the fragment and tracking parameters, keep all
/// other query parameters in order. A string that fails to parse is its own
/// canonical form.
pub fn canonical_url(raw: &str) -> (r: String)
    ensures
        r@ == canonical_url_of(raw@),
{
    match split_url(raw) {
        None => raw.to_owned(),
        Some((base, pairs, fragment)) => {
            proof {
                assert(url_split_of(raw@) == Some(
                    (base@, pairs.deep_view(), fragment.deep_view()),
                ));
            }
            let mut kept: Vec<(String, String)> = Vec::new();
            let mut i: usize = 0;
            proof {
                reveal(Seq::filter);
                assert(pairs.deep_view().take(0) =~= Seq::<(Seq<char>, Seq<char>)>::empty());
                assert(kept.deep_view() =~= kept_pairs(pairs.deep_view().take(0)));
            }
            while i < pairs.len()
                invariant
                    i <= pairs.len(),
                    kept.deep_view() == kept_pairs(pairs.deep_view().take(i as int)),
                decreases pairs.len() - i,
            {
                let key = pairs[i].0.clone();
                let val = pairs[i].1.clone();
                proof {
                    reveal(Seq::filter);
                    let dv = pairs.deep_view();
                    assert(dv[i as int] == (key@, val@));
                    assert(dv.take(i as int + 1).drop_last() =~= dv.take(i as int));
                    assert(dv.take(i as int + 1).last() == (key@, val@));
                }
                if !is_tracking_param(key.as_str()) {
                    kept.push((key, val));
                    proof {
                        reveal(Seq::filter);
                        assert(kept.deep_view() =~= kept_pairs(
                            pairs.deep_view().take(i as int),
                        ).push((key@, val@)));
                        assert(kept.deep_view() == kept_pairs(pairs.deep_view().take(i as int + 1)));
                    }
                } else {
                    proof {
                        reveal(Seq::filter);
                        assert(kept.deep_view() == kept_pairs(pairs.deep_view().take(i as int + 1)));
                    }
                }
                i = i + 1;
            }
            proof {
                assert(pairs.deep_view().take(pairs@.len() as int) =~= pairs.deep_view());
                assert(kept.deep_view() == kept_pairs(pairs.deep_view()));
            }
            if kept.len() == 0 {
                base
            } else {
                let ghost keptv = kept.deep_view();
                let special = scheme_is_special(base.as_str());
                let ghost spx = is_special_scheme(scheme_of(base@));
                let mut out = base;
                out.append("?");
                let mut j: usize = 0;
                proof {
                    assert(out@ + joined_query(keptv.take(0), spx) =~= out@);
                }
                let ghost prefix = out@;
                while j < kept.len()
                    invariant
                        1 <= j <= kept.len() || (j == 0 && kept.len() > 0),
                        keptv == kept.deep_view(),
                        special == spx,
                        out@ == prefix + joined_query(keptv.take(j as int), spx),
                    decreases kept.len() - j,
                {
                    if j > 0 {
                        out.append("&");
                    }
                    push_query_encoded(&mut out, kept[j].0.as_str(), special);
                    out.append("=");
                    push_query_encoded(&mut out, kept[j].1.as_str(), special);
                    proof {
                        let t1 = keptv.take(j as int + 1);
                        assert(t1.drop_last() =~= keptv.take(j as int));
                        assert(t1.last() == keptv[j as int]);
                        assert(keptv[j as int] == (kept@[j as int].0@, kept@[j as int].1@));
                        if j == 0 {
                            assert(t1.len() == 1);
                            assert(t1[0] == keptv[0]);
                            assert(out@ =~= prefix + joined_query(t1, spx));
                        } else {
                            assert(out@ =~= prefix + joined_query(t1, spx));
                        }
                    }
                    j = j + 1;
                }
                proof {
                    assert(keptv.take(kept@.len() as int) =~= keptv);
                    assert(out@ =~= canonical_parts(base@, pairs.deep_view(), fragment.deep_view()));
                }
                out
            }
        },
    }
}

/// The stable article id for a source URL: a name-based UUID of the
/// canonical form. Pure, and never fails: unparsable strings are hashed
/// as they are.
pub fn article_id_from_url(raw_url: &str) -> (id: String)
    ensures
        id@ == uuid_v5_of(canonical_url_of(raw_url@)),
        id@.len() == 36,
{
    let canonical = canonical_url(raw_url);
    uuid_v5_string(canonical.as_str())
}

/// Law: the canonical form of a URL does not depend on its fragment, so two
/// URLs that parse to the same base and query resolve to the same id
/// whatever their fragments.
pub proof fn lemma_canonical_ignores_fragment(
    base: Seq<char>,
    pairs: Seq<(Seq<char>, Seq<char>)>,
    f1: Option<Seq<char>>,
    f2: Option<Seq<char>>,
)
    ensures
        canonical_parts(base, pairs, f1) == canonical_parts(base, pairs, f2),
{
}

/// Law: appending a tracking parameter (a `utm_*`, `ref`, click-id or
/// mailchimp parameter) leaves the canonical form unchanged, so the id is
/// unchanged too.
pub proof fn lemma_canonical_drops_tracking(
    base: Seq<char>,
    pairs: Seq<(Seq<char>, Seq<char>)>,
    k: Seq<char>,
    v: Seq<char>,
    fragment: Option<Seq<char>>,
)
    requires
        is_tracking_name(k),
    ensures
        canonical_parts(base, pairs.push((k, v)), fragment) == canonical_parts(
            base,
            pairs,
            fragment,
        ),
{
    reveal(Seq::filter);
    let p = pairs.push((k, v));
    assert(p.drop_last() =~= pairs);
    assert(p.last() == (k, v));
    assert(kept_pairs(p) == kept_pairs(pairs));
}

/// Law: appending a non-tracking parameter strictly lengthens the canonical
/// form, so it changes it: canonicalization keeps every parameter outside
/// the tracking set.
pub proof fn lemma_canonical_keeps_non_tracking(
    base: Seq<char>,
    pairs: Seq<(Seq<char>, Seq<char>)>,
    k: Seq<char>,
    v: Seq<char>,
    fragment: Option<Seq<char>>,
)
    requires
        !is_tracking_name(k),
    ensures
        canonical_parts(base, pairs.push((k, v)), fragment).len() > canonical_parts(
            base,
            pairs,
            fragment,
        ).len(),
        canonical_parts(base, pairs.push((k, v)), fragment) != canonical_parts(
            base,
            pairs,
            fragment,
        ),
{
    reveal(Seq::filter);
    reveal_strlit("=");
    reveal_strlit("&");
    reveal_strlit("?");
    let sp = is_special_scheme(scheme_of(base));
    let p = pairs.push((k, v));
    assert(p.drop_last() =~= pairs);
    assert(p.last() == (k, v));
    let kept = kept_pairs(pairs);
    let kept1 = kept_pairs(p);
    assert(kept1 == kept.push((k, v)));
    assert(pair_str((k, v), sp).len() >= 1);
    if kept.len() == 0 {
        assert(kept1 =~= seq![(k, v)]);
        assert(joined_query(kept1, sp) == pair_str((k, v), sp));
    } else {
        assert(kept1.drop_last() =~= kept);
        assert(kept1.last() == (k, v));
        assert(kept1.len() >= 2);
        assert(joined_query(kept1, sp) == joined_query(kept, sp) + "&"@ + pair_str((k, v), sp));
    }
}

} // verus!
