//! Opaque pagination cursors. A cursor encodes the `(published_at, id)` key
//! of the last item on a page as URL-safe base64 of a small text payload:
//! the timestamp in decimal, a newline, then the id. Anything that does not
//! decode back to that shape is treated as no cursor at all.

use vstd::prelude::*;
use vstd::string::StrSliceExecFns;
use base64::Engine;
use crate::text::{
    all_digits, chars_vec, char_digit, dec_of, digits_val, is_digit, lemma_dec_of_len,
    lemma_dec_of_val, lemma_digits_val_nonneg, pow10, push_char, string_from_chars,
    u64_to_string,
};

verus! {

/// What base64's URL_SAFE_NO_PAD engine returns for the UTF-8 bytes of a
/// string.
pub uninterp spec fn b64_of(s: Seq<char>) -> Seq<char>;

/// What decoding with base64's URL_SAFE_NO_PAD engine, followed by a UTF-8
/// read of the bytes, returns: `None` when either step rejects the input.
pub uninterp spec fn b64_decode_of(s: Seq<char>) -> Option<Seq<char>>;

/// Relies on base64's URL_SAFE_NO_PAD engine: encoding is a pure function
/// of the input bytes, and decoding the result yields those bytes back.
#[verifier::external_body]
fn b64_encode(s: &str) -> (r: String)
    requires
        s@.len() < usize::MAX / 16,
    ensures
        r@ == b64_of(s@),
        b64_decode_of(r@) == Some(s@),
{
    base64::engine::general_purpose::URL_SAFE_NO_PAD.encode(s.as_bytes())
}

/// Relies on base64's URL_SAFE_NO_PAD engine and String::from_utf8: the
/// result is a pure function of the input string.
#[verifier::external_body]
fn b64_decode(s: &str) -> (r: Option<String>)
    ensures
        r.deep_view() == b64_decode_of(s@),
{
    match base64::engine::general_purpose::URL_SAFE_NO_PAD.decode(s.as_bytes()) {
        Ok(bytes) => String::from_utf8(bytes).ok(),
        Err(_) => None,
    }
}

/// The position of the first newline in `p`, if any.
pub open spec fn nl_pos(p: Seq<char>) -> Option<int>
    decreases p.len(),
{
    if p.len() == 0 {
        None
    } else if p[0] == '\n' {
        Some(0)
    } else {
        match nl_pos(p.drop_first()) {
            None => None,
            Some(i) => Some(i + 1),
        }
    }
}

/// `nl_pos` finds exactly the first newline.
pub proof fn lemma_nl_pos(p: Seq<char>)
    ensures
        match nl_pos(p) {
            None => forall|i: int| 0 <= i < p.len() ==> p[i] != '\n',
            Some(k) => 0 <= k < p.len() && p[k] == '\n' && forall|i: int|
                0 <= i < k ==> p[i] != '\n',
        },
    decreases p.len(),
{
    if p.len() == 0 {
    } else if p[0] == '\n' {
    } else {
        lemma_nl_pos(p.drop_first());
        let q = p.drop_first();
        match nl_pos(q) {
            None => {
                assert forall|i: int| 0 <= i < p.len() implies p[i] != '\n' by {
                    if i > 0 {
                        assert(p[i] == q[i - 1]);
                    }
                }
            },
            Some(k) => {
                assert(p[k + 1] == q[k]);
                assert forall|i: int| 0 <= i < k + 1 implies p[i] != '\n' by {
                    if i > 0 {
                        assert(p[i] == q[i - 1]);
                    }
                }
            },
        }
    }
}

/// The decoded payload of a cursor: the decimal digits before the first
/// newline read as the timestamp, the rest as the id. `None` when there is
/// no newline, no digit before it, a non-digit among them, or a value that
/// does not fit.
pub open spec fn parse_payload(p: Seq<char>) -> Option<(u64, Seq<char>)> {
    match nl_pos(p) {
        None => None,
        Some(k) => {
            let num = p.take(k);
            let id = p.skip(k + 1);
            if k >= 1 && all_digits(num) && digits_val(num) <= u64::MAX {
                Some((digits_val(num) as u64, id))
            } else {
                None
            }
        },
    }
}

/// What a cursor string decodes to: `None` for anything malformed.
pub open spec fn decode_cursor_spec(c: Seq<char>) -> Option<(u64, Seq<char>)> {
    match b64_decode_of(c) {
        None => None,
        Some(p) => parse_payload(p),
    }
}

/// The payload text for a key: decimal timestamp, newline, id.
pub open spec fn cursor_payload(ts: u64, id: Seq<char>) -> Seq<char> {
    dec_of(ts as int) + seq!['\n'] + id
}

/// The cursor string for a key.
pub open spec fn encode_cursor_spec(ts: u64, id: Seq<char>) -> Seq<char> {
    b64_of(cursor_payload(ts, id))
}

/// Encode the key of the last item on a page as an opaque cursor.
pub fn encode_cursor(ts: u64, id: &str) -> (r: String)
    requires
        id@.len() < usize::MAX / 32,
    ensures
        r@ == encode_cursor_spec(ts, id@),
        decode_cursor_spec(r@) == Some((ts, id@)),
{
    let mut payload = u64_to_string(ts);
    push_char(&mut payload, '\n');
    let idv = chars_vec(id);
    let mut i: usize = 0;
    while i < idv.len()
        invariant
            i <= idv.len(),
            idv@ == id@,
            payload@ == dec_of(ts as int) + seq!['\n'] + id@.take(i as int),
        decreases idv.len() - i,
    {
        push_char(&mut payload, idv[i]);
        i = i + 1;
        proof {
            assert(payload@ =~= dec_of(ts as int) + seq!['\n'] + id@.take(i as int));
        }
    }
    proof {
        assert(id@.take(id@.len() as int) =~= id@);
        assert(payload@ == cursor_payload(ts, id@));
        assert(u64::MAX < pow10(20)) by {
            reveal_with_fuel(pow10, 21);
        }
        lemma_dec_of_len(ts as int, 20);
        assert(payload@.len() < usize::MAX / 16);
        lemma_payload_parses(ts, id@);
    }
    b64_encode(payload.as_str())
}

/// A well-formed payload parses back to the key it was made from.
proof fn lemma_payload_parses(ts: u64, id: Seq<char>)
    ensures
        parse_payload(cursor_payload(ts, id)) == Some((ts, id)),
{
    let num = dec_of(ts as int);
    let p = cursor_payload(ts, id);
    lemma_dec_of_val(ts as int);
    lemma_nl_pos_concat(num, id);
    assert(nl_pos(p) == Some(num.len() as int));
    assert(p.take(num.len() as int) =~= num);
    assert(p.skip(num.len() as int + 1) =~= id);
}

/// In `digits + '\n' + id`, the first newline is exactly at the end of the
/// digit prefix.
proof fn lemma_nl_pos_concat(num: Seq<char>, id: Seq<char>)
    requires
        all_digits(num),
    ensures
        nl_pos(num + seq!['\n'] + id) == Some(num.len() as int),
    decreases num.len(),
{
    let p = num + seq!['\n'] + id;
    if num.len() == 0 {
        assert(p[0] == '\n');
    } else {
        assert(is_digit(num[0]));
        assert(p[0] == num[0]);
        assert(p[0] != '\n');
        assert(all_digits(num.drop_first()));
        lemma_nl_pos_concat(num.drop_first(), id);
        assert(p.drop_first() =~= num.drop_first() + seq!['\n'] + id);
    }
}

/// Decode a cursor. Malformed or foreign cursors yield `None`: paging then
/// restarts from the beginning rather than failing.
#[verifier::loop_isolation(false)]
pub fn decode_cursor(c: &str) -> (r: Option<(u64, String)>)
    ensures
        match (r, decode_cursor_spec(c@)) {
            (Some((ts, id)), Some(s)) => ts == s.0 && id@ == s.1,
            (None, None) => true,
            _ => false,
        },
{
    let decoded = match b64_decode(c) {
        None => {
            return None;
        },
        Some(d) => d,
    };
    let p = chars_vec(decoded.as_str());
    proof {
        lemma_nl_pos(p@);
    }
    // find the first newline
    let mut k: usize = 0;
    let n = p.len();
    while k < n && p[k] != '\n'
        invariant
            k <= n,
            n == p@.len(),
            forall|i: int| 0 <= i < k ==> p@[i] != '\n',
        decreases n - k,
    {
        k = k + 1;
    }
    if k >= n {
        proof {
            assert(nl_pos(p@) is None);
        }
        return None;
    }
    proof {
        assert(p@[k as int] == '\n');
        assert(nl_pos(p@) == Some(k as int));
    }
    if k == 0 {
        return None;
    }
    // read the digits before it
    let ghost num = p@.take(k as int);
    let mut val: u64 = 0;
    let mut i: usize = 0;
    proof {
        assert(num.take(0) =~= Seq::<char>::empty());
    }
    while i < k
        invariant
            i <= k,
            k < n,
            n == p@.len(),
            num == p@.take(k as int),
            all_digits(num.take(i as int)),
            val == digits_val(num.take(i as int)),
        decreases k - i,
    {
        let c0 = p[i];
        let d = match digit_of(c0) {
            None => {
                proof {
                    assert(num[i as int] == p@[i as int]);
                    assert(!is_digit(num[i as int]));
                    assert(!all_digits(num));
                }
                return None;
            },
            Some(d) => d,
        };
        proof {
            let t1 = num.take(i as int + 1);
            assert(t1.drop_last() =~= num.take(i as int));
            assert(t1.last() == num[i as int]);
            assert(num[i as int] == p@[i as int]);
            assert(all_digits(t1));
            assert(digits_val(t1) == val * 10 + d);
        }
        let next = match val.checked_mul(10) {
            None => {
                proof {
                    lemma_digits_prefix_overflow(num, i as int);
                }
                return None;
            },
            Some(m) => match m.checked_add(d as u64) {
                None => {
                    proof {
                        lemma_digits_prefix_overflow(num, i as int);
                    }
                    return None;
                },
                Some(s) => s,
            },
        };
        val = next;
        i = i + 1;
    }
    proof {
        assert(num.take(k as int) =~= num);
        assert(all_digits(num));
        assert(digits_val(num) == val <= u64::MAX);
    }
    // the id is everything after the newline
    let mut idv: Vec<char> = Vec::new();
    let mut j: usize = k + 1;
    proof {
        assert(idv@ =~= p@.skip(k as int + 1).take(0));
    }
    while j < n
        invariant
            k + 1 <= j <= n,
            n == p@.len(),
            idv@ == p@.skip(k as int + 1).take(j - k - 1),
        decreases n - j,
    {
        idv.push(p[j]);
        j = j + 1;
        proof {
            assert(idv@ =~= p@.skip(k as int + 1).take(j - k - 1));
        }
    }
    proof {
        assert(p@.skip(k as int + 1).take(n - k - 1) =~= p@.skip(k as int + 1));
    }
    let id = string_from_chars(&idv);
    Some((val, id))
}

/// The value of a digit string only grows as digits are appended, so a
/// prefix that already overflows `u64` means the whole string does.
proof fn lemma_digits_prefix_overflow(num: Seq<char>, i: int)
    requires
        0 <= i < num.len(),
        all_digits(num.take(i + 1)),
        digits_val(num.take(i + 1)) > u64::MAX,
    ensures
        !(all_digits(num) && digits_val(num) <= u64::MAX),
{
    if all_digits(num) {
        lemma_digits_val_monotone(num, i + 1);
    }
}

/// For a digit string, the value of any prefix is at most the value of the
/// whole.
proof fn lemma_digits_val_monotone(num: Seq<char>, j: int)
    requires
        all_digits(num),
        0 <= j <= num.len(),
    ensures
        digits_val(num.take(j)) <= digits_val(num),
    decreases num.len() - j,
{
    if j < num.len() {
        lemma_digits_val_monotone(num, j + 1);
        let t1 = num.take(j + 1);
        assert(t1.drop_last() =~= num.take(j));
        assert(t1.last() == num[j]);
        assert(is_digit(t1.last()));
        assert(char_digit(t1.last()) >= 0);
        assert(all_digits(num.take(j))) by {
            assert(forall|x: int| 0 <= x < j ==> num.take(j)[x] == num[x]);
        }
        lemma_digits_val_nonneg(num.take(j));
        assert(digits_val(t1) == digits_val(num.take(j)) * 10 + char_digit(t1.last()));
        assert(digits_val(num.take(j)) * 10 >= digits_val(num.take(j)));
    } else {
        assert(num.take(j) =~= num);
    }
}

/// The digit value of a character, when it is one.
fn digit_of(c: char) -> (r: Option<u8>)
    ensures
        match r {
            Some(d) => is_digit(c) && d as int == char_digit(c),
            None => !is_digit(c),
        },
{
    let u = c as u32;
    if 48 <= u && u <= 57 {
        Some((u - 48) as u8)
    } else {
        None
    }
}

} // verus!
