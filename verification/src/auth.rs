//! Bearer authentication: reading the presented token from an `Authorization` header value,
//! and comparing tokens in constant time (through `subtle`), for the HTTP transport's API keys
//! and the dashboard's admin token.

use vstd::prelude::*;
use subtle::ConstantTimeEq;
use crate::text::{ascii_lower, eq_ignore_ascii_case, chars_of, string_of_range, lower_ascii};

verus! {

/// `subtle`'s constant-time equality of two byte slices (`ConstantTimeEq for [u8]`): true
/// exactly when both have the same length and the same bytes; the time taken depends on the
/// lengths only.
#[verifier::external_body]
fn ct_eq_bytes(a: &[u8], b: &[u8]) -> (r: bool)
    ensures
        r == (a@ == b@),
{
    a.ct_eq(b).into()
}

/// The index of the first `c` in `s`, if any.
pub open spec fn first_index_of(s: Seq<char>, c: char) -> Option<int> {
    if exists|i: int| 0 <= i < s.len() && s[i] == c {
        Some(choose|i: int| 0 <= i < s.len() && s[i] == c && forall|j: int| 0 <= j < i ==> s[j] != c)
    } else {
        None
    }
}

/// The token a header value presents: `<scheme> <token>` split at the first space, where the
/// scheme is `bearer` in any ASCII case and the token is not empty.
pub open spec fn bearer_token(raw: Seq<char>) -> Option<Seq<char>> {
    match first_index_of(raw, ' ') {
        Some(i) => if eq_ignore_ascii_case(raw.take(i), "bearer"@) && i + 1 < raw.len() {
            Some(raw.skip(i + 1))
        } else {
            None
        },
        None => None,
    }
}

/// The bearer token of an `Authorization` header value (absent header: no token).
pub fn presented_bearer(raw: Option<&str>) -> (r: Option<String>)
    ensures
        match raw {
            Some(v) => match bearer_token(v@) {
                Some(t) => r is Some && r->0@ == t,
                None => r is None,
            },
            None => r is None,
        },
{
    let v = match raw {
        Some(v) => v,
        None => return None,
    };
    let cs = chars_of(v);
    let mut i: usize = 0;
    while i < cs.len() && cs[i] != ' '
        invariant
            i <= cs@.len(),
            cs@ == v@,
            forall|j: int| 0 <= j < i ==> cs@[j] != ' ',
        decreases cs@.len() - i,
    {
        i = i + 1;
    }
    if i == cs.len() {
        return None;
    }
    proof {
        assert(exists|k: int| 0 <= k < v@.len() && v@[k] == ' ');
        let w = choose|k: int| 0 <= k < v@.len() && v@[k] == ' ' && forall|j: int| 0 <= j < k ==> v@[j] != ' ';
        assert(i as int == w) by {
            if w < i {
            } else if w > i {
            }
        }
        lemma_bearer_is_lowercase();
    }
    // The scheme must be `bearer` in any ASCII case.
    if i != 6 {
        return None;
    }
    let expected = chars_of("bearer");
    proof {
        lemma_bearer_is_lowercase();
    }
    let mut k: usize = 0;
    while k < 6
        invariant
            k <= 6,
            i == 6,
            cs@ == v@,
            i < cs@.len(),
            first_index_of(v@, ' ') == Some(i as int),
            raw == Some(v),
            expected@ == "bearer"@,
            "bearer"@.len() == 6,
            forall|j: int| 0 <= j < 6 ==> ascii_lower(#[trigger] "bearer"@[j]) == "bearer"@[j],
            forall|j: int| 0 <= j < k ==> ascii_lower(#[trigger] cs@[j]) == ascii_lower("bearer"@[j]),
        decreases 6 - k,
    {
        if lower_ascii(cs[k]) != expected[k] {
            proof {
                assert(!eq_ignore_ascii_case(v@.take(6), "bearer"@)) by {
                    assert(v@.take(6)[k as int] == cs@[k as int]);
                    assert(ascii_lower("bearer"@[k as int]) == "bearer"@[k as int]);
                }
            }
            return None;
        }
        proof {
            assert(ascii_lower("bearer"@[k as int]) == "bearer"@[k as int]);
        }
        k = k + 1;
    }
    proof {
        assert(eq_ignore_ascii_case(v@.take(6), "bearer"@)) by {
            assert forall|j: int| 0 <= j < 6 implies ascii_lower(#[trigger] v@.take(6)[j]) == ascii_lower(
                "bearer"@[j],
            ) by {
                assert(v@.take(6)[j] == cs@[j]);
            }
        }
    }
    if i + 1 >= cs.len() {
        return None;
    }
    let t = string_of_range(&cs, i + 1, cs.len());
    proof {
        assert(t@ =~= v@.skip(i + 1));
    }
    Some(t)
}

proof fn lemma_bearer_is_lowercase()
    ensures
        "bearer"@.len() == 6,
        forall|j: int| 0 <= j < 6 ==> ascii_lower(#[trigger] "bearer"@[j]) == "bearer"@[j],
{
    reveal_strlit("bearer");
    assert forall|j: int| 0 <= j < 6 implies ascii_lower(#[trigger] "bearer"@[j]) == "bearer"@[j] by {
        if j == 0 {
            assert("bearer"@[j] == 'b');
        } else if j == 1 {
            assert("bearer"@[j] == 'e');
        } else if j == 2 {
            assert("bearer"@[j] == 'a');
        } else if j == 3 {
            assert("bearer"@[j] == 'r');
        } else if j == 4 {
            assert("bearer"@[j] == 'e');
        } else {
            assert("bearer"@[j] == 'r');
        }
    }
}

/// The UTF-8 bytes of a text.
pub open spec fn utf8_of(s: Seq<char>) -> Seq<u8> {
    vstd::utf8::encode_utf8(s)
}

/// Does `presented` equal any of `keys`. Each comparison is constant-time for equal lengths
/// and every key is compared (no early exit across the key set).
pub fn key_authorized(keys: &[String], presented: &[u8]) -> (r: bool)
    ensures
        r == exists|k: int| 0 <= k < keys@.len() && utf8_of((#[trigger] keys@[k])@) == presented@,
{
    let mut matched: u8 = 0;
    let mut i: usize = 0;
    while i < keys.len()
        invariant
            i <= keys@.len(),
            matched <= 1,
            (matched == 1) == exists|k: int| 0 <= k < i && utf8_of((#[trigger] keys@[k])@) == presented@,
        decreases keys@.len() - i,
    {
        let kb = keys[i].as_str().as_bytes();
        let eq: u8 = if ct_eq_bytes(kb, presented) {
            1
        } else {
            0
        };
        let m = matched;
        assert((m | eq) == (if m == 1 || eq == 1 { 1u8 } else { 0u8 })) by (bit_vector)
            requires
                m <= 1,
                eq <= 1,
        ;
        matched = m | eq;
        proof {
            assert(kb@ == utf8_of(keys@[i as int]@));
            if eq == 1 {
                assert(utf8_of(keys@[i as int]@) == presented@);
            }
        }
        i = i + 1;
    }
    matched == 1
}

/// The admin API's authorization decision.
#[derive(Debug, PartialEq, Eq, Clone, Copy, Structural)]
pub enum AdminAuth {
    /// No admin token is configured: the admin API is absent.
    NotConfigured,
    /// A token is configured and the request does not present it.
    Denied,
    /// The request presents the configured token.
    Allowed,
}

/// The admin decision: absent without a configured token, allowed exactly when the presented
/// token equals it (compared in constant time), denied otherwise.
pub fn authorize(configured: Option<&str>, presented: Option<&str>) -> (r: AdminAuth)
    ensures
        r == match configured {
            None => AdminAuth::NotConfigured,
            Some(e) => match presented {
                Some(t) => if e@ == t@ {
                    AdminAuth::Allowed
                } else {
                    AdminAuth::Denied
                },
                None => AdminAuth::Denied,
            },
        },
{
    match configured {
        None => AdminAuth::NotConfigured,
        Some(expected) => match presented {
            Some(tok) => {
                let eq = ct_eq_bytes(expected.as_bytes(), tok.as_bytes());
                proof {
                    vstd::utf8::encode_utf8_decode_utf8(expected@);
                    vstd::utf8::encode_utf8_decode_utf8(tok@);
                }
                if eq {
                    AdminAuth::Allowed
                } else {
                    AdminAuth::Denied
                }
            },
            None => AdminAuth::Denied,
        },
    }
}

} // verus!
