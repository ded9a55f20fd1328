//! Bearer-token checks for the ingest and query routes.

use vstd::prelude::*;
use vstd::string::*;
use crate::text::eq_str;

verus! {

/// The token of an `Authorization` header value of the form `Bearer <token>`.
pub open spec fn bearer_of(header: Seq<char>) -> Option<Seq<char>> {
    if header.len() >= 7 && header.take(7) == "Bearer "@ {
        Some(header.skip(7))
    } else {
        None
    }
}

/// Whether a request passes the token check: no token (or an empty one) is
/// configured, or the request's `Authorization` header carries exactly `Bearer <token>`.
pub open spec fn authorized(expected: Option<Seq<char>>, header: Option<Seq<char>>) -> bool {
    match expected {
        None => true,
        Some(e) => e.len() == 0 || match header {
            Some(h) => bearer_of(h) == Some(e),
            None => false,
        },
    }
}

/// The token of an `Authorization` header value (`None` when the header is
/// missing, unreadable or not of the form `Bearer <token>`).
pub fn bearer_token(header: Option<&str>) -> (t: Option<String>)
    ensures
        crate::protocol::opt_view(t) == match header {
            Some(h) => bearer_of(h@),
            None => None,
        },
{
    match header {
        None => None,
        Some(h) => {
            let n = h.unicode_len();
            if n < 7 {
                return None;
            }
            let head: String = h.substring_char(0, 7).to_owned();
            if eq_str(&head, "Bearer ") {
                proof {
                    assert(h@.subrange(0, 7) =~= h@.take(7));
                    assert(h@.subrange(7, n as int) =~= h@.skip(7));
                }
                Some(h.substring_char(7, n).to_owned())
            } else {
                proof {
                    assert(h@.subrange(0, 7) =~= h@.take(7));
                }
                None
            }
        },
    }
}

/// Check a request's `Authorization` header value against the configured token.
pub fn authorize(expected: &Option<String>, header: Option<&str>) -> (ok: bool)
    ensures
        ok == authorized(
            match expected {
                Some(e) => Some(e@),
                None => None,
            },
            match header {
                Some(h) => Some(h@),
                None => None,
            },
        ),
{
    match expected {
        None => true,
        Some(e) => {
            if e.unicode_len() == 0 {
                return true;
            }
            match bearer_token(header) {
                Some(tok) => tok == *e,
                None => false,
            }
        },
    }
}

/// Law: a configured token admits exactly the header `Bearer <token>`; without
/// a header a request is refused unless no token (or an empty one) is configured.
pub proof fn law_bearer_admits_token(token: Seq<char>, header: Seq<char>)
    ensures
        authorized(Some(token), Some("Bearer "@ + token)),
        token.len() > 0 ==> !authorized(Some(token), None),
        authorized(None, Some(header)),
        token.len() > 0 ==> (authorized(Some(token), Some(header)) <==> header == "Bearer "@ + token),
{
    reveal_strlit("Bearer ");
    let h = "Bearer "@ + token;
    assert(h.take(7) =~= "Bearer "@);
    assert(h.skip(7) =~= token);
    if token.len() > 0 && authorized(Some(token), Some(header)) {
        assert(header =~= header.take(7) + header.skip(7));
    }
}

} // verus!
