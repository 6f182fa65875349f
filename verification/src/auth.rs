//! Authentication data: the claims a verified token carries, and the
//! shape check of a bearer authorization header.
//!
//! Verifying the token's signature belongs to the identity provider's
//! client; this module holds only what can be decided from the values
//! themselves.

use vstd::prelude::*;

use crate::json::push_char;

verus! {

/// The private claims of a decoded identity token.
#[derive(Debug, Clone, PartialEq)]
pub struct PrivateClaims {
    pub event_id: String,
    pub scope: String,
    pub client_id: String,
    pub username: String,
}

/// The claims the API layer works with.
#[derive(Debug, PartialEq)]
pub struct AuthClaims {
    pub user_id: String,
    pub client_id: String,
    pub event_id: String,
    pub scope: String,
}

/// Why a credential was rejected.
#[derive(Debug, Clone, Copy, PartialEq, Eq, Structural)]
pub enum AuthError {
    /// The authorization header is not a bearer token.
    InvalidCredentials,
}

impl From<PrivateClaims> for AuthClaims {
    /// The token's username becomes the user id; the rest carries over.
    fn from(claims: PrivateClaims) -> (r: AuthClaims) {
        let PrivateClaims { event_id, scope, client_id, username } = claims;
        AuthClaims { user_id: username, client_id, event_id, scope }
    }
}

impl vstd::std_specs::convert::FromSpecImpl<PrivateClaims> for AuthClaims {
    open spec fn obeys_from_spec() -> bool {
        true
    }

    open spec fn from_spec(claims: PrivateClaims) -> AuthClaims {
        AuthClaims {
            user_id: claims.username,
            client_id: claims.client_id,
            event_id: claims.event_id,
            scope: claims.scope,
        }
    }
}

/// The seven characters every bearer authorization header starts with.
pub open spec fn bearer_prefix() -> Seq<char> {
    seq!['B', 'e', 'a', 'r', 'e', 'r', ' ']
}

/// `header` is a well-shaped bearer header carrying exactly `token`: the
/// prefix, then the token, with no further space anywhere in the token.
pub open spec fn is_bearer(header: Seq<char>, token: Seq<char>) -> bool {
    &&& header == bearer_prefix() + token
    &&& !token.contains(' ')
}

impl AuthClaims {
    /// Extracts the token from a bearer authorization header: `Ok` exactly
    /// when the header is the word `Bearer`, one space, and a token
    /// without spaces; `Err` on every other shape.
    pub fn bearer_token(header: &String) -> (r: Result<String, AuthError>)
        ensures
            match r {
                Ok(t) => is_bearer(header@, t@),
                Err(_) => forall|t: Seq<char>| !is_bearer(header@, t),
            },
    {
        let h = header.as_str();
        let n = h.unicode_len();
        if n < 7 {
            proof {
                assert forall|t: Seq<char>| !is_bearer(header@, t) by {
                    if is_bearer(header@, t) {
                        assert(header@.len() == bearer_prefix().len() + t.len());
                    }
                }
            }
            return Err(AuthError::InvalidCredentials);
        }
        let mut i: usize = 0;
        while i < 7
            invariant
                0 <= i <= 7,
                n == header@.len(),
                7 <= n,
                h@ == header@,
                forall|k: int| 0 <= k < i ==> header@[k] == bearer_prefix()[k],
            decreases 7 - i,
        {
            let c = h.get_char(i);
            let want: char = if i == 0 {
                'B'
            } else if i == 1 {
                'e'
            } else if i == 2 {
                'a'
            } else if i == 3 {
                'r'
            } else if i == 4 {
                'e'
            } else if i == 5 {
                'r'
            } else {
                ' '
            };
            if c != want {
                proof {
                    assert forall|t: Seq<char>| !is_bearer(header@, t) by {
                        if is_bearer(header@, t) {
                            assert(header@[i as int] == (bearer_prefix() + t)[i as int]);
                        }
                    }
                }
                return Err(AuthError::InvalidCredentials);
            }
            i = i + 1;
        }
        let mut token = String::new();
        let mut j: usize = 7;
        while j < n
            invariant
                7 <= j <= n,
                n == header@.len(),
                h@ == header@,
                forall|k: int| 0 <= k < 7 ==> header@[k] == bearer_prefix()[k],
                token@ == header@.subrange(7, j as int),
                forall|k: int| 7 <= k < j ==> header@[k] != ' ',
            decreases n - j,
        {
            let c = h.get_char(j);
            if c == ' ' {
                proof {
                    assert forall|t: Seq<char>| !is_bearer(header@, t) by {
                        if is_bearer(header@, t) {
                            assert(t[j - 7] == (bearer_prefix() + t)[j as int]);
                            assert(t.contains(' ')) by {
                                assert(t[j - 7] == ' ');
                            }
                        }
                    }
                }
                return Err(AuthError::InvalidCredentials);
            }
            push_char(&mut token, c);
            proof {
                assert(token@ =~= header@.subrange(7, j + 1 as int));
            }
            j = j + 1;
        }
        proof {
            assert(header@ =~= bearer_prefix() + token@);
            assert forall|k: int| 0 <= k < token@.len() implies token@[k] != ' ' by {
                assert(token@[k] == header@[k + 7]);
            }
            assert(!token@.contains(' '));
        }
        Ok(token)
    }
}

} // verus!
