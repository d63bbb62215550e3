//! Settings read from the environment: how each raw value is interpreted.

use vstd::prelude::*;
use vstd::string::StringExecFns;
use crate::text::{lowercase, parse_u16_chars, parse_u16_spec, strip_end, strip_end_str, str_eq, to_lowercase};

verus! {

/// `COOKIE_SECURE`: session cookies are secure unless the value is `false`
/// in any case; secure when unset.
pub fn cookie_secure(raw: &Option<String>) -> (r: bool)
    ensures
        r == (match raw {
            Some(v) => lowercase(v@) != "false"@,
            None => true,
        }),
{
    match raw {
        Some(v) => {
            let l = to_lowercase(v.as_str());
            !str_eq(l.as_str(), "false")
        },
        None => true,
    }
}

/// `OIDC_DISABLE_LOGIN`: on for `true` or `1`, off otherwise and when unset.
pub fn disable_login(raw: &Option<String>) -> (r: bool)
    ensures
        r == (match raw {
            Some(v) => v@ == "true"@ || v@ == "1"@,
            None => false,
        }),
{
    match raw {
        Some(v) => str_eq(v.as_str(), "true") || str_eq(v.as_str(), "1"),
        None => false,
    }
}

/// A variable that counts only when set to something non-empty
/// (`OIDC_CLIENT_ID`, `OIDC_ADMIN_CLAIM`, `OIDC_ADMIN_VALUE`,
/// `OIDC_PROVIDER_LOGO_URL`).
pub fn nonempty_var(raw: Option<String>) -> (r: Option<String>)
    ensures
        r == (match raw {
            Some(v) => if v@.len() > 0 { Some(v) } else { None },
            None => None,
        }),
{
    match raw {
        Some(v) => if v.as_str().is_empty() {
            None
        } else {
            Some(v)
        },
        None => None,
    }
}

/// `BASE_URL`: set when non-empty, with trailing slashes removed.
pub fn base_url(raw: &Option<String>) -> (r: Option<String>)
    ensures
        match raw {
            Some(v) => if v@.len() > 0 { r matches Some(b) && b@ == strip_end(v@, '/') } else { r is None },
            None => r is None,
        },
{
    match raw {
        Some(v) => if v.as_str().is_empty() {
            None
        } else {
            Some(strip_end_str(v.as_str(), '/'))
        },
        None => None,
    }
}

/// `OIDC_ISSUER_URL`: empty when unset, trailing slashes removed.
pub fn issuer_url(raw: &Option<String>) -> (r: String)
    ensures
        r@ == (match raw {
            Some(v) => strip_end(v@, '/'),
            None => Seq::empty(),
        }),
{
    match raw {
        Some(v) => strip_end_str(v.as_str(), '/'),
        None => String::new(),
    }
}

/// `PORT`: 9080 when unset; `None` when the value is not a valid port number.
pub fn port(raw: &Option<String>) -> (r: Option<u16>)
    ensures
        r == (match raw {
            Some(v) => parse_u16_spec(v@),
            None => Some(9080u16),
        }),
{
    match raw {
        Some(v) => {
            let c = crate::text::chars_of(v.as_str());
            parse_u16_chars(&c)
        },
        None => Some(9080),
    }
}

} // verus!
