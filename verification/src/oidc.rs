//! Sign-in through an OpenID Connect provider: what the provider's answers
//! mean for the account, and the URLs sent to the provider.

use vstd::prelude::*;
use crate::text::{before_first, before_first_str, concat2, decimal, decimal_string, str_eq};

verus! {

/// Endpoints of the provider, from its discovery document.
pub struct OidcDiscovery {
    pub authorization_endpoint: String,
    pub token_endpoint: String,
    pub userinfo_endpoint: String,
    /// Present on providers that support RP-initiated logout.
    pub end_session_endpoint: Option<String>,
}

/// The provider's answer to the code exchange.
pub struct TokenResponse {
    pub access_token: String,
    pub id_token: Option<String>,
}

/// A provider-specific claim, as far as the admin check reads it.
pub enum ClaimValue {
    Text(String),
    /// An array; each element is `Some` when it is a string.
    List(Vec<Option<String>>),
    Flag(bool),
    /// Numbers, objects and null.
    Other,
}

/// The provider's description of the signed-in user.
pub struct UserInfo {
    pub sub: String,
    pub email: Option<String>,
    pub email_verified: Option<bool>,
    pub name: Option<String>,
    pub preferred_username: Option<String>,
    /// The other claims, each name once.
    pub extra: Vec<(String, ClaimValue)>,
}

/// OIDC sign-in is on when a client id is configured.
pub fn is_enabled(client_id: &Option<String>) -> (r: bool)
    ensures
        r == client_id is Some,
{
    client_id.is_some()
}

/// An optional string that is present and not empty.
pub open spec fn nonempty(o: Option<String>) -> Option<Seq<char>> {
    match o {
        Some(s) => if s@.len() > 0 { Some(s@) } else { None },
        None => None,
    }
}

/// The name shown for a new account: the preferred username, else the part
/// of the email before `@`, else the subject.
pub open spec fn display_name_spec(u: &UserInfo) -> Seq<char> {
    match nonempty(u.preferred_username) {
        Some(p) => p,
        None => match u.email {
            Some(e) => if before_first(e@, '@').len() > 0 { before_first(e@, '@') } else { u.sub@ },
            None => u.sub@,
        },
    }
}

/// The first claim named `name` among `extra`.
pub open spec fn claim_named(extra: Seq<(String, ClaimValue)>, name: Seq<char>) -> Option<ClaimValue>
    decreases extra.len(),
{
    if extra.len() == 0 {
        None
    } else if extra[0].0@ == name {
        Some(extra[0].1)
    } else {
        claim_named(extra.drop_first(), name)
    }
}

/// An optional string that is `want`.
pub open spec fn is_string(o: Option<String>, want: Seq<char>) -> bool {
    o matches Some(s) && s@ == want
}

/// A claim value grants `want`: the same string, an array holding it, or a
/// boolean written as `true`/`false`.
pub open spec fn claim_grants(v: Option<ClaimValue>, want: Seq<char>) -> bool {
    match v {
        Some(ClaimValue::Text(s)) => s@ == want,
        Some(ClaimValue::List(a)) => exists|i: int| 0 <= i < a@.len() && is_string(#[trigger] a@[i], want),
        Some(ClaimValue::Flag(b)) => want == (if b { "true"@ } else { "false"@ }),
        _ => false,
    }
}

/// A standard claim grants `want`.
pub open spec fn standard_claim_grants(u: &UserInfo, claim: Seq<char>, want: Seq<char>) -> bool {
    if claim == "sub"@ {
        u.sub@ == want
    } else if claim == "email"@ {
        u.email matches Some(e) && e@ == want
    } else if claim == "name"@ {
        u.name matches Some(n) && n@ == want
    } else if claim == "preferred_username"@ {
        u.preferred_username matches Some(p) && p@ == want
    } else {
        false
    }
}

/// Whether the configured claim makes the user an administrator.
pub open spec fn is_admin_spec(u: &UserInfo, claim: Option<String>, want: Option<String>) -> bool {
    match (claim, want) {
        (Some(c), Some(w)) => standard_claim_grants(u, c@, w@) || claim_grants(claim_named(u.extra@, c@), w@),
        _ => false,
    }
}

/// A standard claim named as the admin claim decides by the user's own field.
/// When `sub`, `email`, `name` or `preferred_username` holds exactly the
/// configured value, the user is an administrator; and when no other claim
/// carries that name, the user is one only then.
pub proof fn law_standard_admin_claims(u: &UserInfo, claim: String, want: String)
    ensures
        claim@ == "sub"@ && u.sub@ == want@ ==> is_admin_spec(u, Some(claim), Some(want)),
        claim@ == "email"@ && (u.email matches Some(e) && e@ == want@) ==> is_admin_spec(u, Some(claim), Some(want)),
        claim@ == "name"@ && (u.name matches Some(n) && n@ == want@) ==> is_admin_spec(u, Some(claim), Some(want)),
        claim@ == "preferred_username"@ && (u.preferred_username matches Some(p) && p@ == want@) ==> is_admin_spec(
            u,
            Some(claim),
            Some(want),
        ),
        claim_named(u.extra@, claim@) is None ==> {
            &&& claim@ == "sub"@ ==> (is_admin_spec(u, Some(claim), Some(want)) <==> u.sub@ == want@)
            &&& claim@ == "email"@ ==> (is_admin_spec(u, Some(claim), Some(want)) <==> (u.email matches Some(e)
                && e@ == want@))
            &&& claim@ == "name"@ ==> (is_admin_spec(u, Some(claim), Some(want)) <==> (u.name matches Some(n)
                && n@ == want@))
            &&& claim@ == "preferred_username"@ ==> (is_admin_spec(u, Some(claim), Some(want)) <==> (
            u.preferred_username matches Some(p) && p@ == want@))
        },
{
    reveal_strlit("sub");
    reveal_strlit("email");
    reveal_strlit("name");
    reveal_strlit("preferred_username");
    assert("sub"@.len() == 3 && "email"@.len() == 5 && "name"@.len() == 4 && "preferred_username"@.len() == 18);
    assert("email"@ != "sub"@);
    assert("name"@ != "sub"@ && "name"@ != "email"@);
    assert("preferred_username"@ != "sub"@ && "preferred_username"@ != "email"@ && "preferred_username"@
        != "name"@);
}

fn opt_eq(o: &Option<String>, want: &str) -> (r: bool)
    ensures
        r == is_string(*o, want@),
{
    match o {
        Some(s) => str_eq(s.as_str(), want),
        None => false,
    }
}

impl UserInfo {
    /// The name shown for a new account.
    pub fn preferred_display_name(&self) -> (r: String)
        ensures
            r@ == display_name_spec(self),
    {
        if let Some(p) = &self.preferred_username {
            if !p.as_str().is_empty() {
                return p.clone();
            }
        }
        if let Some(e) = &self.email {
            let local = before_first_str(e.as_str(), '@');
            if !local.as_str().is_empty() {
                return local;
            }
        }
        self.sub.clone()
    }

    /// Whether the claim `admin_claim` holds `admin_value`; false when either
    /// is not configured.
    pub fn check_admin(&self, admin_claim: &Option<String>, admin_value: &Option<String>) -> (r: bool)
        ensures
            r == is_admin_spec(self, *admin_claim, *admin_value),
            admin_claim is None || admin_value is None ==> !r,
            (admin_claim matches Some(c) && c@ == "sub"@) && (admin_value matches Some(w) && self.sub@ == w@) ==> r,
            (admin_claim matches Some(c) && c@ == "email"@) && (admin_value matches Some(w) && (
            self.email matches Some(e) && e@ == w@)) ==> r,
            (admin_claim matches Some(c) && c@ == "name"@) && (admin_value matches Some(w) && (
            self.name matches Some(n) && n@ == w@)) ==> r,
            (admin_claim matches Some(c) && c@ == "preferred_username"@) && (admin_value matches Some(w) && (
            self.preferred_username matches Some(p) && p@ == w@)) ==> r,
    {
        proof {
            if admin_claim is Some && admin_value is Some {
                law_standard_admin_claims(self, admin_claim.unwrap(), admin_value.unwrap());
            }
        }
        let claim = match admin_claim {
            Some(c) => c,
            None => return false,
        };
        let want = match admin_value {
            Some(w) => w,
            None => return false,
        };
        let c = claim.as_str();
        let w = want.as_str();
        let std_match = if str_eq(c, "sub") {
            str_eq(self.sub.as_str(), w)
        } else if str_eq(c, "email") {
            opt_eq(&self.email, w)
        } else if str_eq(c, "name") {
            opt_eq(&self.name, w)
        } else if str_eq(c, "preferred_username") {
            opt_eq(&self.preferred_username, w)
        } else {
            false
        };
        if std_match {
            return true;
        }
        proof {
            assert(self.extra@.skip(0) =~= self.extra@);
        }
        let mut i: usize = 0;
        while i < self.extra.len()
            invariant
                i <= self.extra@.len(),
                claim_named(self.extra@, c@) == claim_named(self.extra@.skip(i as int), c@),
                is_admin_spec(self, *admin_claim, *admin_value) == claim_grants(claim_named(self.extra@, c@), w@),
                (admin_claim matches Some(cc) && cc@ == "email"@) && (admin_value matches Some(ww) && (
                self.email matches Some(e) && e@ == ww@)) ==> is_admin_spec(self, *admin_claim, *admin_value),
                (admin_claim matches Some(cc) && cc@ == "name"@) && (admin_value matches Some(ww) && (
                self.name matches Some(n) && n@ == ww@)) ==> is_admin_spec(self, *admin_claim, *admin_value),
                (admin_claim matches Some(cc) && cc@ == "sub"@) && (admin_value matches Some(ww)
                && self.sub@ == ww@) ==> is_admin_spec(self, *admin_claim, *admin_value),
                (admin_claim matches Some(cc) && cc@ == "preferred_username"@) && (admin_value matches Some(ww) && (
                self.preferred_username matches Some(p) && p@ == ww@)) ==> is_admin_spec(self, *admin_claim, *admin_value),
            decreases self.extra@.len() - i,
        {
            proof {
                let rest = self.extra@.skip(i as int);
                assert(rest.drop_first() =~= self.extra@.skip(i + 1));
                assert(rest[0] == self.extra@[i as int]);
            }
            if str_eq(self.extra[i].0.as_str(), c) {
                return match &self.extra[i].1 {
                    ClaimValue::Text(s) => str_eq(s.as_str(), w),
                    ClaimValue::List(a) => {
                        let mut k: usize = 0;
                        let mut found = false;
                        while k < a.len()
                            invariant
                                k <= a@.len(),
                                found == exists|j: int| 0 <= j < k && is_string(#[trigger] a@[j], w@),
                            decreases a@.len() - k,
                        {
                            if opt_eq(&a[k], w) {
                                found = true;
                            }
                            k += 1;
                        }
                        found
                    },
                    ClaimValue::Flag(b) => if *b {
                        str_eq(w, "true")
                    } else {
                        str_eq(w, "false")
                    },
                    ClaimValue::Other => false,
                };
            }
            i += 1;
        }
        proof {
            assert(self.extra@.skip(self.extra@.len() as int) =~= Seq::<(String, ClaimValue)>::empty());
        }
        false
    }
}

/// Why an OIDC sign-in is turned back.
#[derive(PartialEq, Eq, Structural, Debug, Clone, Copy)]
pub enum CallbackError {
    /// OIDC is not configured; answered with 404 rather than a redirect.
    NotConfigured,
    ProviderError,
    StateMismatch,
    MissingCode,
    ConfigError,
    TokenExchangeFailed,
    UserinfoFailed,
    EmailNotVerified,
    NoEmail,
    CreateUserFailed,
    SessionFailed,
}

/// The `oidc_error` code that the sign-in page receives.
pub open spec fn callback_code_of(e: CallbackError) -> Seq<char> {
    match e {
        CallbackError::NotConfigured => "not_configured"@,
        CallbackError::ProviderError => "provider_error"@,
        CallbackError::StateMismatch => "state_mismatch"@,
        CallbackError::MissingCode => "missing_code"@,
        CallbackError::ConfigError => "config_error"@,
        CallbackError::TokenExchangeFailed => "token_exchange_failed"@,
        CallbackError::UserinfoFailed => "userinfo_failed"@,
        CallbackError::EmailNotVerified => "email_not_verified"@,
        CallbackError::NoEmail => "no_email"@,
        CallbackError::CreateUserFailed => "create_user_failed"@,
        CallbackError::SessionFailed => "session_failed"@,
    }
}

impl CallbackError {
    /// The `oidc_error` code of the redirect.
    pub fn code(&self) -> (c: &'static str)
        ensures
            c@ == callback_code_of(*self),
    {
        match self {
            CallbackError::NotConfigured => "not_configured",
            CallbackError::ProviderError => "provider_error",
            CallbackError::StateMismatch => "state_mismatch",
            CallbackError::MissingCode => "missing_code",
            CallbackError::ConfigError => "config_error",
            CallbackError::TokenExchangeFailed => "token_exchange_failed",
            CallbackError::UserinfoFailed => "userinfo_failed",
            CallbackError::EmailNotVerified => "email_not_verified",
            CallbackError::NoEmail => "no_email",
            CallbackError::CreateUserFailed => "create_user_failed",
            CallbackError::SessionFailed => "session_failed",
        }
    }
}

/// Query of the provider's redirect back to the dashboard.
pub struct CallbackQuery {
    pub code: Option<String>,
    pub state: Option<String>,
    pub error: Option<String>,
    pub error_description: Option<String>,
}

/// An optional string, the empty one when absent.
pub open spec fn or_empty(o: Option<String>) -> Seq<char> {
    match o {
        Some(s) => s@,
        None => Seq::empty(),
    }
}

/// The first checks of the provider's redirect: OIDC is on, the provider
/// reported no error, the `state` matches the cookie and both are non-empty,
/// and a non-empty code came back, which is returned.
pub fn callback_code(enabled: bool, query: &CallbackQuery, cookie_state: &Option<String>) -> (r: Result<
    String,
    CallbackError,
>)
    ensures
        !enabled ==> r == Err::<String, CallbackError>(CallbackError::NotConfigured),
        enabled && query.error is Some ==> r == Err::<String, CallbackError>(CallbackError::ProviderError),
        enabled && query.error is None && (or_empty(query.state).len() == 0 || or_empty(*cookie_state).len() == 0
            || or_empty(query.state) != or_empty(*cookie_state)) ==> r == Err::<String, CallbackError>(
            CallbackError::StateMismatch,
        ),
        enabled && query.error is None && or_empty(query.state).len() > 0 && or_empty(query.state) == or_empty(
            *cookie_state,
        ) ==> match nonempty(query.code) {
            Some(c) => r matches Ok(s) && s@ == c,
            None => r == Err::<String, CallbackError>(CallbackError::MissingCode),
        },
{
    if !enabled {
        return Err(CallbackError::NotConfigured);
    }
    if query.error.is_some() {
        return Err(CallbackError::ProviderError);
    }
    let got = match &query.state {
        Some(s) => s.as_str(),
        None => "",
    };
    let expected = match cookie_state {
        Some(s) => s.as_str(),
        None => "",
    };
    proof {
        reveal_strlit("");
    }
    if got.is_empty() || expected.is_empty() || !str_eq(got, expected) {
        return Err(CallbackError::StateMismatch);
    }
    match &query.code {
        Some(c) => if !c.as_str().is_empty() {
            Ok(c.clone())
        } else {
            Err(CallbackError::MissingCode)
        },
        None => Err(CallbackError::MissingCode),
    }
}

/// The email of the signed-in user: refused when the provider says it is
/// unverified (an absent claim counts as verified) or when there is none.
pub fn userinfo_email(u: &UserInfo) -> (r: Result<String, CallbackError>)
    ensures
        u.email_verified == Some(false) ==> r == Err::<String, CallbackError>(CallbackError::EmailNotVerified),
        u.email_verified != Some(false) ==> match nonempty(u.email) {
            Some(e) => r matches Ok(s) && s@ == e,
            None => r == Err::<String, CallbackError>(CallbackError::NoEmail),
        },
{
    if let Some(false) = u.email_verified {
        return Err(CallbackError::EmailNotVerified);
    }
    match &u.email {
        Some(e) => if !e.as_str().is_empty() {
            Ok(e.clone())
        } else {
            Err(CallbackError::NoEmail)
        },
        None => Err(CallbackError::NoEmail),
    }
}

/// Whether the signed-in user is an administrator: the claim decides when one
/// is configured; otherwise an existing account keeps its role, and a new
/// account is an administrator only when it is the first OIDC account.
pub fn sign_in_admin(claim_configured: bool, claim_grants: bool, existing_admin: Option<bool>, first_user: bool) -> (r: bool)
    ensures
        r == (if claim_configured {
            claim_grants
        } else {
            match existing_admin {
                Some(a) => a,
                None => first_user,
            }
        }),
{
    if claim_configured {
        claim_grants
    } else {
        match existing_admin {
            Some(a) => a,
            None => first_user,
        }
    }
}

/// An existing account's role is rewritten only when a claim is configured
/// and disagrees with it.
pub fn role_needs_update(claim_configured: bool, stored_admin: bool, is_admin: bool) -> (r: bool)
    ensures
        r == (claim_configured && stored_admin != is_admin),
{
    claim_configured && stored_admin != is_admin
}

/// The password hash recorded for an account created through the provider.
pub fn oidc_password_hash(sub: &str) -> (r: String)
    ensures
        r@ == "oidc:"@ + sub@,
{
    concat2("oidc:", sub)
}

/// Whether a character may stay in a derived username.
pub uninterp spec fn alphanumeric(c: char) -> bool;

/// `char::is_alphanumeric`: alphabetic or numeric in Unicode.
#[verifier::external_body]
fn is_alphanumeric(c: char) -> (r: bool)
    ensures
        r == alphanumeric(c),
{
    c.is_alphanumeric()
}

/// A character of a derived username: itself when alphanumeric or one of
/// `.`, `_`, `-`, otherwise `_`.
pub open spec fn username_char(c: char) -> char {
    if alphanumeric(c) || c == '.' || c == '_' || c == '-' { c } else { '_' }
}

/// The base of a derived username: the display name with other characters
/// replaced by `_`, or `oidc_user` when that is empty.
pub open spec fn username_base_spec(name: Seq<char>) -> Seq<char> {
    if name.len() == 0 { "oidc_user"@ } else { name.map_values(|c: char| username_char(c)) }
}

/// The base of the username derived for a new OIDC account.
pub fn username_base(name: &str) -> (r: String)
    ensures
        r@ == username_base_spec(name@),
{
    let v = crate::text::chars_of(name);
    if v.len() == 0 {
        return String::from_str("oidc_user");
    }
    let mut out: Vec<char> = Vec::new();
    let mut i: usize = 0;
    while i < v.len()
        invariant
            i <= v@.len(),
            v@ == name@,
            out@ == v@.take(i as int).map_values(|c: char| username_char(c)),
        decreases v@.len() - i,
    {
        let c = v[i];
        let k = if is_alphanumeric(c) || c == '.' || c == '_' || c == '-' { c } else { '_' };
        out.push(k);
        i += 1;
        assert(out@ =~= v@.take(i as int).map_values(|c: char| username_char(c)));
    }
    assert(v@.take(v@.len() as int) =~= v@);
    crate::text::string_from_chars(&out)
}

/// The usernames tried for a new OIDC account, in order: the base, then the
/// base followed by 2, 3, … 99.
pub open spec fn username_candidate(base: Seq<char>, i: int) -> Seq<char> {
    if i == 0 { base } else { base + decimal((i + 1) as nat) }
}

/// The usernames tried for a new OIDC account, in order.
pub fn username_candidates(base: &str) -> (r: Vec<String>)
    ensures
        r@.len() == 99,
        forall|i: int| 0 <= i < 99 ==> (#[trigger] r@[i])@ == username_candidate(base@, i),
{
    let mut r: Vec<String> = Vec::new();
    r.push(String::from_str(base));
    let mut n: u64 = 2;
    while n <= 99
        invariant
            2 <= n <= 100,
            r@.len() == n - 1,
            forall|i: int| 0 <= i < n - 1 ==> (#[trigger] r@[i])@ == username_candidate(base@, i),
        decreases 100 - n,
    {
        let digits = decimal_string(n);
        r.push(concat2(base, digits.as_str()));
        n += 1;
    }
    r
}

/// The username when every candidate is taken: the base, `_` and the first
/// eight characters of a fresh session token.
pub fn fallback_username(base: &str, token: &str) -> (r: String)
    requires
        token@.len() >= 8,
    ensures
        r@ == base@ + seq!['_'] + token@.take(8),
{
    let t = crate::text::chars_of(token);
    let mut out = crate::text::chars_of(base);
    out.push('_');
    let mut i: usize = 0;
    while i < 8
        invariant
            i <= 8,
            t@ == token@,
            t@.len() >= 8,
            out@ == base@ + seq!['_'] + token@.take(i as int),
        decreases 8 - i,
    {
        out.push(t[i]);
        i += 1;
        assert(out@ =~= base@ + seq!['_'] + token@.take(i as int));
    }
    crate::text::string_from_chars(&out)
}

/// Where the provider sends the user back: below `BASE_URL` when set, else
/// below the scheme and host of the request.
pub open spec fn redirect_uri_spec(base_url: Option<String>, scheme: Seq<char>, host: Seq<char>) -> Seq<char> {
    match base_url {
        Some(b) => b@ + "/api/auth/oidc/callback"@,
        None => scheme + "://"@ + host + "/api/auth/oidc/callback"@,
    }
}

/// The callback URL registered with the provider.
pub fn redirect_uri(base_url: &Option<String>, scheme: &str, host: &str) -> (r: String)
    ensures
        r@ == redirect_uri_spec(*base_url, scheme@, host@),
{
    match base_url {
        Some(b) => concat2(b.as_str(), "/api/auth/oidc/callback"),
        None => {
            let s = concat2(scheme, "://");
            let s = concat2(s.as_str(), host);
            concat2(s.as_str(), "/api/auth/oidc/callback")
        },
    }
}

/// The dashboard's own address: `BASE_URL` when set, else the request's
/// scheme and host.
pub fn public_base(base_url: &Option<String>, scheme: &str, host: &str) -> (r: String)
    ensures
        r@ == (match base_url {
            Some(b) => b@,
            None => scheme@ + "://"@ + host@,
        }),
{
    match base_url {
        Some(b) => b.clone(),
        None => {
            let s = concat2(scheme, "://");
            concat2(s.as_str(), host)
        },
    }
}

/// Whether a byte is left as it is by percent-encoding: ASCII letters,
/// digits, `-`, `.`, `_` and `~`.
pub open spec fn url_safe(b: u8) -> bool {
    (48 <= b <= 57) || (65 <= b <= 90) || (97 <= b <= 122) || b == 45 || b == 46 || b == 95 || b == 126
}

/// An upper-case hexadecimal digit.
pub open spec fn hex_upper(d: u8) -> char {
    if d < 10 { (48 + d) as char } else { (55 + d) as char }
}

/// Percent-encoding of bytes, each unsafe byte as `%` and two upper-case hex
/// digits.
pub open spec fn percent_encoded(bytes: Seq<u8>) -> Seq<char>
    decreases bytes.len(),
{
    if bytes.len() == 0 {
        Seq::empty()
    } else {
        let b = bytes.last();
        let tail = if url_safe(b) {
            seq![b as char]
        } else {
            seq!['%', hex_upper(b / 16), hex_upper(b % 16)]
        };
        percent_encoded(bytes.drop_last()) + tail
    }
}

/// `urlencoding::encode`: percent-encodes every UTF-8 byte of `s` except
/// ASCII alphanumerics and `-`, `_`, `.`, `~`, with upper-case hex digits.
#[verifier::external_body]
fn url_encode(s: &str) -> (r: String)
    ensures
        r@ == percent_encoded(vstd::utf8::encode_utf8(s@)),
{
    urlencoding::encode(s).into_owned()
}

/// The percent-encoding of a string's UTF-8 bytes.
pub open spec fn url_encoded(s: Seq<char>) -> Seq<char> {
    percent_encoded(vstd::utf8::encode_utf8(s))
}

/// The provider's authorization URL for a sign-in with `state`.
pub fn authorize_url(endpoint: &str, client_id: &str, redirect: &str, scope: &str, state: &str) -> (r: String)
    ensures
        r@ == endpoint@ + "?response_type=code&client_id="@ + url_encoded(client_id@) + "&redirect_uri="@
            + url_encoded(redirect@) + "&scope="@ + url_encoded(scope@) + "&state="@ + state@,
{
    let s = concat2(endpoint, "?response_type=code&client_id=");
    let s = concat2(s.as_str(), url_encode(client_id).as_str());
    let s = concat2(s.as_str(), "&redirect_uri=");
    let s = concat2(s.as_str(), url_encode(redirect).as_str());
    let s = concat2(s.as_str(), "&scope=");
    let s = concat2(s.as_str(), url_encode(scope).as_str());
    let s = concat2(s.as_str(), "&state=");
    concat2(s.as_str(), state)
}

/// The provider's logout URL, with the id token as hint when there is one,
/// returning to `base`.
pub fn logout_url(end_session_endpoint: &str, id_token: &Option<String>, base: &str) -> (r: String)
    ensures
        r@ == (match id_token {
            Some(t) => end_session_endpoint@ + "?id_token_hint="@ + url_encoded(t@) + "&post_logout_redirect_uri="@
                + url_encoded(base@),
            None => end_session_endpoint@ + "?post_logout_redirect_uri="@ + url_encoded(base@),
        }),
{
    let post_logout = url_encode(base);
    match id_token {
        Some(t) => {
            let s = concat2(end_session_endpoint, "?id_token_hint=");
            let s = concat2(s.as_str(), url_encode(t.as_str()).as_str());
            let s = concat2(s.as_str(), "&post_logout_redirect_uri=");
            concat2(s.as_str(), post_logout.as_str())
        },
        None => {
            let s = concat2(end_session_endpoint, "?post_logout_redirect_uri=");
            concat2(s.as_str(), post_logout.as_str())
        },
    }
}

} // verus!
