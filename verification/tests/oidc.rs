use caddy_dashboard::oidc::{
    authorize_url, callback_code, fallback_username, is_enabled, logout_url, oidc_password_hash, public_base,
    redirect_uri, role_needs_update, sign_in_admin, userinfo_email, username_base, username_candidates,
    CallbackError, CallbackQuery, ClaimValue, UserInfo,
};

fn info() -> UserInfo {
    UserInfo {
        sub: "sub-123".to_string(),
        email: Some("jane.doe@example.com".to_string()),
        email_verified: None,
        name: Some("Jane".to_string()),
        preferred_username: None,
        extra: vec![
            ("groups".to_string(), ClaimValue::List(vec![Some("users".to_string()), None, Some("admin".to_string())])),
            ("role".to_string(), ClaimValue::Text("ops".to_string())),
            ("staff".to_string(), ClaimValue::Flag(true)),
            ("level".to_string(), ClaimValue::Other),
        ],
    }
}

#[test]
fn oidc_enabled_by_client_id() {
    assert!(is_enabled(&Some("client".to_string())));
    assert!(!is_enabled(&None));
}

#[test]
fn display_name_prefers_username_then_email() {
    let mut u = info();
    assert_eq!(u.preferred_display_name(), "jane.doe");
    u.preferred_username = Some("jd".to_string());
    assert_eq!(u.preferred_display_name(), "jd");
    u.preferred_username = Some(String::new());
    u.email = Some("@example.com".to_string());
    assert_eq!(u.preferred_display_name(), "sub-123");
    u.email = None;
    assert_eq!(u.preferred_display_name(), "sub-123");
}

#[test]
fn admin_claim_matching() {
    let u = info();
    let s = |v: &str| Some(v.to_string());
    assert!(u.check_admin(&s("groups"), &s("admin")));
    assert!(!u.check_admin(&s("groups"), &s("root")));
    assert!(u.check_admin(&s("role"), &s("ops")));
    assert!(u.check_admin(&s("staff"), &s("true")));
    assert!(!u.check_admin(&s("staff"), &s("false")));
    assert!(!u.check_admin(&s("level"), &s("1")));
    assert!(u.check_admin(&s("email"), &s("jane.doe@example.com")));
    assert!(u.check_admin(&s("sub"), &s("sub-123")));
    assert!(!u.check_admin(&None, &s("admin")));
    assert!(!u.check_admin(&s("groups"), &None));
}

#[test]
fn callback_checks_in_order() {
    let q = |code: Option<&str>, state: Option<&str>, error: Option<&str>| CallbackQuery {
        code: code.map(str::to_string),
        state: state.map(str::to_string),
        error: error.map(str::to_string),
        error_description: None,
    };
    let cookie = Some("abc".to_string());
    assert_eq!(callback_code(false, &q(Some("c"), Some("abc"), None), &cookie), Err(CallbackError::NotConfigured));
    assert_eq!(callback_code(true, &q(Some("c"), Some("abc"), Some("denied")), &cookie), Err(CallbackError::ProviderError));
    assert_eq!(callback_code(true, &q(Some("c"), Some("xyz"), None), &cookie), Err(CallbackError::StateMismatch));
    assert_eq!(callback_code(true, &q(Some("c"), None, None), &cookie), Err(CallbackError::StateMismatch));
    assert_eq!(callback_code(true, &q(Some("c"), Some(""), None), &Some(String::new())), Err(CallbackError::StateMismatch));
    assert_eq!(callback_code(true, &q(Some(""), Some("abc"), None), &cookie), Err(CallbackError::MissingCode));
    assert_eq!(callback_code(true, &q(Some("the-code"), Some("abc"), None), &cookie), Ok("the-code".to_string()));
    assert_eq!(CallbackError::StateMismatch.code(), "state_mismatch");
    assert_eq!(CallbackError::NoEmail.code(), "no_email");
}

#[test]
fn userinfo_email_rules() {
    let mut u = info();
    assert_eq!(userinfo_email(&u), Ok("jane.doe@example.com".to_string()));
    u.email_verified = Some(false);
    assert_eq!(userinfo_email(&u), Err(CallbackError::EmailNotVerified));
    u.email_verified = Some(true);
    u.email = Some(String::new());
    assert_eq!(userinfo_email(&u), Err(CallbackError::NoEmail));
}

#[test]
fn admin_role_on_sign_in() {
    assert!(sign_in_admin(true, true, Some(false), false));
    assert!(!sign_in_admin(true, false, Some(true), true));
    assert!(sign_in_admin(false, false, Some(true), false));
    assert!(sign_in_admin(false, false, None, true));
    assert!(!sign_in_admin(false, true, None, false));
    assert!(role_needs_update(true, false, true));
    assert!(!role_needs_update(false, false, true));
    assert_eq!(oidc_password_hash("s1"), "oidc:s1");
}

#[test]
fn derived_usernames() {
    assert_eq!(username_base("Jane Doe!"), "Jane_Doe_");
    assert_eq!(username_base("élan.x-y_z"), "élan.x-y_z");
    assert_eq!(username_base(""), "oidc_user");
    let c = username_candidates("jd");
    assert_eq!(c.len(), 99);
    assert_eq!(c[0], "jd");
    assert_eq!(c[1], "jd2");
    assert_eq!(c[98], "jd99");
    assert_eq!(fallback_username("jd", "0123456789abcdef"), "jd_01234567");
}

#[test]
fn provider_urls_are_percent_encoded() {
    assert_eq!(redirect_uri(&Some("https://d.example".to_string()), "http", "h"), "https://d.example/api/auth/oidc/callback");
    assert_eq!(redirect_uri(&None, "http", "localhost:9080"), "http://localhost:9080/api/auth/oidc/callback");
    assert_eq!(public_base(&None, "https", "h.example"), "https://h.example");
    let url = authorize_url("https://idp/auth", "my client", "http://x/cb", "openid email", "st8");
    assert_eq!(
        url,
        "https://idp/auth?response_type=code&client_id=my%20client&redirect_uri=http%3A%2F%2Fx%2Fcb&scope=openid%20email&state=st8"
    );
    assert_eq!(
        logout_url("https://idp/logout", &Some("t.k-n~".to_string()), "https://d/"),
        "https://idp/logout?id_token_hint=t.k-n~&post_logout_redirect_uri=https%3A%2F%2Fd%2F"
    );
    assert_eq!(logout_url("https://idp/logout", &None, "é"), "https://idp/logout?post_logout_redirect_uri=%C3%A9");
}
