use caddy_dashboard::access::{Access, RequireAuth};
use caddy_dashboard::accounts::{
    account_with_email, first_oidc_user, change_password_check, count_admins, create_user_check, delete_user_check, edit_user_check, finish_login,
    is_oidc_account, login_allowed, login_delay_secs, password_long_enough, require_admin, reset_password_check,
    signup_check, AccountError, ChangePasswordBody, CreateUserBody, EditUserBody, LoginThrottle, ResetPasswordBody,
    SignupBody, UserRecord,
};

fn user(name: &str, admin: bool) -> UserRecord {
    UserRecord {
        username: name.to_string(),
        email: format!("{name}@example.com"),
        password_hash: "$argon2id$v=19$x".to_string(),
        is_admin: admin,
    }
}

#[test]
fn throttle_counts_failures_per_user() {
    let mut t = LoginThrottle::new();
    assert_eq!(t.fail_count("alice"), 0);
    assert_eq!(t.record_failure("alice"), 1);
    assert_eq!(t.record_failure("alice"), 2);
    assert_eq!(t.record_failure("bob"), 1);
    assert_eq!(t.fail_count("alice"), 2);
    t.record_success("alice");
    assert_eq!(t.fail_count("alice"), 0);
    assert_eq!(t.fail_count("bob"), 1);
    t.record_success("nobody");
    assert_eq!(t.fail_count("bob"), 1);
}

#[test]
fn login_delay_grows_with_failures() {
    assert_eq!(login_delay_secs(0), 0);
    assert_eq!(login_delay_secs(5), 0);
    assert_eq!(login_delay_secs(6), 1);
    assert_eq!(login_delay_secs(10), 1);
    assert_eq!(login_delay_secs(11), 5);
}

#[test]
fn finish_login_settles_the_throttle() {
    let mut t = LoginThrottle::new();
    assert_eq!(finish_login(&mut t, "eve", false, true), Err(AccountError::InvalidCredentials));
    assert_eq!(finish_login(&mut t, "eve", true, false), Err(AccountError::InvalidCredentials));
    assert_eq!(t.fail_count("eve"), 2);
    assert_eq!(finish_login(&mut t, "eve", true, true), Ok(()));
    assert_eq!(t.fail_count("eve"), 0);
    assert_eq!(login_allowed(true), Err(AccountError::LocalLoginDisabled));
    assert_eq!(login_allowed(false), Ok(()));
}

#[test]
fn oidc_accounts_and_password_length() {
    assert!(is_oidc_account("oidc:abc"));
    assert!(!is_oidc_account("$argon2id$"));
    assert!(!is_oidc_account("oidc"));
    assert!(password_long_enough("12345678"));
    assert!(!password_long_enough("1234567"));
    assert!(password_long_enough("ééééé"));
}

#[test]
fn signup_rules_in_order() {
    let body = |u: &str, p: &str| SignupBody { username: u.to_string(), email: " a@b.c ".to_string(), password: p.to_string() };
    assert_eq!(signup_check(&body("x", "password1"), true, 0).err(), Some(AccountError::LocalAccountsDisabled));
    // With local login switched off, signup is refused even on an empty database.
    assert_eq!(signup_check(&body("root", "password1"), true, 0).err(), Some(AccountError::LocalAccountsDisabled));
    assert_eq!(signup_check(&body("x", "password1"), false, 1).err(), Some(AccountError::SetupComplete));
    assert_eq!(signup_check(&body("  ", "password1"), false, 0).err(), Some(AccountError::UsernameRequired));
    assert_eq!(signup_check(&body("x", "short"), false, 0).err(), Some(AccountError::PasswordTooShort));
    let ok = signup_check(&body("  root ", "password1"), false, 0).ok().unwrap();
    assert_eq!(ok.username, "root");
    assert_eq!(ok.email, "a@b.c");
    assert!(ok.is_admin);
}

#[test]
fn create_user_rules_in_order() {
    let body = CreateUserBody { username: " bob ".to_string(), email: "b@x".to_string(), password: "longenough".to_string(), is_admin: false };
    assert_eq!(create_user_check(&body, true).err(), Some(AccountError::UsernameExists));
    let ok = create_user_check(&body, false).ok().unwrap();
    assert_eq!(ok.username, "bob");
    assert!(!ok.is_admin);
    let short = CreateUserBody { password: "1234".to_string(), ..body };
    assert_eq!(create_user_check(&short, false).err(), Some(AccountError::PasswordTooShort));
    let empty = CreateUserBody { username: "".to_string(), email: String::new(), password: String::new(), is_admin: true };
    assert_eq!(create_user_check(&empty, true).err(), Some(AccountError::UsernameRequired));
}

#[test]
fn admin_rules() {
    assert_eq!(require_admin(&None), Err(AccountError::Unauthorized));
    assert_eq!(require_admin(&Some(user("u", false))), Err(AccountError::AdminRequired));
    assert_eq!(require_admin(&Some(user("a", true))), Ok(()));
    let users = vec![user("a", true), user("b", false), user("c", true)];
    assert_eq!(count_admins(&users), 2);
    assert_eq!(delete_user_check("a", "a", &users), Err(AccountError::CannotDeleteSelf));
    assert_eq!(delete_user_check("a", "zz", &users), Err(AccountError::UserNotFound));
    assert_eq!(delete_user_check("a", "c", &users), Ok(()));
    let lone = vec![user("a", true), user("root", true)];
    assert_eq!(delete_user_check("a", "root", &lone), Ok(()));
    let single = vec![user("a", false), user("root", true)];
    assert_eq!(delete_user_check("a", "root", &single), Err(AccountError::LastAdminDelete));
    assert_eq!(delete_user_check("root", "a", &single), Ok(()));
}

#[test]
fn edit_user_rules() {
    let body = EditUserBody { username: Some(" new ".to_string()), email: Some(" e@x ".to_string()), is_admin: Some(false) };
    assert_eq!(edit_user_check("a", "a", user("a", true), &body, 1, false).err(), Some(AccountError::LastAdminDemote));
    let out = edit_user_check("a", "a", user("a", true), &body, 2, false).ok().unwrap();
    assert_eq!(out.user.username, "new");
    assert_eq!(out.user.email, "e@x");
    assert!(!out.user.is_admin);
    assert!(out.username_changed);
    assert!(out.renew_session);
    assert_eq!(edit_user_check("a", "b", user("b", false), &body, 2, true).err(), Some(AccountError::UsernameExists));
    let blank = EditUserBody { username: Some("   ".to_string()), email: None, is_admin: None };
    assert_eq!(edit_user_check("a", "b", user("b", false), &blank, 2, false).err(), Some(AccountError::UsernameEmpty));
    let same = EditUserBody { username: Some("b".to_string()), email: None, is_admin: None };
    let out = edit_user_check("a", "b", user("b", false), &same, 2, true).ok().unwrap();
    assert!(!out.username_changed);
    assert!(!out.renew_session);
    assert_eq!(out.user.email, "b@example.com");
}

#[test]
fn password_reset_and_change_rules() {
    let short = ResetPasswordBody { new_password: "abc".to_string() };
    assert_eq!(reset_password_check(&short, false), Err(AccountError::PasswordTooShort));
    let long = ResetPasswordBody { new_password: "abcdefgh".to_string() };
    assert_eq!(reset_password_check(&long, false), Err(AccountError::UserNotFound));
    assert_eq!(reset_password_check(&long, true), Ok(()));
    let body = ChangePasswordBody { current_password: "old".to_string(), new_password: "newpassword".to_string() };
    assert_eq!(change_password_check(&None, true, &body), Err(AccountError::Unauthorized));
    let mut oidc = user("o", false);
    oidc.password_hash = "oidc:sub-1".to_string();
    assert_eq!(change_password_check(&Some(oidc), true, &body), Err(AccountError::OidcManaged));
    assert_eq!(change_password_check(&Some(user("u", false)), false, &body), Err(AccountError::CurrentPasswordIncorrect));
    let weak = ChangePasswordBody { current_password: "old".to_string(), new_password: "x".to_string() };
    assert_eq!(change_password_check(&Some(user("u", false)), true, &weak), Err(AccountError::PasswordTooShort));
    assert_eq!(change_password_check(&Some(user("u", false)), true, &body), Ok(()));
}

#[test]
fn account_errors_answer_with_status_and_message() {
    assert_eq!(AccountError::UsernameExists.status(), 409);
    assert_eq!(AccountError::UserNotFound.status(), 404);
    assert_eq!(AccountError::Unauthorized.status(), 401);
    assert_eq!(AccountError::AdminRequired.status(), 403);
    assert_eq!(AccountError::PasswordTooShort.message(), "Password must be at least 8 characters");
    assert_eq!(AccountError::LastAdminDemote.message(), "Cannot remove the last admin");
}

#[test]
fn auth_endpoints_are_public() {
    let m = RequireAuth.new_transform(());
    assert_eq!(m.access("/api/auth/login", false), Access::Public);
    assert_eq!(m.access("/api/stats", true), Access::Allowed);
    assert_eq!(m.access("/api/stats", false), Access::Unauthorized);
    assert_eq!(m.access("/api/authx", false), Access::Unauthorized);
}

#[test]
fn unknown_user_is_answered_like_a_wrong_password() {
    let mut unknown = LoginThrottle::new();
    let mut wrong = LoginThrottle::new();
    let a = finish_login(&mut unknown, "mallory", false, false);
    let b = finish_login(&mut wrong, "mallory", true, false);
    assert_eq!(a, b);
    assert_eq!(a, Err(AccountError::InvalidCredentials));
    assert_eq!(AccountError::InvalidCredentials.status(), 401);
    assert_eq!(AccountError::InvalidCredentials.message(), "Invalid credentials");
    assert_eq!(unknown.fail_count("mallory"), wrong.fail_count("mallory"));
}

#[test]
fn first_oidc_sign_in_and_email_matching() {
    let local = || {
        let mut u = user("root", true);
        u.email = "Root@Example.com".to_string();
        u
    };
    let sso = || {
        let mut u = user("sso", false);
        u.password_hash = "oidc:abc".to_string();
        u
    };
    // A local account does not make the next OIDC sign-in any less the first.
    assert!(first_oidc_user(&vec![local()]));
    assert!(first_oidc_user(&vec![]));
    assert!(!first_oidc_user(&vec![local(), sso()]));
    let users = vec![sso(), local()];
    assert_eq!(account_with_email(&users, "root@example.COM"), Some(1));
    assert_eq!(account_with_email(&users, "sso@example.com"), Some(0));
    assert_eq!(account_with_email(&users, "nobody@example.com"), None);
}
