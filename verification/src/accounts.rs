//! Local accounts: the login throttle, and the rules that admit or refuse each
//! account request before anything is written.

use vstd::prelude::*;
use vstd::string::StringExecFns;
use crate::table::Table;
use crate::text::{eq_ignore_ascii_case, has_prefix, starts_with, str_eq_ignore_ascii_case, trim, trim_str};

verus! {

/// Failed login attempts per username since the last success.
pub struct LoginThrottle {
    failures: Table<String, u32>,
}

/// The failures recorded for `username` (zero when none).
pub open spec fn failures_of(m: Map<Seq<char>, u32>, username: Seq<char>) -> nat {
    if m.dom().contains(username) { m[username] as nat } else { 0 }
}

impl LoginThrottle {
    pub closed spec fn failures(&self) -> Map<Seq<char>, u32> {
        self.failures.view()
    }

    pub closed spec fn wf(&self) -> bool {
        self.failures.wf()
    }

    pub fn new() -> (res: Self)
        ensures
            res.wf(),
            res.failures() == Map::<Seq<char>, u32>::empty(),
    {
        LoginThrottle { failures: Table::new() }
    }

    /// Counts one more failure for `username` and returns the new count.
    pub fn record_failure(&mut self, username: &str) -> (n: u32)
        requires
            old(self).wf(),
            failures_of(old(self).failures(), username@) < u32::MAX,
        ensures
            final(self).wf(),
            n == failures_of(old(self).failures(), username@) + 1,
            final(self).failures() == old(self).failures().insert(username@, n),
    {
        let key = String::from_str(username);
        match self.failures.find(&key) {
            Some(i) => {
                let n = self.failures.entries[i].1 + 1;
                self.failures.set_at(i, n);
                n
            },
            None => {
                let pos = self.failures.entries.len();
                self.failures.insert_new(pos, key, 1);
                1
            },
        }
    }

    /// Forgets the failures of `username`.
    pub fn record_success(&mut self, username: &str)
        requires
            old(self).wf(),
        ensures
            final(self).wf(),
            final(self).failures() == old(self).failures().remove(username@),
    {
        let key = String::from_str(username);
        self.failures.remove(&key);
    }

    /// The failures recorded for `username`.
    pub fn fail_count(&self, username: &str) -> (n: u32)
        requires
            self.wf(),
        ensures
            n == failures_of(self.failures(), username@),
    {
        let key = String::from_str(username);
        match self.failures.find(&key) {
            Some(i) => self.failures.entries[i].1,
            None => 0,
        }
    }
}

/// After a failure the count of that username is one more, and no other
/// username's count changes.
pub proof fn law_failure_counts_up(m: Map<Seq<char>, u32>, u: Seq<char>, other: Seq<char>, n: u32)
    requires
        n == failures_of(m, u) + 1,
    ensures
        failures_of(m.insert(u, n), u) == failures_of(m, u) + 1,
        other != u ==> failures_of(m.insert(u, n), other) == failures_of(m, other),
{
}

/// After a success the count of that username is zero again, and no other
/// username's count changes.
pub proof fn law_success_resets(m: Map<Seq<char>, u32>, u: Seq<char>, other: Seq<char>)
    ensures
        failures_of(m.remove(u), u) == 0,
        other != u ==> failures_of(m.remove(u), other) == failures_of(m, other),
{
}

/// Seconds to wait before checking a password, after `prior_failures`
/// failed attempts: 5 after more than 10, 1 after more than 5, else none.
pub fn login_delay_secs(prior_failures: u32) -> (s: u64)
    ensures
        s == (if prior_failures > 10 { 5u64 } else if prior_failures > 5 { 1u64 } else { 0u64 }),
{
    if prior_failures > 10 {
        5
    } else if prior_failures > 5 {
        1
    } else {
        0
    }
}

/// The password hash of accounts whose identity comes from the OIDC provider
/// starts with this marker.
pub open spec fn oidc_marker() -> Seq<char> {
    seq!['o', 'i', 'd', 'c', ':']
}

/// Whether an account is managed by the OIDC provider.
pub fn is_oidc_account(password_hash: &str) -> (r: bool)
    ensures
        r == has_prefix(password_hash@, oidc_marker()),
{
    let marker = "oidc:";
    proof {
        reveal_strlit("oidc:");
        assert(marker@ =~= oidc_marker());
    }
    starts_with(password_hash, marker)
}

/// The length of a string in UTF-8 bytes, as `str::len` counts it.
pub open spec fn byte_len(s: Seq<char>) -> usize {
    vstd::utf8::encode_utf8(s).len() as usize
}

/// Passwords have at least 8 bytes.
pub fn password_long_enough(password: &str) -> (r: bool)
    ensures
        r == (byte_len(password@) >= 8),
{
    password.len() >= 8
}

/// An account as the rules see it.
pub struct UserRecord {
    pub username: String,
    pub email: String,
    pub password_hash: String,
    pub is_admin: bool,
}

/// Why an account request is refused.
#[derive(PartialEq, Eq, Structural, Debug, Clone, Copy)]
pub enum AccountError {
    /// Local password login is turned off.
    LocalLoginDisabled,
    /// Local accounts cannot be created while only SSO is allowed.
    LocalAccountsDisabled,
    /// The first account already exists.
    SetupComplete,
    /// No session, or the session's user is gone.
    Unauthorized,
    /// The user is not an administrator.
    AdminRequired,
    UsernameRequired,
    UsernameEmpty,
    UsernameExists,
    PasswordTooShort,
    InvalidCredentials,
    CurrentPasswordIncorrect,
    OidcManaged,
    UserNotFound,
    CannotDeleteSelf,
    LastAdminDelete,
    LastAdminDemote,
}

/// The HTTP status that answers each refusal.
pub open spec fn status_of(e: AccountError) -> u16 {
    match e {
        AccountError::LocalLoginDisabled => 403,
        AccountError::LocalAccountsDisabled => 403,
        AccountError::SetupComplete => 403,
        AccountError::Unauthorized => 401,
        AccountError::AdminRequired => 403,
        AccountError::UsernameRequired => 400,
        AccountError::UsernameEmpty => 400,
        AccountError::UsernameExists => 409,
        AccountError::PasswordTooShort => 400,
        AccountError::InvalidCredentials => 401,
        AccountError::CurrentPasswordIncorrect => 401,
        AccountError::OidcManaged => 400,
        AccountError::UserNotFound => 404,
        AccountError::CannotDeleteSelf => 400,
        AccountError::LastAdminDelete => 400,
        AccountError::LastAdminDemote => 400,
    }
}

/// The message that answers each refusal.
pub open spec fn message_of(e: AccountError) -> Seq<char> {
    match e {
        AccountError::LocalLoginDisabled => "Local login is disabled. Use SSO to sign in."@,
        AccountError::LocalAccountsDisabled => "Local accounts are disabled. Use SSO to sign in."@,
        AccountError::SetupComplete => "Setup already complete"@,
        AccountError::Unauthorized => "unauthorized"@,
        AccountError::AdminRequired => "Admin required"@,
        AccountError::UsernameRequired => "Username required"@,
        AccountError::UsernameEmpty => "Username cannot be empty"@,
        AccountError::UsernameExists => "Username already exists"@,
        AccountError::PasswordTooShort => "Password must be at least 8 characters"@,
        AccountError::InvalidCredentials => "Invalid credentials"@,
        AccountError::CurrentPasswordIncorrect => "Current password is incorrect"@,
        AccountError::OidcManaged => "OIDC-managed accounts cannot change their password here"@,
        AccountError::UserNotFound => "User not found"@,
        AccountError::CannotDeleteSelf => "Cannot delete your own account"@,
        AccountError::LastAdminDelete => "Cannot delete the last admin"@,
        AccountError::LastAdminDemote => "Cannot remove the last admin"@,
    }
}

impl AccountError {
    /// The HTTP status of the answer.
    pub fn status(&self) -> (s: u16)
        ensures
            s == status_of(*self),
    {
        match self {
            AccountError::LocalLoginDisabled => 403,
            AccountError::LocalAccountsDisabled => 403,
            AccountError::SetupComplete => 403,
            AccountError::Unauthorized => 401,
            AccountError::AdminRequired => 403,
            AccountError::UsernameRequired => 400,
            AccountError::UsernameEmpty => 400,
            AccountError::UsernameExists => 409,
            AccountError::PasswordTooShort => 400,
            AccountError::InvalidCredentials => 401,
            AccountError::CurrentPasswordIncorrect => 401,
            AccountError::OidcManaged => 400,
            AccountError::UserNotFound => 404,
            AccountError::CannotDeleteSelf => 400,
            AccountError::LastAdminDelete => 400,
            AccountError::LastAdminDemote => 400,
        }
    }

    /// The message of the answer's `error` field.
    pub fn message(&self) -> (m: &'static str)
        ensures
            m@ == message_of(*self),
    {
        match self {
            AccountError::LocalLoginDisabled => "Local login is disabled. Use SSO to sign in.",
            AccountError::LocalAccountsDisabled => "Local accounts are disabled. Use SSO to sign in.",
            AccountError::SetupComplete => "Setup already complete",
            AccountError::Unauthorized => "unauthorized",
            AccountError::AdminRequired => "Admin required",
            AccountError::UsernameRequired => "Username required",
            AccountError::UsernameEmpty => "Username cannot be empty",
            AccountError::UsernameExists => "Username already exists",
            AccountError::PasswordTooShort => "Password must be at least 8 characters",
            AccountError::InvalidCredentials => "Invalid credentials",
            AccountError::CurrentPasswordIncorrect => "Current password is incorrect",
            AccountError::OidcManaged => "OIDC-managed accounts cannot change their password here",
            AccountError::UserNotFound => "User not found",
            AccountError::CannotDeleteSelf => "Cannot delete your own account",
            AccountError::LastAdminDelete => "Cannot delete the last admin",
            AccountError::LastAdminDemote => "Cannot remove the last admin",
        }
    }
}

/// Body of a login request.
pub struct LoginBody {
    pub username: String,
    pub password: String,
}

/// Body of the first-account signup.
pub struct SignupBody {
    pub username: String,
    pub email: String,
    pub password: String,
}

/// Body of a password change by the signed-in user.
pub struct ChangePasswordBody {
    pub current_password: String,
    pub new_password: String,
}

/// Body of an administrator's new account.
pub struct CreateUserBody {
    pub username: String,
    pub email: String,
    pub password: String,
    pub is_admin: bool,
}

/// Body of an administrator's account edit; absent fields stay as they are.
pub struct EditUserBody {
    pub username: Option<String>,
    pub email: Option<String>,
    pub is_admin: Option<bool>,
}

/// Body of an administrator's password reset.
pub struct ResetPasswordBody {
    pub new_password: String,
}

/// The account fields a new account gets, with the hash left to the caller.
pub struct NewAccount {
    pub username: String,
    pub email: String,
    pub is_admin: bool,
}

/// Whether password login may be tried at all.
pub fn login_allowed(disable_login: bool) -> (r: Result<(), AccountError>)
    ensures
        r == (if disable_login { Err(AccountError::LocalLoginDisabled) } else { Ok::<(), AccountError>(()) }),
{
    if disable_login {
        Err(AccountError::LocalLoginDisabled)
    } else {
        Ok(())
    }
}

/// What settling a login attempt answers and leaves in the throttle: a
/// success forgets the username's failures; an unknown username or a wrong
/// password is refused as invalid credentials and counts one more failure.
pub open spec fn login_outcome(
    failures: Map<Seq<char>, u32>,
    username: Seq<char>,
    user_found: bool,
    password_valid: bool,
) -> (Result<(), AccountError>, Map<Seq<char>, u32>) {
    if user_found && password_valid {
        (Ok(()), failures.remove(username))
    } else {
        (
            Err(AccountError::InvalidCredentials),
            failures.insert(username, (failures_of(failures, username) + 1) as u32),
        )
    }
}

/// A login for a username without an account is answered exactly like one
/// with a wrong password for an existing account: the same refusal (401,
/// "Invalid credentials") and the same change to the throttle, whatever the
/// check against the stand-in hash gave.
pub proof fn law_unknown_user_like_wrong_password(failures: Map<Seq<char>, u32>, username: Seq<char>, dummy_check: bool)
    ensures
        login_outcome(failures, username, false, dummy_check) == login_outcome(failures, username, true, false),
        login_outcome(failures, username, false, dummy_check).0 == Err::<(), AccountError>(
            AccountError::InvalidCredentials,
        ),
        status_of(AccountError::InvalidCredentials) == 401,
        message_of(AccountError::InvalidCredentials) == "Invalid credentials"@,
{
}

/// Settles a login attempt once the password was checked: a success forgets
/// the username's failures, anything else counts one more.
pub fn finish_login(throttle: &mut LoginThrottle, username: &str, user_found: bool, password_valid: bool) -> (r: Result<(), AccountError>)
    requires
        old(throttle).wf(),
        failures_of(old(throttle).failures(), username@) < u32::MAX,
    ensures
        final(throttle).wf(),
        user_found && password_valid ==> r is Ok && final(throttle).failures() == old(throttle).failures().remove(
            username@,
        ),
        !(user_found && password_valid) ==> r == Err::<(), AccountError>(AccountError::InvalidCredentials)
            && final(throttle).failures() == old(throttle).failures().insert(
            username@,
            (failures_of(old(throttle).failures(), username@) + 1) as u32,
        ),
        (r, final(throttle).failures()) == login_outcome(old(throttle).failures(), username@, user_found, password_valid),
{
    if !user_found || !password_valid {
        let _ = throttle.record_failure(username);
        return Err(AccountError::InvalidCredentials);
    }
    throttle.record_success(username);
    Ok(())
}

/// The first account: refused when local login is switched off
/// (`OIDC_DISABLE_LOGIN`), when an account exists, when the trimmed username
/// is empty or the password short; otherwise an administrator with trimmed
/// username and email.
pub fn signup_check(body: &SignupBody, disable_login: bool, user_count: u64) -> (r: Result<
    NewAccount,
    AccountError,
>)
    ensures
        disable_login ==> r == Err::<NewAccount, AccountError>(AccountError::LocalAccountsDisabled),
        !disable_login && user_count > 0 ==> r == Err::<NewAccount, AccountError>(
            AccountError::SetupComplete,
        ),
        !disable_login && user_count == 0 && trim(body.username@).len() == 0 ==> r == Err::<
            NewAccount,
            AccountError,
        >(AccountError::UsernameRequired),
        !disable_login && user_count == 0 && trim(body.username@).len() > 0 && byte_len(
            body.password@,
        ) < 8 ==> r == Err::<NewAccount, AccountError>(AccountError::PasswordTooShort),
        r is Ok <==> !disable_login && user_count == 0 && trim(body.username@).len() > 0
            && byte_len(body.password@) >= 8,
        r matches Ok(a) ==> a.username@ == trim(body.username@) && a.email@ == trim(body.email@) && a.is_admin,
{
    if disable_login {
        return Err(AccountError::LocalAccountsDisabled);
    }
    if user_count > 0 {
        return Err(AccountError::SetupComplete);
    }
    let username = trim_str(body.username.as_str());
    if username.as_str().is_empty() {
        return Err(AccountError::UsernameRequired);
    }
    if !password_long_enough(body.password.as_str()) {
        return Err(AccountError::PasswordTooShort);
    }
    let email = trim_str(body.email.as_str());
    Ok(NewAccount { username, email, is_admin: true })
}

/// An administrator's new account. `taken` says whether an account already
/// has the trimmed username.
pub fn create_user_check(body: &CreateUserBody, taken: bool) -> (r: Result<NewAccount, AccountError>)
    ensures
        trim(body.username@).len() == 0 ==> r == Err::<NewAccount, AccountError>(AccountError::UsernameRequired),
        trim(body.username@).len() > 0 && taken ==> r == Err::<NewAccount, AccountError>(
            AccountError::UsernameExists,
        ),
        trim(body.username@).len() > 0 && !taken && byte_len(body.password@) < 8 ==> r == Err::<
            NewAccount,
            AccountError,
        >(AccountError::PasswordTooShort),
        r is Ok <==> trim(body.username@).len() > 0 && !taken && byte_len(body.password@) >= 8,
        r matches Ok(a) ==> a.username@ == trim(body.username@) && a.email@ == trim(body.email@) && a.is_admin
            == body.is_admin,
{
    let username = trim_str(body.username.as_str());
    if username.as_str().is_empty() {
        return Err(AccountError::UsernameRequired);
    }
    if taken {
        return Err(AccountError::UsernameExists);
    }
    if !password_long_enough(body.password.as_str()) {
        return Err(AccountError::PasswordTooShort);
    }
    let email = trim_str(body.email.as_str());
    Ok(NewAccount { username, email, is_admin: body.is_admin })
}

/// No stored account is managed by the OIDC provider yet: the next OIDC
/// sign-in is the first one.
pub open spec fn no_oidc_accounts(accounts: Seq<UserRecord>) -> bool {
    forall|i: int| 0 <= i < accounts.len() ==> !has_prefix(#[trigger] accounts[i].password_hash@, oidc_marker())
}

/// Whether an OIDC sign-in is the first one: no account yet is an OIDC
/// account (local accounts do not count).
pub fn first_oidc_user(accounts: &Vec<UserRecord>) -> (r: bool)
    ensures
        r == no_oidc_accounts(accounts@),
{
    let mut i: usize = 0;
    while i < accounts.len()
        invariant
            i <= accounts@.len(),
            forall|j: int| 0 <= j < i ==> !has_prefix(#[trigger] accounts@[j].password_hash@, oidc_marker()),
        decreases accounts@.len() - i,
    {
        if is_oidc_account(accounts[i].password_hash.as_str()) {
            return false;
        }
        i += 1;
    }
    true
}

/// The first account whose email equals `email` up to ASCII case, if any.
pub fn account_with_email(accounts: &Vec<UserRecord>, email: &str) -> (r: Option<usize>)
    ensures
        r matches Some(i) ==> i < accounts@.len() && eq_ignore_ascii_case(accounts@[i as int].email@, email@)
            && forall|j: int| 0 <= j < i ==> !eq_ignore_ascii_case(#[trigger] accounts@[j].email@, email@),
        r is None ==> forall|j: int| 0 <= j < accounts@.len() ==> !eq_ignore_ascii_case(
            #[trigger] accounts@[j].email@,
            email@,
        ),
{
    let mut i: usize = 0;
    while i < accounts.len()
        invariant
            i <= accounts@.len(),
            forall|j: int| 0 <= j < i ==> !eq_ignore_ascii_case(#[trigger] accounts@[j].email@, email@),
        decreases accounts@.len() - i,
    {
        if str_eq_ignore_ascii_case(accounts[i].email.as_str(), email) {
            return Some(i);
        }
        i += 1;
    }
    None
}

/// The signed-in user may act as administrator: refused without a user, or
/// when the user is not an administrator.
pub fn require_admin(user: &Option<UserRecord>) -> (r: Result<(), AccountError>)
    ensures
        user is None ==> r == Err::<(), AccountError>(AccountError::Unauthorized),
        user matches Some(u) ==> (r is Ok <==> u.is_admin) && (!u.is_admin ==> r == Err::<(), AccountError>(
            AccountError::AdminRequired,
        )),
{
    match user {
        None => Err(AccountError::Unauthorized),
        Some(u) => if u.is_admin {
            Ok(())
        } else {
            Err(AccountError::AdminRequired)
        },
    }
}

/// Number of administrators among the first `n` accounts.
pub open spec fn admins_in(users: Seq<UserRecord>, n: int) -> nat
    decreases n,
{
    if n <= 0 {
        0
    } else {
        admins_in(users, n - 1) + if users[n - 1].is_admin { 1nat } else { 0nat }
    }
}

/// Number of administrators.
pub fn count_admins(users: &Vec<UserRecord>) -> (n: usize)
    ensures
        n == admins_in(users@, users@.len() as int),
{
    let mut n: usize = 0;
    let mut i: usize = 0;
    while i < users.len()
        invariant
            i <= users@.len(),
            n == admins_in(users@, i as int),
            n <= i,
        decreases users@.len() - i,
    {
        if users[i].is_admin {
            n += 1;
        }
        i += 1;
    }
    n
}

/// Some account is named `name`.
pub open spec fn has_user(users: Seq<UserRecord>, name: Seq<char>) -> bool {
    exists|i: int| 0 <= i < users.len() && (#[trigger] users[i]).username@ == name
}

/// The first account named `name` is an administrator.
pub open spec fn first_named_is_admin(users: Seq<UserRecord>, name: Seq<char>) -> bool {
    exists|i: int|
        0 <= i < users.len() && (#[trigger] users[i]).username@ == name && users[i].is_admin && forall|j: int|
            0 <= j < i ==> (#[trigger] users[j]).username@ != name
}

/// An administrator deletes `target`: not their own account, not a missing
/// one, and not the last administrator.
pub fn delete_user_check(admin_username: &str, target: &str, users: &Vec<UserRecord>) -> (r: Result<(), AccountError>)
    ensures
        target@ == admin_username@ ==> r == Err::<(), AccountError>(AccountError::CannotDeleteSelf),
        target@ != admin_username@ && !has_user(users@, target@) ==> r == Err::<(), AccountError>(
            AccountError::UserNotFound,
        ),
        target@ != admin_username@ && has_user(users@, target@) ==> {
            &&& r is Ok <==> !first_named_is_admin(users@, target@) || admins_in(users@, users@.len() as int) > 1
            &&& r is Err ==> r == Err::<(), AccountError>(AccountError::LastAdminDelete)
        },
{
    if crate::text::str_eq(target, admin_username) {
        return Err(AccountError::CannotDeleteSelf);
    }
    let mut i: usize = 0;
    while i < users.len()
        invariant
            i <= users@.len(),
            target@ != admin_username@,
            forall|j: int| 0 <= j < i ==> (#[trigger] users@[j]).username@ != target@,
        decreases users@.len() - i,
    {
        if crate::text::str_eq(users[i].username.as_str(), target) {
            if users[i].is_admin {
                let admins = count_admins(users);
                if admins <= 1 {
                    return Err(AccountError::LastAdminDelete);
                }
            }
            proof {
                if first_named_is_admin(users@, target@) {
                    let k = choose|k: int|
                        0 <= k < users@.len() && (#[trigger] users@[k]).username@ == target@ && users@[k].is_admin
                            && forall|j: int| 0 <= j < k ==> (#[trigger] users@[j]).username@ != target@;
                    if k > i {
                        assert(users@[i as int].username@ == target@);
                    }
                    assert(k == i);
                }
            }
            return Ok(());
        }
        i += 1;
    }
    Err(AccountError::UserNotFound)
}

/// What an accepted account edit changes.
pub struct EditOutcome {
    /// The account as it is to be stored.
    pub user: UserRecord,
    /// The username changed, so the account's sessions end.
    pub username_changed: bool,
    /// The administrator renamed their own account and gets a new session.
    pub renew_session: bool,
}

/// An administrator edits `user` (stored under `old_username`). `admin_count`
/// is the number of administrators; `new_name_taken` whether an account has
/// the trimmed new username.
pub fn edit_user_check(
    admin_username: &str,
    old_username: &str,
    user: UserRecord,
    body: &EditUserBody,
    admin_count: usize,
    new_name_taken: bool,
) -> (r: Result<EditOutcome, AccountError>)
    ensures
        ({
            let demotes = body.is_admin matches Some(a) && user.is_admin && !a;
            let new_name: Option<Seq<char>> = match &body.username {
                Some(n) => Some(trim(n@)),
                None => None,
            };
            &&& demotes && admin_count <= 1 ==> r == Err::<EditOutcome, AccountError>(AccountError::LastAdminDemote)
            &&& !(demotes && admin_count <= 1) ==> match new_name {
                Some(n) => {
                    &&& n.len() == 0 ==> r == Err::<EditOutcome, AccountError>(AccountError::UsernameEmpty)
                    &&& n.len() > 0 && n != old_username@ && new_name_taken ==> r == Err::<EditOutcome, AccountError>(
                        AccountError::UsernameExists,
                    )
                },
                None => true,
            }
            &&& r is Ok <==> !(demotes && admin_count <= 1) && (new_name matches Some(n) ==> n.len() > 0 && (n
                == old_username@ || !new_name_taken))
            &&& r matches Ok(o) ==> {
                &&& o.user.is_admin == (match body.is_admin {
                    Some(a) => a,
                    None => user.is_admin,
                })
                &&& o.user.email@ == (match &body.email {
                    Some(e) => trim(e@),
                    None => user.email@,
                })
                &&& o.user.username@ == (match new_name {
                    Some(n) => n,
                    None => user.username@,
                })
                &&& o.user.password_hash@ == user.password_hash@
                &&& o.username_changed == (new_name matches Some(n) && n != old_username@)
                &&& o.renew_session == (o.username_changed && old_username@ == admin_username@)
            }
        }),
{
    let mut user = user;
    if let Some(new_admin) = body.is_admin {
        if user.is_admin && !new_admin && admin_count <= 1 {
            return Err(AccountError::LastAdminDemote);
        }
        user.is_admin = new_admin;
    }
    if let Some(email) = &body.email {
        user.email = trim_str(email.as_str());
    }
    let mut changed = false;
    if let Some(new_username) = &body.username {
        let new_username = trim_str(new_username.as_str());
        if new_username.as_str().is_empty() {
            return Err(AccountError::UsernameEmpty);
        }
        let same = crate::text::str_eq(new_username.as_str(), old_username);
        if !same && new_name_taken {
            return Err(AccountError::UsernameExists);
        }
        changed = !same;
        user.username = new_username;
    }
    let renew = changed && crate::text::str_eq(old_username, admin_username);
    Ok(EditOutcome { user, username_changed: changed, renew_session: renew })
}

/// An administrator's password reset: the password is checked before the
/// account is looked up.
pub fn reset_password_check(body: &ResetPasswordBody, user_exists: bool) -> (r: Result<(), AccountError>)
    ensures
        byte_len(body.new_password@) < 8 ==> r == Err::<(), AccountError>(AccountError::PasswordTooShort),
        byte_len(body.new_password@) >= 8 && !user_exists ==> r == Err::<(), AccountError>(AccountError::UserNotFound),
        r is Ok <==> byte_len(body.new_password@) >= 8 && user_exists,
{
    if !password_long_enough(body.new_password.as_str()) {
        return Err(AccountError::PasswordTooShort);
    }
    if !user_exists {
        return Err(AccountError::UserNotFound);
    }
    Ok(())
}

/// A password change by the signed-in `user`: refused without a user, for
/// OIDC accounts, when the current password is wrong, or the new one short.
pub fn change_password_check(user: &Option<UserRecord>, current_ok: bool, body: &ChangePasswordBody) -> (r: Result<
    (),
    AccountError,
>)
    ensures
        user is None ==> r == Err::<(), AccountError>(AccountError::Unauthorized),
        user matches Some(u) ==> {
            let oidc = has_prefix(u.password_hash@, oidc_marker());
            &&& oidc ==> r == Err::<(), AccountError>(AccountError::OidcManaged)
            &&& !oidc && !current_ok ==> r == Err::<(), AccountError>(AccountError::CurrentPasswordIncorrect)
            &&& !oidc && current_ok && byte_len(body.new_password@) < 8 ==> r == Err::<(), AccountError>(
                AccountError::PasswordTooShort,
            )
            &&& r is Ok <==> !oidc && current_ok && byte_len(body.new_password@) >= 8
        },
{
    match user {
        None => Err(AccountError::Unauthorized),
        Some(u) => {
            if is_oidc_account(u.password_hash.as_str()) {
                return Err(AccountError::OidcManaged);
            }
            if !current_ok {
                return Err(AccountError::CurrentPasswordIncorrect);
            }
            if !password_long_enough(body.new_password.as_str()) {
                return Err(AccountError::PasswordTooShort);
            }
            Ok(())
        },
    }
}

} // verus!
