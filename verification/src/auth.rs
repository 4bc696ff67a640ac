//! Who a request comes from, and what that lets it do.

use crate::config::{Config, UserCfg};
use crate::oci::errors;
use crate::oci::errors::{oci_error, Reply};
use crate::text;
use argon2::password_hash::{PasswordHash, SaltString};
use argon2::{PasswordHasher, PasswordVerifier};
use base64::Engine;
use vstd::prelude::*;
use vstd::string::*;
use vstd::utf8::*;

verus! {

/// What a caller may do, from least to most.
#[derive(Clone, Copy, PartialEq, Eq, PartialOrd, Ord, Debug)]
pub enum Role {
    Anonymous,
    Pull,
    Push,
    Admin,
}

/// What a request asks for.
#[derive(Clone, Copy, PartialEq, Eq, Debug)]
pub enum Action {
    Pull,
    Push,
    Admin,
}

/// Who a request comes from.
#[derive(Clone, Debug)]
pub struct Identity {
    pub username: Option<String>,
    pub role: Role,
}

impl Role {
    /// The place of a role in the order of roles.
    pub open spec fn level(self) -> int {
        match self {
            Role::Anonymous => 0,
            Role::Pull => 1,
            Role::Push => 2,
            Role::Admin => 3,
        }
    }

    /// Whether this role is `other` or above it.
    pub fn at_least(self, other: Role) -> (r: bool)
        ensures
            r == (self.level() >= other.level()),
    {
        match other {
            Role::Anonymous => true,
            Role::Pull => matches!(self, Role::Pull | Role::Push | Role::Admin),
            Role::Push => matches!(self, Role::Push | Role::Admin),
            Role::Admin => matches!(self, Role::Admin),
        }
    }
}

/// The role that a setting names; any other text means `push`.
pub open spec fn named_role(s: Seq<char>) -> Role {
    if s == "admin"@ {
        Role::Admin
    } else if s == "pull"@ {
        Role::Pull
    } else {
        Role::Push
    }
}

/// Reads a role.
pub fn role_from_str(s: &str) -> (r: Role)
    ensures
        r == named_role(s@),
{
    if text::same(s, "admin") {
        Role::Admin
    } else if text::same(s, "pull") {
        Role::Pull
    } else {
        Role::Push
    }
}

/// Whether `stored` is an argon2 hash of `given`.
pub uninterp spec fn argon2_verifies(stored: Seq<char>, given: Seq<char>) -> bool;

/// A piece of a hash in PHC notation that gives the number of lanes gives it in eight digits at
/// most.
pub open spec fn few_lanes(piece: Seq<char>) -> bool {
    "p="@.is_prefix_of(piece) ==> piece.len() <= 10
}

/// No piece of `stored`, split at `$` and then at `,`, gives the number of lanes in more than
/// eight digits. argon2 allows less than 2^24 lanes and reads no leading zeros, so a text with
/// such a piece verifies nothing.
pub open spec fn lanes_in_range(stored: Seq<char>) -> bool {
    forall|i: int, j: int|
        0 <= i < text::pieces(stored, '$').len() && 0 <= j < text::pieces(
            text::pieces(stored, '$')[i],
            ',',
        ).len() ==> few_lanes(#[trigger] text::pieces(text::pieces(stored, '$')[i], ',')[j])
}

/// Whether the number of lanes that `stored` gives, if any, has eight digits at most.
fn lanes_fit(stored: &str) -> (r: bool)
    ensures
        r == lanes_in_range(stored@),
{
    let fields = text::split(stored, '$');
    let ghost all = text::pieces(stored@, '$');
    let mut i: usize = 0;
    while i < fields.len()
        invariant
            i <= fields@.len(),
            all == text::pieces(stored@, '$'),
            all == text::views(fields@),
            forall|a: int, b: int|
                0 <= a < i && 0 <= b < text::pieces(all[a], ',').len() ==> few_lanes(
                    #[trigger] text::pieces(all[a], ',')[b],
                ),
        decreases fields@.len() - i,
    {
        let parts = text::split(fields[i].as_str(), ',');
        let ghost own = text::pieces(all[i as int], ',');
        let mut j: usize = 0;
        while j < parts.len()
            invariant
                i < fields@.len(),
                j <= parts@.len(),
                all == text::pieces(stored@, '$'),
                all == text::views(fields@),
                own == text::pieces(all[i as int], ','),
                own == text::views(parts@),
                forall|b: int| 0 <= b < j ==> few_lanes(#[trigger] own[b]),
            decreases parts@.len() - j,
        {
            let part = parts[j].as_str();
            proof {
                assert(own[j as int] == part@);
            }
            if text::has_prefix(part, "p=") && part.unicode_len() > 10 {
                proof {
                    assert(!few_lanes(text::pieces(all[i as int], ',')[j as int]));
                }
                return false;
            }
            j += 1;
        }
        i += 1;
    }
    true
}

/// `PasswordHash::new` and `Argon2::default().verify_password`: reads `stored` as a hash in
/// PHC notation, computes the hash of `given` with its parameters and its salt, and says
/// whether the two agree. A text that cannot be read agrees with nothing. Numbers of lanes that
/// overflow when they are multiplied by eight are left out. Nothing is said of the memory that
/// the parameters ask for: it is taken to be there.
#[verifier::external_body]
fn argon2_verify(stored: &str, given: &str) -> (r: bool)
    requires
        lanes_in_range(stored@),
    ensures
        r == argon2_verifies(stored@, given@),
{
    match PasswordHash::new(stored) {
        Ok(hash) => argon2::Argon2::default().verify_password(given.as_bytes(), &hash).is_ok(),
        Err(_) => false,
    }
}

/// `SaltString::generate` and `Argon2::default().hash_password`: a hash of `password` under a
/// random salt, in PHC notation, which begins with `$argon2id$`, the name of the default
/// algorithm, which gives the default number of lanes, one, and which `password` verifies. The
/// hash itself depends on the salt. Passwords of 2^32 bytes and more are refused.
#[verifier::external_body]
fn argon2_hash(password: &str) -> (hash: String)
    requires
        encode_utf8(password@).len() <= u32::MAX,
    ensures
        "$argon2id$"@.is_prefix_of(hash@),
        lanes_in_range(hash@),
        argon2_verifies(hash@, password@),
{
    let salt = SaltString::generate(&mut argon2::password_hash::rand_core::OsRng);
    argon2::Argon2::default().hash_password(password.as_bytes(), &salt).expect(
        "argon2 hashing failed",
    ).to_string()
}

/// Whether `given` is the password that `stored` stands for: an argon2 hash where it looks
/// like one, else the password itself.
pub open spec fn password_fits(stored: Seq<char>, given: Seq<char>) -> bool {
    if "$argon2"@.is_prefix_of(stored) {
        lanes_in_range(stored) && argon2_verifies(stored, given)
    } else {
        stored == given
    }
}

/// Checks a password.
pub fn password_ok(stored: &str, given: &str) -> (r: bool)
    ensures
        r == password_fits(stored@, given@),
{
    if text::has_prefix(stored, "$argon2") {
        lanes_fit(stored) && argon2_verify(stored, given)
    } else {
        text::same(stored, given)
    }
}

/// A hash to store in place of a password: the password fits it.
pub fn hash_password(password: &str) -> (hash: String)
    requires
        encode_utf8(password@).len() <= u32::MAX,
    ensures
        "$argon2id$"@.is_prefix_of(hash@),
        password_fits(hash@, password@),
{
    let hash = argon2_hash(password);
    proof {
        marked_as_argon2(hash@);
    }
    hash
}

proof fn marked_as_argon2(hash: Seq<char>)
    requires
        "$argon2id$"@.is_prefix_of(hash),
    ensures
        "$argon2"@.is_prefix_of(hash),
{
    reveal_strlit("$argon2");
    reveal_strlit("$argon2id$");
    assert forall|i: int| 0 <= i < 7 implies "$argon2"@[i] == hash[i] by {
        assert(hash.subrange(0, 10)[i] == hash[i]);
    }
    assert("$argon2"@ =~= hash.subrange(0, 7));
}

/// What begins like an argon2 hash is only ever verified as one, never compared as a plain
/// password: where argon2 does not verify a text against it, not even that very text fits it.
pub proof fn hashes_are_no_plain_passwords(stored: Seq<char>, given: Seq<char>)
    requires
        "$argon2"@.is_prefix_of(stored) || "$argon2id$"@.is_prefix_of(stored),
    ensures
        password_fits(stored, given) == (lanes_in_range(stored) && argon2_verifies(stored, given)),
        !argon2_verifies(stored, stored) ==> !password_fits(stored, stored),
{
    if "$argon2id$"@.is_prefix_of(stored) {
        marked_as_argon2(stored);
    }
}

/// The reply that asks for credentials.
pub open spec fn challenge_reply() -> errors::ReplyView {
    errors::error_reply(401, "UNAUTHORIZED"@, "authentication required"@).with(
        "www-authenticate"@,
        "Basic realm=\"breezy-registry\""@,
    )
}

/// Asks for credentials.
pub fn challenge() -> (r: Reply)
    ensures
        r@ == challenge_reply(),
{
    oci_error(401, "UNAUTHORIZED", "authentication required").with(
        "www-authenticate",
        "Basic realm=\"breezy-registry\"",
    )
}

/// What a base64 text in the standard alphabet, padded, decodes to.
pub uninterp spec fn base64_decoded(s: Seq<char>) -> Option<Seq<u8>>;

/// `base64::engine::general_purpose::STANDARD.decode`: the bytes that `s` encodes in the
/// standard alphabet with padding, or nothing where `s` is no such encoding.
#[verifier::external_body]
fn base64_decode(s: &str) -> (r: Option<Vec<u8>>)
    ensures
        match r {
            Some(bytes) => base64_decoded(s@) == Some(bytes@),
            None => base64_decoded(s@) is None,
        },
{
    base64::engine::general_purpose::STANDARD.decode(s).ok()
}

/// `String::from_utf8`: the text that `bytes` encode, if they are valid UTF-8.
#[verifier::external_body]
fn utf8_text(bytes: Vec<u8>) -> (r: Option<String>)
    ensures
        match r {
            Some(s) => valid_utf8(bytes@) && s@ == decode_utf8(bytes@),
            None => !valid_utf8(bytes@),
        },
{
    String::from_utf8(bytes).ok()
}

/// The first user of that name whose password fits.
pub open spec fn matching_user(users: Seq<UserCfg>, user: Seq<char>, pass: Seq<char>) -> Option<
    UserCfg,
>
    decreases users.len(),
{
    if users.len() == 0 {
        None
    } else if users[0].username@ == user && password_fits(users[0].password@, pass) {
        Some(users[0])
    } else {
        matching_user(users.skip(1), user, pass)
    }
}

fn find_user(users: &Vec<UserCfg>, user: &str, pass: &str) -> (r: Option<usize>)
    ensures
        match r {
            Some(i) => i < users@.len() && matching_user(users@, user@, pass@) == Some(
                users@[i as int],
            ),
            None => matching_user(users@, user@, pass@) is None,
        },
{
    let mut i: usize = 0;
    proof {
        assert(users@.skip(0) =~= users@);
    }
    while i < users.len()
        invariant
            i <= users@.len(),
            matching_user(users@.skip(i as int), user@, pass@) == matching_user(
                users@,
                user@,
                pass@,
            ),
        decreases users@.len() - i,
    {
        if text::same(users[i].username.as_str(), user) && password_ok(
            users[i].password.as_str(),
            pass,
        ) {
            return Some(i);
        }
        proof {
            assert(users@.skip(i as int).skip(1) =~= users@.skip(i + 1));
        }
        i += 1;
    }
    None
}

/// The identity behind `user:password` credentials, or nothing where no user fits.
pub open spec fn known_identity(users: Seq<UserCfg>, creds: Seq<char>) -> Option<
    (Seq<char>, Role),
> {
    match text::cut(creds, ':') {
        Some((user, pass)) => match matching_user(users, user, pass) {
            Some(u) => Some((u.username@, named_role(u.role@))),
            None => None,
        },
        None => None,
    }
}

/// The identity behind decoded credentials: UTF-8 text, `user:password`.
pub open spec fn decoded_identity(users: Seq<UserCfg>, decoded: Option<Seq<u8>>) -> Option<
    (Seq<char>, Role),
> {
    match decoded {
        Some(bytes) => if valid_utf8(bytes) {
            known_identity(users, decode_utf8(bytes))
        } else {
            None
        },
        None => None,
    }
}

/// Resolves decoded credentials; anything that names no user with its password is challenged.
pub fn identify(users: &Vec<UserCfg>, decoded: Option<Vec<u8>>) -> (r: Result<Identity, Reply>)
    ensures
        ({
            let bytes = match decoded {
                Some(b) => Some(b@),
                None => None,
            };
            match (r, decoded_identity(users@, bytes)) {
                (Ok(id), Some((name, role))) => text::opt_view(id.username) == Some(name) && id.role
                    == role,
                (Err(reply), None) => reply@ == challenge_reply(),
                _ => false,
            }
        }),
{
    let bytes = match decoded {
        Some(b) => b,
        None => return Err(challenge()),
    };
    let creds = match utf8_text(bytes) {
        Some(s) => s,
        None => return Err(challenge()),
    };
    match text::split_once(creds.as_str(), ':') {
        None => Err(challenge()),
        Some((user, pass)) => match find_user(users, user.as_str(), pass.as_str()) {
            Some(i) => Ok(
                Identity {
                    username: Some(users[i].username.clone()),
                    role: role_from_str(users[i].role.as_str()),
                },
            ),
            None => Err(challenge()),
        },
    }
}

/// What a request's `authorization` header resolves to: a name and a role, or a challenge.
pub open spec fn resolved(cfg: Config, header: Option<Seq<char>>) -> Option<
    (Option<Seq<char>>, Role),
> {
    if cfg.users@.len() == 0 {
        Some((Some("anonymous-admin"@), Role::Admin))
    } else {
        match header {
            None => Some((None, Role::Anonymous)),
            Some(h) => match text::after_prefix(h, "Basic "@) {
                Some(b64) => match decoded_identity(
                    cfg.users@,
                    base64_decoded(text::trimmed(b64)),
                ) {
                    Some((name, role)) => Some((Some(name), role)),
                    None => None,
                },
                None => None,
            },
        }
    }
}

/// Resolves a request's credentials into an identity. Only invalid credentials are rejected;
/// without credentials the caller is anonymous and each handler decides. With no users
/// configured everyone is admin.
pub fn middleware(cfg: &Config, header: Option<&str>) -> (r: Result<Identity, Reply>)
    ensures
        match (r, resolved(*cfg, text::opt_str(header))) {
            (Ok(id), Some((name, role))) => text::opt_view(id.username) == name && id.role == role,
            (Err(reply), None) => reply@ == challenge_reply(),
            _ => false,
        },
{
    if cfg.users.len() == 0 {
        return Ok(
            Identity { username: Some("anonymous-admin".to_owned()), role: Role::Admin },
        );
    }
    match header {
        None => Ok(Identity { username: None, role: Role::Anonymous }),
        Some(h) => match text::strip_prefix(h, "Basic ") {
            None => Err(challenge()),
            Some(b64) => {
                let trimmed = text::trim(b64.as_str());
                let decoded = base64_decode(trimmed.as_str());
                identify(&cfg.users, decoded)
            },
        },
    }
}

/// Whether a role may do what a request asks for.
pub open spec fn allowed(public_pull: bool, role: Role, action: Action) -> bool {
    match action {
        Action::Pull => public_pull || role.level() >= Role::Pull.level(),
        Action::Push => role.level() >= Role::Push.level(),
        Action::Admin => role.level() >= Role::Admin.level(),
    }
}

/// What a caller who is not allowed is told: callers without a name are asked for credentials.
pub open spec fn refusal(named: bool) -> errors::ReplyView {
    if named {
        errors::error_reply(403, "DENIED"@, "insufficient permissions"@)
    } else {
        challenge_reply()
    }
}

/// What authorization says of a request.
pub open spec fn denied(cfg: Config, id: Identity, action: Action) -> Option<errors::ReplyView> {
    if allowed(cfg.public_pull, id.role, action) {
        None
    } else {
        Some(refusal(id.username is Some))
    }
}

/// The single authorization decision point.
pub fn authorize(cfg: &Config, id: &Identity, action: Action) -> (r: Result<(), Reply>)
    ensures
        match r {
            Ok(_) => denied(*cfg, *id, action) is None,
            Err(reply) => denied(*cfg, *id, action) == Some(reply@),
        },
{
    let ok = match action {
        Action::Pull => cfg.public_pull || id.role.at_least(Role::Pull),
        Action::Push => id.role.at_least(Role::Push),
        Action::Admin => id.role.at_least(Role::Admin),
    };
    if ok {
        Ok(())
    } else if id.username.is_none() {
        Err(challenge())
    } else {
        Err(oci_error(403, "DENIED", "insufficient permissions"))
    }
}

/// The identity attached to a request; a request without one is anonymous.
pub fn identity_of(attached: Option<Identity>) -> (id: Identity)
    ensures
        match attached {
            Some(a) => id == a,
            None => id.username is None && id.role == Role::Anonymous,
        },
{
    match attached {
        Some(id) => id,
        None => Identity { username: None, role: Role::Anonymous },
    }
}

/// A higher role may do whatever a lower one may, and each action asks for no less than the
/// one before it: whoever may administer may push, and whoever may push may pull.
pub proof fn roles_grow(public_pull: bool, low: Role, high: Role, action: Action)
    requires
        low.level() <= high.level(),
    ensures
        allowed(public_pull, low, action) ==> allowed(public_pull, high, action),
        allowed(public_pull, low, Action::Admin) ==> allowed(public_pull, low, Action::Push),
        allowed(public_pull, low, Action::Push) ==> allowed(public_pull, low, Action::Pull),
{
}

/// With no users configured every request may do everything, whatever credentials it brings.
pub proof fn open_mode_allows_everything(cfg: Config, header: Option<Seq<char>>, action: Action)
    requires
        cfg.users@.len() == 0,
    ensures
        resolved(cfg, header) matches Some((name, role)) && name is Some && allowed(
            cfg.public_pull,
            role,
            action,
        ),
{
}

/// With users configured, a request without credentials may pull at most, and only where
/// pulling is public.
pub proof fn anonymous_never_pushes(cfg: Config, action: Action)
    requires
        cfg.users@.len() > 0,
    ensures
        resolved(cfg, None) == Some((None::<Seq<char>>, Role::Anonymous)),
        allowed(cfg.public_pull, Role::Anonymous, action) == (cfg.public_pull && action
            == Action::Pull),
{
}

/// Which roles may do what: `Push` and `Admin` may push, `Admin` alone may administer, and every
/// role but `Anonymous` may pull, as everybody may where pulling is public.
pub proof fn each_role_may_do_its_share(cfg: Config, id: Identity)
    ensures
        denied(cfg, id, Action::Push) is None <==> id.role == Role::Push || id.role == Role::Admin,
        denied(cfg, id, Action::Admin) is None <==> id.role == Role::Admin,
        denied(cfg, id, Action::Pull) is None <==> cfg.public_pull || id.role == Role::Pull
            || id.role == Role::Push || id.role == Role::Admin,
{
}

/// Who is refused learns why: a caller without a name gets status 401 and is asked for basic
/// credentials, a caller with a name gets status 403.
pub proof fn refusals_tell_who_is_known(cfg: Config, id: Identity, action: Action)
    ensures
        denied(cfg, id, action) matches Some(r) ==> {
            &&& id.username is None ==> r.status == 401 && r.body == errors::BodyView::Error(
                "UNAUTHORIZED"@,
                "authentication required"@,
            ) && r.headers.contains(("www-authenticate"@, "Basic realm=\"breezy-registry\""@))
            &&& id.username is Some ==> r.status == 403 && r.body == errors::BodyView::Error(
                "DENIED"@,
                "insufficient permissions"@,
            )
        },
        challenge_reply().status == 401,
{
    let r = challenge_reply();
    assert(r.headers[1] == ("www-authenticate"@, "Basic realm=\"breezy-registry\""@));
}

/// The roles that a setting can name: `admin`, `pull`, and with any other word `push`. None
/// makes a user anonymous.
pub proof fn settings_name_roles(s: Seq<char>)
    ensures
        named_role(s) == Role::Admin <==> s == "admin"@,
        named_role(s) == Role::Pull <==> s == "pull"@,
        named_role(s) == Role::Push <==> s != "admin"@ && s != "pull"@,
{
    reveal_strlit("admin");
    reveal_strlit("pull");
    assert("admin"@.len() != "pull"@.len());
}

/// A password that is not stored as an argon2 hash fits exactly itself. One that is fits what
/// argon2 verifies, unless the hash gives the number of its lanes in more than eight digits.
pub proof fn passwords_fit_what_is_stored(stored: Seq<char>, given: Seq<char>)
    ensures
        !"$argon2"@.is_prefix_of(stored) ==> (password_fits(stored, given) <==> stored == given),
        "$argon2"@.is_prefix_of(stored) && !(exists|i: int, j: int|
            0 <= i < text::pieces(stored, '$').len() && 0 <= j < text::pieces(
                text::pieces(stored, '$')[i],
                ',',
            ).len() && "p="@.is_prefix_of(
                #[trigger] text::pieces(text::pieces(stored, '$')[i], ',')[j],
            ) && text::pieces(text::pieces(stored, '$')[i], ',')[j].len() > 10) ==> (password_fits(
            stored,
            given,
        ) <==> argon2_verifies(stored, given)),
        "$argon2"@.is_prefix_of(stored) && (exists|i: int, j: int|
            0 <= i < text::pieces(stored, '$').len() && 0 <= j < text::pieces(
                text::pieces(stored, '$')[i],
                ',',
            ).len() && "p="@.is_prefix_of(
                #[trigger] text::pieces(text::pieces(stored, '$')[i], ',')[j],
            ) && text::pieces(text::pieces(stored, '$')[i], ',')[j].len() > 10) ==> !password_fits(
            stored,
            given,
        ),
{
}

proof fn matching_is_first(users: Seq<UserCfg>, user: Seq<char>, pass: Seq<char>)
    ensures
        match matching_user(users, user, pass) {
            Some(u) => exists|i: int|
                0 <= i < users.len() && #[trigger] users[i] == u && u.username@ == user
                    && password_fits(u.password@, pass) && forall|j: int|
                    0 <= j < i ==> (#[trigger] users[j]).username@ != user || !password_fits(
                        users[j].password@,
                        pass,
                    ),
            None => forall|j: int|
                0 <= j < users.len() ==> (#[trigger] users[j]).username@ != user || !password_fits(
                    users[j].password@,
                    pass,
                ),
        },
    decreases users.len(),
{
    if users.len() > 0 {
        let rest = users.skip(1);
        if users[0].username@ == user && password_fits(users[0].password@, pass) {
            assert(users[0] == users[0]);
        } else {
            matching_is_first(rest, user, pass);
            assert forall|j: int| 0 < j < users.len() implies #[trigger] users[j] == rest[j - 1] by {
            }
            if let Some(u) = matching_user(rest, user, pass) {
                let i = choose|i: int|
                    0 <= i < rest.len() && #[trigger] rest[i] == u && u.username@ == user
                        && password_fits(u.password@, pass) && forall|j: int|
                        0 <= j < i ==> (#[trigger] rest[j]).username@ != user || !password_fits(
                            rest[j].password@,
                            pass,
                        );
                assert(users[i + 1] == u);
                assert forall|j: int| 0 <= j < i + 1 implies (#[trigger] users[j]).username@ != user
                    || !password_fits(users[j].password@, pass) by {
                    if j > 0 {
                        assert(users[j] == rest[j - 1]);
                    }
                }
            }
        }
    }
}

/// Credentials resolve to the first user with that name whose password fits, under that name and
/// in the role that the user's setting names; where there is no such user they are challenged.
/// The name ends at the first colon, and the password may hold more of them.
pub proof fn credentials_resolve_to_a_user(
    cfg: Config,
    b64: Seq<char>,
    bytes: Seq<u8>,
    user: Seq<char>,
    pass: Seq<char>,
)
    requires
        cfg.users@.len() > 0,
        !user.contains(':'),
        base64_decoded(text::trimmed(b64)) == Some(bytes),
        valid_utf8(bytes),
        decode_utf8(bytes) == user + seq![':'] + pass,
    ensures
        match resolved(cfg, Some("Basic "@ + b64)) {
            Some((name, role)) => name == Some(user) && exists|i: int|
                0 <= i < cfg.users@.len() && (#[trigger] cfg.users@[i]).username@ == user
                    && password_fits(cfg.users@[i].password@, pass) && role == (if cfg.users@[i].role@
                    == "admin"@ {
                    Role::Admin
                } else if cfg.users@[i].role@ == "pull"@ {
                    Role::Pull
                } else {
                    Role::Push
                }) && forall|j: int|
                    0 <= j < i ==> (#[trigger] cfg.users@[j]).username@ != user || !password_fits(
                        cfg.users@[j].password@,
                        pass,
                    ),
            None => forall|j: int|
                0 <= j < cfg.users@.len() ==> (#[trigger] cfg.users@[j]).username@ != user
                    || !password_fits(cfg.users@[j].password@, pass),
        },
{
    text::what_is_stripped_comes_off("Basic "@ + b64, "Basic "@, b64);
    text::a_cut_takes_out_the_first(user, pass, ':');
    matching_is_first(cfg.users@, user, pass);
    if let Some(u) = matching_user(cfg.users@, user, pass) {
        let i = choose|i: int|
            0 <= i < cfg.users@.len() && #[trigger] cfg.users@[i] == u && u.username@ == user
                && password_fits(u.password@, pass) && forall|j: int|
                0 <= j < i ==> (#[trigger] cfg.users@[j]).username@ != user || !password_fits(
                    cfg.users@[j].password@,
                    pass,
                );
        assert(cfg.users@[i].username@ == user);
    }
}

/// Anything else than basic credentials, and credentials that are not base64, not UTF-8 or have
/// no colon, are challenged.
pub proof fn other_credentials_are_challenged(cfg: Config, header: Seq<char>, b64: Seq<char>)
    requires
        cfg.users@.len() > 0,
    ensures
        !"Basic "@.is_prefix_of(header) ==> resolved(cfg, Some(header)) is None,
        base64_decoded(text::trimmed(b64)) is None ==> resolved(cfg, Some("Basic "@ + b64)) is None,
        base64_decoded(text::trimmed(b64)) matches Some(bytes) && !(valid_utf8(bytes)
            && decode_utf8(bytes).contains(':')) ==> resolved(cfg, Some("Basic "@ + b64)) is None,
{
    text::what_is_stripped_comes_off("Basic "@ + b64, "Basic "@, b64);
    if let Some(bytes) = base64_decoded(text::trimmed(b64)) {
        let creds = decode_utf8(bytes);
        if !creds.contains(':') {
            text::a_cut_takes_out_the_first(creds, creds, ':');
        }
    }
}

/// With no users configured every caller is `anonymous-admin` with the role `Admin`.
pub proof fn open_mode_makes_everybody_admin(cfg: Config, header: Option<Seq<char>>)
    requires
        cfg.users@.len() == 0,
    ensures
        resolved(cfg, header) == Some((Some("anonymous-admin"@), Role::Admin)),
{
}

} // verus!
