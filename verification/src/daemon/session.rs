//! Serving one connection: which Vault a request names, where its members are looked for, and
//! whether the caller is admitted.
//!
//! The order is what makes a name mean anything. The handshake proves a key; which Vault the
//! request names is read after it; and the name the Workspace sends is only a label, so the member
//! that label finds must be the identity that was proved before the action runs.
use vstd::prelude::*;

use crate::auth::error::{auth_error_text, Error as AuthError};
use crate::auth::identity::KeyLocateRule;
use crate::auth::key::PublicKey;
use crate::protocol::address::{chars_of, text_of};
use crate::protocol::error::{action_error_text, ActionError};
use crate::text::push_text;

verus! {

/// What went wrong while serving one connection.
#[derive(Debug)]
pub enum SessionError {
    /// The peer could not be handshaken with.
    Handshake(AuthError),
    /// The request could not be read, or the confirmation written.
    Exchange(ActionError),
    /// A member's public key could not be read from the file it names.
    Key(AuthError),
    /// No member this Vault knows is named as the caller.
    UnknownMember(String),
    /// The request names a Vault this daemon does not serve.
    UnknownVault(String),
    /// The member the caller named is not the identity it proved.
    IdentityMismatch(String),
    /// The action itself failed.
    Action(ActionError),
}

/// How a session failure is written out: what went wrong, and then what the failure under it
/// said, where there is one.
pub open spec fn session_error_text(error: SessionError) -> Seq<char> {
    match error {
        SessionError::Handshake(source) => "the handshake failed: "@ + auth_error_text(source),
        SessionError::Exchange(source) => "the request could not be answered: "@ + action_error_text(
            source,
        ),
        SessionError::Key(source) => "a member's key could not be read: "@ + auth_error_text(source),
        SessionError::UnknownMember(name) => "no member is named "@ + name@,
        SessionError::UnknownVault(name) => "no Vault is served under "@ + name@,
        SessionError::IdentityMismatch(name) => "the peer is not the member it named ("@ + name@
            + ")"@,
        SessionError::Action(source) => "the action failed: "@ + action_error_text(source),
    }
}

impl SessionError {
    /// The failure written out as a sentence.
    pub fn to_string(&self) -> (text: String)
        ensures
            text@ == session_error_text(*self),
    {
        let mut text = String::new();
        match self {
            SessionError::Handshake(source) => {
                push_text(&mut text, "the handshake failed: ");
                push_text(&mut text, source.to_string().as_str());
            },
            SessionError::Exchange(source) => {
                push_text(&mut text, "the request could not be answered: ");
                push_text(&mut text, source.to_string().as_str());
            },
            SessionError::Key(source) => {
                push_text(&mut text, "a member's key could not be read: ");
                push_text(&mut text, source.to_string().as_str());
            },
            SessionError::UnknownMember(name) => {
                push_text(&mut text, "no member is named ");
                push_text(&mut text, name.as_str());
            },
            SessionError::UnknownVault(name) => {
                push_text(&mut text, "no Vault is served under ");
                push_text(&mut text, name.as_str());
            },
            SessionError::IdentityMismatch(name) => {
                push_text(&mut text, "the peer is not the member it named (");
                push_text(&mut text, name.as_str());
                push_text(&mut text, ")");
            },
            SessionError::Action(source) => {
                push_text(&mut text, "the action failed: ");
                push_text(&mut text, source.to_string().as_str());
            },
        }
        text
    }
}

impl From<AuthError> for SessionError {
    fn from(source: AuthError) -> (error: SessionError)
        ensures
            error == SessionError::Handshake(source),
    {
        SessionError::Handshake(source)
    }
}

impl vstd::std_specs::convert::FromSpecImpl<AuthError> for SessionError {
    open spec fn obeys_from_spec() -> bool {
        true
    }

    open spec fn from_spec(source: AuthError) -> SessionError {
        SessionError::Handshake(source)
    }
}

/// Whether the caller is admitted: the member its account names must be found, its key must
/// read, and that key must be the identity the handshake proved.
///
/// `member_key` is what looking the account up came to: nothing where no member is named so,
/// and otherwise what reading the member's key gave.
pub fn admission(account: &str, member_key: Option<Result<PublicKey, AuthError>>, peer: &PublicKey) -> (admitted:
    Result<(), SessionError>)
    ensures
        member_key is None ==> (admitted matches Err(SessionError::UnknownMember(name)) && name@
            == account@),
        member_key matches Some(Err(failure)) ==> admitted == Err::<(), SessionError>(
            SessionError::Key(failure),
        ),
        member_key matches Some(Ok(key)) ==> (admitted is Ok <==> key@ == peer@),
        member_key matches Some(Ok(key)) ==> (key@ != peer@ ==> (admitted matches Err(
            SessionError::IdentityMismatch(name),
        ) && name@ == account@)),
{
    match member_key {
        None => Err(SessionError::UnknownMember(account.to_owned())),
        Some(Err(failure)) => Err(SessionError::Key(failure)),
        Some(Ok(key)) => {
            if key.same_as(peer) {
                Ok(())
            } else {
                Err(SessionError::IdentityMismatch(account.to_owned()))
            }
        },
    }
}

/// The directory the Vaults a root holds sit in, under the root.
pub const VAULTS_DIR: &'static str = "vaults";

/// `text` without the `/` it starts with.
pub open spec fn without_leading_slashes(text: Seq<char>) -> Seq<char>
    decreases text.len(),
{
    if text.len() > 0 && text[0] == '/' {
        without_leading_slashes(text.drop_first())
    } else {
        text
    }
}

/// `text` without the `/` it ends with.
pub open spec fn without_trailing_slashes(text: Seq<char>) -> Seq<char>
    decreases text.len(),
{
    if text.len() > 0 && text.last() == '/' {
        without_trailing_slashes(text.drop_last())
    } else {
        text
    }
}

/// `text` without the `/` at either end.
pub open spec fn trimmed_slashes(text: Seq<char>) -> Seq<char> {
    without_trailing_slashes(without_leading_slashes(text))
}

/// What `/` reaches a Vault's name through: the Vaults directory and a separator.
pub open spec fn vaults_prefix() -> Seq<char> {
    seq!['v', 'a', 'u', 'l', 't', 's', '/']
}

/// Which Vault a request's `sub` names.
#[derive(Debug)]
pub enum VaultChoice {
    /// The Vault the daemon serves itself.
    Own,
    /// A Vault under the root, looked for first at the path `sub` names under the root, and then
    /// under the name the root holds it as, in the Vaults directory.
    Under(String, String),
}

/// Which Vault `sub` names: with the `/` at either end taken off, nothing and `.` name the Vault
/// the daemon serves itself, and anything else names one under the root, as the path it sits at
/// or the name it is held under.
pub fn vault_choice(sub: &str) -> (choice: VaultChoice)
    ensures
        (trimmed_slashes(sub@).len() == 0 || trimmed_slashes(sub@) == seq!['.']) ==> choice is Own,
        !(trimmed_slashes(sub@).len() == 0 || trimmed_slashes(sub@) == seq!['.']) ==> (
        choice matches VaultChoice::Under(path, named) && path@ == trimmed_slashes(sub@) && named@
            == vaults_prefix() + trimmed_slashes(sub@)),
{
    let chars = chars_of(sub);
    let n = chars.len();
    let mut from: usize = 0;
    assert(chars@.skip(0) =~= sub@);
    while from < n && chars[from] == '/'
        invariant
            from <= n,
            n == chars@.len(),
            without_leading_slashes(sub@) == without_leading_slashes(chars@.skip(from as int)),
        decreases n - from,
    {
        assert(chars@.skip(from as int).drop_first() =~= chars@.skip(from + 1));
        from = from + 1;
    }
    let ghost lead = chars@.skip(from as int);
    assert(without_leading_slashes(lead) == lead);
    let mut to: usize = n;
    assert(lead =~= chars@.subrange(from as int, to as int));
    while to > from && chars[to - 1] == '/'
        invariant
            from <= to <= n,
            n == chars@.len(),
            trimmed_slashes(sub@) == without_trailing_slashes(chars@.subrange(from as int, to as int)),
        decreases to - from,
    {
        assert(chars@.subrange(from as int, to as int).drop_last() =~= chars@.subrange(
            from as int,
            to - 1,
        ));
        to = to - 1;
    }
    let ghost trimmed = chars@.subrange(from as int, to as int);
    assert(without_trailing_slashes(trimmed) == trimmed);
    if to == from || (to - from == 1 && chars[from] == '.') {
        proof {
            if to - from == 1 {
                assert(trimmed =~= seq!['.']);
            }
        }
        return VaultChoice::Own;
    }
    proof {
        if trimmed == seq!['.'] {
            assert(trimmed[0] == chars@[from as int]);
        }
    }
    let path = text_of(&chars.as_slice()[from..to]);
    let mut named = String::new();
    push_text(&mut named, "vaults/");
    proof {
        reveal_strlit("vaults/");
    }
    push_text(&mut named, path.as_str());
    assert(named@ =~= vaults_prefix() + trimmed);
    VaultChoice::Under(path, named)
}

/// A place a Vault's configuration names for its members to be looked for in.
#[derive(Debug, Clone, Copy, PartialEq, Eq, Structural)]
pub enum Place {
    /// The keys directory every user of the machine shares.
    System,
    /// The user's own keys directory.
    User,
    /// The keys directory the environment names.
    Env,
    /// The Vault's own keys directory.
    Vault,
    /// The keys directory of the root the Vault sits under.
    RootVault,
}

/// The directories `places` name, in their order: the machine's, the user's and the
/// environment's where each is known (`system`, `user`, `env`), and the Vault's and its root's
/// keys directories (`vault_keys`, `root_keys`).
pub open spec fn roots_of(
    places: Seq<Place>,
    system: Option<Seq<char>>,
    user: Option<Seq<char>>,
    env: Option<Seq<char>>,
    vault_keys: Seq<char>,
    root_keys: Seq<char>,
) -> Seq<Seq<char>>
    decreases places.len(),
{
    if places.len() == 0 {
        Seq::empty()
    } else {
        let before = roots_of(places.drop_last(), system, user, env, vault_keys, root_keys);
        let known = |dir: Option<Seq<char>>|
            match dir {
                Some(d) => seq![d],
                None => Seq::empty(),
            };
        before + match places.last() {
            Place::System => known(system),
            Place::User => known(user),
            Place::Env => known(env),
            Place::Vault => seq![vault_keys],
            Place::RootVault => seq![root_keys],
        }
    }
}

/// The directories of places named one after another are the directories of each, one after
/// another.
pub proof fn lemma_roots_of_join(
    front: Seq<Place>,
    back: Seq<Place>,
    system: Option<Seq<char>>,
    user: Option<Seq<char>>,
    env: Option<Seq<char>>,
    vault_keys: Seq<char>,
    root_keys: Seq<char>,
)
    ensures
        roots_of(front + back, system, user, env, vault_keys, root_keys) == roots_of(
            front,
            system,
            user,
            env,
            vault_keys,
            root_keys,
        ) + roots_of(back, system, user, env, vault_keys, root_keys),
    decreases back.len(),
{
    if back.len() == 0 {
        assert(front + back =~= front);
        assert(roots_of(back, system, user, env, vault_keys, root_keys) =~= Seq::<Seq<char>>::empty());
        assert(roots_of(front, system, user, env, vault_keys, root_keys) + Seq::<Seq<char>>::empty()
            =~= roots_of(front, system, user, env, vault_keys, root_keys));
    } else {
        lemma_roots_of_join(front, back.drop_last(), system, user, env, vault_keys, root_keys);
        assert((front + back).drop_last() =~= front + back.drop_last());
        assert((front + back).last() == back.last());
        let a = roots_of(front, system, user, env, vault_keys, root_keys);
        let b = roots_of(back.drop_last(), system, user, env, vault_keys, root_keys);
        let c = roots_of(front + back, system, user, env, vault_keys, root_keys)
            .subrange((a.len() + b.len()) as int, roots_of(front + back, system, user, env, vault_keys, root_keys).len() as int);
        assert(roots_of(front + back, system, user, env, vault_keys, root_keys) =~= a + (b + c));
        assert(roots_of(back, system, user, env, vault_keys, root_keys) =~= b + c);
    }
}

/// Each place names its own directory: the machine's keys for `System`, the user's for `User`,
/// the one the environment names for `Env` (nothing where a directory is not known), the
/// Vault's own keys for `Vault` and its root's for `RootVault`; and the places a configuration
/// names, one after another, name their directories one after another.
pub proof fn lemma_each_place_names_its_directory(
    places: Seq<Place>,
    more: Seq<Place>,
    system: Option<Seq<char>>,
    user: Option<Seq<char>>,
    env: Option<Seq<char>>,
    vault_keys: Seq<char>,
    root_keys: Seq<char>,
)
    ensures
        roots_of(seq![Place::System], system, user, env, vault_keys, root_keys) == (match system {
            Some(d) => seq![d],
            None => Seq::<Seq<char>>::empty(),
        }),
        roots_of(seq![Place::User], system, user, env, vault_keys, root_keys) == (match user {
            Some(d) => seq![d],
            None => Seq::<Seq<char>>::empty(),
        }),
        roots_of(seq![Place::Env], system, user, env, vault_keys, root_keys) == (match env {
            Some(d) => seq![d],
            None => Seq::<Seq<char>>::empty(),
        }),
        roots_of(seq![Place::Vault], system, user, env, vault_keys, root_keys) == seq![vault_keys],
        roots_of(seq![Place::RootVault], system, user, env, vault_keys, root_keys) == seq![root_keys],
        roots_of(Seq::empty(), system, user, env, vault_keys, root_keys) == Seq::<Seq<char>>::empty(),
        roots_of(places + more, system, user, env, vault_keys, root_keys) == roots_of(
            places,
            system,
            user,
            env,
            vault_keys,
            root_keys,
        ) + roots_of(more, system, user, env, vault_keys, root_keys),
{
    lemma_roots_of_join(places, more, system, user, env, vault_keys, root_keys);
    let none = Seq::<Place>::empty();
    assert(roots_of(none, system, user, env, vault_keys, root_keys) =~= Seq::<Seq<char>>::empty());
    assert(seq![Place::System].drop_last() =~= none);
    assert(seq![Place::System].last() == Place::System);
    assert(seq![Place::User].drop_last() =~= none);
    assert(seq![Place::Env].drop_last() =~= none);
    assert(seq![Place::Vault].drop_last() =~= none);
    assert(seq![Place::RootVault].drop_last() =~= none);
    assert(roots_of(seq![Place::System], system, user, env, vault_keys, root_keys) =~= (match system {
        Some(d) => seq![d],
        None => Seq::<Seq<char>>::empty(),
    }));
    assert(roots_of(seq![Place::User], system, user, env, vault_keys, root_keys) =~= (match user {
        Some(d) => seq![d],
        None => Seq::<Seq<char>>::empty(),
    }));
    assert(roots_of(seq![Place::Env], system, user, env, vault_keys, root_keys) =~= (match env {
        Some(d) => seq![d],
        None => Seq::<Seq<char>>::empty(),
    }));
    assert(roots_of(seq![Place::Vault], system, user, env, vault_keys, root_keys) =~= seq![vault_keys]);
    assert(roots_of(seq![Place::RootVault], system, user, env, vault_keys, root_keys) =~= seq![root_keys]);
}

/// The views of a list of texts.
pub open spec fn texts(list: Seq<String>) -> Seq<Seq<char>> {
    list.map_values(|text: String| text@)
}

/// The view of a text that may not be known.
pub open spec fn maybe_text(text: Option<String>) -> Option<Seq<char>> {
    match text {
        Some(t) => Some(t@),
        None => None,
    }
}

/// The directories a member is looked for in, in the order the configuration names the places.
///
/// A place whose directory is not known here — a user with no home, an environment that names
/// none — adds nothing.
pub fn member_roots(
    places: &[Place],
    system: &Option<String>,
    user: &Option<String>,
    env: &Option<String>,
    vault_keys: &str,
    root_keys: &str,
) -> (roots: Vec<String>)
    ensures
        texts(roots@) == roots_of(
            places@,
            maybe_text(*system),
            maybe_text(*user),
            maybe_text(*env),
            vault_keys@,
            root_keys@,
        ),
{
    let ghost spec_roots = |k: int|
        roots_of(
            places@.take(k),
            maybe_text(*system),
            maybe_text(*user),
            maybe_text(*env),
            vault_keys@,
            root_keys@,
        );
    let mut roots: Vec<String> = Vec::new();
    let mut i: usize = 0;
    assert(places@.take(0) =~= Seq::<Place>::empty());
    assert(texts(roots@) =~= Seq::<Seq<char>>::empty());
    while i < places.len()
        invariant
            i <= places@.len(),
            texts(roots@) == spec_roots(i as int),
            spec_roots == (|k: int|
                roots_of(
                    places@.take(k),
                    maybe_text(*system),
                    maybe_text(*user),
                    maybe_text(*env),
                    vault_keys@,
                    root_keys@,
                )),
        decreases places.len() - i,
    {
        assert(places@.take(i + 1).drop_last() =~= places@.take(i as int));
        assert(places@.take(i + 1).last() == places@[i as int]);
        let ghost before = roots@;
        let dir: Option<String> = match places[i] {
            Place::System => match system {
                Some(d) => Some(d.clone()),
                None => None,
            },
            Place::User => match user {
                Some(d) => Some(d.clone()),
                None => None,
            },
            Place::Env => match env {
                Some(d) => Some(d.clone()),
                None => None,
            },
            Place::Vault => Some(vault_keys.to_owned()),
            Place::RootVault => Some(root_keys.to_owned()),
        };
        match dir {
            Some(d) => {
                roots.push(d);
            },
            None => {},
        }
        assert(texts(roots@) =~= spec_roots(i + 1));
        i = i + 1;
    }
    assert(places@.take(i as int) =~= places@);
    roots
}

/// The rule members are searched for under: the directories handed to the search and nothing
/// else, since a scope turned on in the rule as well would name its directory a second time.
pub fn member_rule() -> (rule: KeyLocateRule)
    ensures
        rule.find_local,
        !rule.find_global,
        !rule.find_user,
        !rule.find_env,
{
    KeyLocateRule { find_global: false, find_local: true, find_user: false, find_env: false }
}

} // verus!
