//! Who an action is run as and who it is run with: the accounts a Workspace proves itself by,
//! the members a Vault knows, and where their keys are looked for.
use vstd::prelude::*;

use super::key::PublicKey;
use crate::storage::store::copy_path;

verus! {

/// Where keys are looked for.
#[derive(Debug, Clone, PartialEq, Eq, Structural)]
pub struct KeyLocateRule {
    /// Whether the directory at the root of the filesystem is looked in.
    pub find_global: bool,
    /// Whether the Workspace's and the Vault's own key directories are looked in.
    pub find_local: bool,
    /// Whether the user's data directory is looked in.
    pub find_user: bool,
    /// Whether the directory `ROLA_HOME` names is looked in.
    pub find_env: bool,
}

impl KeyLocateRule {
    /// A rule that looks everywhere.
    pub fn new() -> (rule: KeyLocateRule)
        ensures
            rule == (KeyLocateRule { find_global: true, find_local: true, find_user: true, find_env: true }),
    {
        KeyLocateRule { find_global: true, find_local: true, find_user: true, find_env: true }
    }

    /// Whether the directory at the root of the filesystem is looked in.
    pub fn find_global(&self) -> (find: bool)
        ensures
            find == self.find_global,
    {
        self.find_global
    }

    /// Says whether the directory at the root of the filesystem is looked in.
    pub fn set_find_global(&mut self, value: bool)
        ensures
            *final(self) == (KeyLocateRule { find_global: value, ..*old(self) }),
    {
        self.find_global = value;
    }

    /// Whether the Workspace's and the Vault's own key directories are looked in.
    pub fn find_local(&self) -> (find: bool)
        ensures
            find == self.find_local,
    {
        self.find_local
    }

    /// Says whether the Workspace's and the Vault's own key directories are looked in.
    pub fn set_find_local(&mut self, value: bool)
        ensures
            *final(self) == (KeyLocateRule { find_local: value, ..*old(self) }),
    {
        self.find_local = value;
    }

    /// Whether the user's data directory is looked in.
    pub fn find_user(&self) -> (find: bool)
        ensures
            find == self.find_user,
    {
        self.find_user
    }

    /// Says whether the user's data directory is looked in.
    pub fn set_find_user(&mut self, value: bool)
        ensures
            *final(self) == (KeyLocateRule { find_user: value, ..*old(self) }),
    {
        self.find_user = value;
    }

    /// Whether the directory `ROLA_HOME` names is looked in.
    pub fn find_env(&self) -> (find: bool)
        ensures
            find == self.find_env,
    {
        self.find_env
    }

    /// Says whether the directory `ROLA_HOME` names is looked in.
    pub fn set_find_env(&mut self, value: bool)
        ensures
            *final(self) == (KeyLocateRule { find_env: value, ..*old(self) }),
    {
        self.find_env = value;
    }
}

impl Default for KeyLocateRule {
    /// A rule that looks everywhere.
    fn default() -> (rule: KeyLocateRule)
        ensures
            rule == (KeyLocateRule { find_global: true, find_local: true, find_user: true, find_env: true }),
    {
        KeyLocateRule::new()
    }
}

/// A place keys are looked for in.
#[derive(Debug, Clone, Copy, PartialEq, Eq, Structural)]
pub enum Scope {
    /// The current Workspace's key directory.
    Workspace,
    /// The current Vault's key directory.
    Vault,
    /// The user's data directory.
    User,
    /// The directory at the root of the filesystem.
    Global,
    /// The directory `ROLA_HOME` names.
    Env,
}

/// The places a member's key is looked for under `rule`, nearest first: the Workspace's and the
/// Vault's own, then the user's, the global one, and the one the environment names.
pub open spec fn member_scopes_of(rule: KeyLocateRule) -> Seq<Scope> {
    (if rule.find_local { seq![Scope::Workspace, Scope::Vault] } else { Seq::empty() })
        + (if rule.find_user { seq![Scope::User] } else { Seq::empty() })
        + (if rule.find_global { seq![Scope::Global] } else { Seq::empty() })
        + (if rule.find_env { seq![Scope::Env] } else { Seq::empty() })
}

/// The places a member's key is looked for under `rule`, nearest first.
///
/// A place that is not there (no Workspace, no Vault, no data directory, nothing in the
/// environment) is passed over by whoever turns these into directories.
pub fn member_scopes(rule: &KeyLocateRule) -> (scopes: Vec<Scope>)
    ensures
        scopes@ == member_scopes_of(*rule),
{
    let mut scopes: Vec<Scope> = Vec::new();
    if rule.find_local {
        scopes.push(Scope::Workspace);
        scopes.push(Scope::Vault);
    }
    if rule.find_user {
        scopes.push(Scope::User);
    }
    if rule.find_global {
        scopes.push(Scope::Global);
    }
    if rule.find_env {
        scopes.push(Scope::Env);
    }
    assert(scopes@ =~= member_scopes_of(*rule));
    scopes
}

/// How near a place is, the nearest first: the Workspace's own, the Vault's own, the user's, the
/// global one, then the one the environment names.
pub open spec fn scope_rank(scope: Scope) -> int {
    match scope {
        Scope::Workspace => 0,
        Scope::Vault => 1,
        Scope::User => 2,
        Scope::Global => 3,
        Scope::Env => 4,
    }
}

/// A member's key is looked for in a place exactly when the rule turns that place on: the
/// Workspace's and the Vault's own under `find_local`, the user's under `find_user`, the global
/// one under `find_global` and the environment's under `find_env`; each place once, nearest
/// first.
pub proof fn lemma_member_scopes_follow_the_rule(rule: KeyLocateRule)
    ensures
        member_scopes_of(rule).contains(Scope::Workspace) <==> rule.find_local,
        member_scopes_of(rule).contains(Scope::Vault) <==> rule.find_local,
        member_scopes_of(rule).contains(Scope::User) <==> rule.find_user,
        member_scopes_of(rule).contains(Scope::Global) <==> rule.find_global,
        member_scopes_of(rule).contains(Scope::Env) <==> rule.find_env,
        forall|i: int, j: int|
            0 <= i < j < member_scopes_of(rule).len() ==> scope_rank(member_scopes_of(rule)[i]) < scope_rank(
                member_scopes_of(rule)[j],
            ),
{
    let local = if rule.find_local { seq![Scope::Workspace, Scope::Vault] } else { Seq::<Scope>::empty() };
    let user = if rule.find_user { seq![Scope::User] } else { Seq::<Scope>::empty() };
    let global = if rule.find_global { seq![Scope::Global] } else { Seq::<Scope>::empty() };
    let env = if rule.find_env { seq![Scope::Env] } else { Seq::<Scope>::empty() };
    let all = member_scopes_of(rule);
    assert(all == local + user + global + env);
    assert forall|scope: Scope| all.contains(scope) <==> (local.contains(scope) || user.contains(scope)
        || global.contains(scope) || env.contains(scope)) by {
        if all.contains(scope) {
            let k = choose|k: int| 0 <= k < all.len() && all[k] == scope;
            if k < local.len() {
                assert(local[k] == scope);
            } else if k < local.len() + user.len() {
                assert(user[k - local.len()] == scope);
            } else if k < local.len() + user.len() + global.len() {
                assert(global[k - local.len() - user.len()] == scope);
            } else {
                assert(env[k - local.len() - user.len() - global.len()] == scope);
            }
        }
        if local.contains(scope) {
            let k = choose|k: int| 0 <= k < local.len() && local[k] == scope;
            assert(all[k] == scope);
        }
        if user.contains(scope) {
            assert(all[local.len() as int] == scope);
        }
        if global.contains(scope) {
            assert(all[(local.len() + user.len()) as int] == scope);
        }
        if env.contains(scope) {
            assert(all[(local.len() + user.len() + global.len()) as int] == scope);
        }
    }
    if rule.find_local {
        assert(local[0] == Scope::Workspace && local[1] == Scope::Vault);
    }
    if rule.find_user {
        assert(user[0] == Scope::User);
    }
    if rule.find_global {
        assert(global[0] == Scope::Global);
    }
    if rule.find_env {
        assert(env[0] == Scope::Env);
    }
    assert forall|i: int, j: int| 0 <= i < j < all.len() implies scope_rank(all[i]) < scope_rank(all[j]) by {
        assert(forall|k: int| 0 <= k < local.len() ==> #[trigger] all[k] == local[k]);
        assert(forall|k: int| 0 <= k < local.len() ==> scope_rank(#[trigger] local[k]) == k);
        assert(forall|k: int|
            local.len() <= k < local.len() + user.len() ==> #[trigger] all[k] == Scope::User);
        assert(forall|k: int|
            local.len() + user.len() <= k < local.len() + user.len() + global.len() ==> #[trigger] all[k]
                == Scope::Global);
        assert(forall|k: int|
            local.len() + user.len() + global.len() <= k < all.len() ==> #[trigger] all[k] == Scope::Env);
    }
}

/// The places an account's key is looked for under `rule`: only the Workspace's and the
/// Vault's own, since a private key is not one to go looking for elsewhere.
pub fn account_scopes(rule: &KeyLocateRule) -> (scopes: Vec<Scope>)
    ensures
        scopes@ == (if rule.find_local { seq![Scope::Workspace, Scope::Vault] } else { Seq::empty() }),
{
    let mut scopes: Vec<Scope> = Vec::new();
    if rule.find_local {
        scopes.push(Scope::Workspace);
        scopes.push(Scope::Vault);
    }
    assert(scopes@ =~= (if rule.find_local { seq![Scope::Workspace, Scope::Vault] } else { Seq::<Scope>::empty() }));
    scopes
}

/// The names `names` stand for.
pub open spec fn names_of(names: Seq<String>) -> Seq<Seq<char>> {
    names.map_values(|n: String| n@)
}

/// Whether the name at `at` is the first time it appears in `names`.
pub open spec fn first_of_name(names: Seq<Seq<char>>, at: int) -> bool {
    forall|earlier: int| 0 <= earlier < at ==> names[earlier] != names[at]
}

/// Which of `names`, the names of what was found in the places looked in, nearest place first,
/// are kept: the first of each name, since a nearer place speaks for a name over a further one.
pub fn merged(names: &Vec<String>) -> (kept: Vec<usize>)
    ensures
        forall|i: int, j: int| 0 <= i < j < kept@.len() ==> kept@[i] < kept@[j],
        forall|i: int| 0 <= i < kept@.len() ==> (#[trigger] kept@[i]) < names@.len() && first_of_name(
            names_of(names@),
            kept@[i] as int,
        ),
        forall|at: int|
            0 <= at < names@.len() && #[trigger] first_of_name(names_of(names@), at)
                ==> kept@.contains(at as usize),
{
    let ghost all = names_of(names@);
    let mut kept: Vec<usize> = Vec::new();
    let mut at: usize = 0;
    while at < names.len()
        invariant
            at <= names@.len(),
            all == names_of(names@),
            forall|i: int, j: int| 0 <= i < j < kept@.len() ==> kept@[i] < kept@[j],
            forall|i: int| 0 <= i < kept@.len() ==> (#[trigger] kept@[i]) < at && first_of_name(all, kept@[i] as int),
            forall|k: int| 0 <= k < at && #[trigger] first_of_name(all, k) ==> kept@.contains(k as usize),
        decreases names.len() - at,
    {
        let mut seen = false;
        let mut earlier: usize = 0;
        while earlier < at
            invariant
                at < names@.len(),
                earlier <= at,
                all == names_of(names@),
                seen == exists|e: int| 0 <= e < earlier && all[e] == all[at as int],
            decreases at - earlier,
        {
            let same = names[earlier] == names[at];
            assert(all[earlier as int] == names@[earlier as int]@);
            assert(all[at as int] == names@[at as int]@);
            seen = seen || same;
            earlier = earlier + 1;
        }
        if !seen {
            let ghost before = kept@;
            kept.push(at);
            proof {
                assert forall|k: int| 0 <= k < at + 1 && #[trigger] first_of_name(all, k) implies kept@.contains(k as usize) by {
                    if k < at {
                        assert(before.contains(k as usize));
                        let w = choose|w: int| 0 <= w < before.len() && before[w] == k as usize;
                        assert(kept@[w] == k as usize);
                    } else {
                        assert(kept@[before.len() as int] == at);
                    }
                }
            }
        } else {
            proof {
                assert(!first_of_name(all, at as int));
            }
        }
        at = at + 1;
    }
    kept
}

/// An identity a Workspace proves itself as: a name, and where its private key is.
#[derive(Debug)]
pub struct Account {
    /// The name the account goes by, which is its key file's name.
    name: String,
    /// Where its private key is.
    key_path: std::path::PathBuf,
    /// Where the public key of the peer it expects sits, if it names one.
    public_path: Option<std::path::PathBuf>,
}

impl View for Account {
    type V = Seq<char>;

    closed spec fn view(&self) -> Seq<char> {
        self.name@
    }
}

impl Account {
    /// Where the account's private key is.
    pub closed spec fn key_path_spec(&self) -> std::path::PathBuf {
        self.key_path
    }

    /// Where the public key of the peer the account expects sits, if it names one.
    pub closed spec fn public_path_spec(&self) -> Option<std::path::PathBuf> {
        self.public_path
    }

    /// An account named `name` whose private key is at `key_path`, and whose peer's public key
    /// is at `public_path` where it names one.
    pub fn new(name: String, key_path: std::path::PathBuf, public_path: Option<std::path::PathBuf>) -> (account: Account)
        ensures
            account@ == name@,
            account.key_path_spec() == key_path,
            account.public_path_spec() == public_path,
    {
        Account { name, key_path, public_path }
    }

    /// The name the account goes by.
    pub fn name(&self) -> (name: String)
        ensures
            name@ == self@,
    {
        self.name.clone()
    }

    /// Where the account's private key is.
    pub fn key_path(&self) -> (path: std::path::PathBuf)
        ensures
            path == self.key_path_spec(),
    {
        copy_path(&self.key_path)
    }

    /// Where the public key of the peer the account expects sits, if it names one.
    pub fn public_path(&self) -> (path: Option<std::path::PathBuf>)
        ensures
            path == self.public_path_spec(),
    {
        match &self.public_path {
            Some(path) => Some(copy_path(path)),
            None => None,
        }
    }
}

impl Clone for Account {
    fn clone(&self) -> (copy: Account)
        ensures
            copy@ == self@,
            copy.key_path_spec() == self.key_path_spec(),
            copy.public_path_spec() == self.public_path_spec(),
    {
        Account { name: self.name.clone(), key_path: self.key_path(), public_path: self.public_path() }
    }
}

/// The peer an account expects, from the public key found beside it: a key generator writes a
/// pair of one identity, so a public key that is the account's own says what the account is
/// rather than what its peer must be, and names no peer.
pub fn peer_of(own: &PublicKey, found: PublicKey) -> (peer: Option<PublicKey>)
    ensures
        found@ == own@ ==> peer is None,
        found@ != own@ ==> (peer matches Some(key) && key@ == found@),
{
    if found.same_as(own) {
        None
    } else {
        Some(found)
    }
}

/// The accounts that were found.
#[derive(Debug)]
pub struct Accounts {
    /// The accounts, nearest place first.
    accounts: Vec<Account>,
}

impl View for Accounts {
    type V = Seq<Seq<char>>;

    closed spec fn view(&self) -> Seq<Seq<char>> {
        self.accounts@.map_values(|account: Account| account@)
    }
}

impl Accounts {
    /// The accounts, in order, with where each one's keys are.
    pub closed spec fn accounts_spec(&self) -> Seq<Account> {
        self.accounts@
    }

    /// The accounts `accounts`.
    pub fn new(accounts: Vec<Account>) -> (found: Accounts)
        ensures
            found@ == accounts@.map_values(|account: Account| account@),
            found.accounts_spec() == accounts@,
    {
        Accounts { accounts }
    }

    /// The accounts, in order.
    pub fn iter(&self) -> (accounts: &[Account])
        ensures
            accounts@.map_values(|account: Account| account@) == self@,
            accounts@ == self.accounts_spec(),
    {
        self.accounts.as_slice()
    }

    /// How many accounts there are.
    pub fn len(&self) -> (len: usize)
        ensures
            len == self@.len(),
    {
        self.accounts.len()
    }

    /// Whether there are none.
    pub fn is_empty(&self) -> (empty: bool)
        ensures
            empty == (self@.len() == 0),
    {
        self.accounts.len() == 0
    }

    /// The account at `index`, if there is one there.
    pub fn at(&self, index: usize) -> (account: Option<Account>)
        ensures
            index < self@.len() ==> (account matches Some(a) && a@ == self@[index as int]
                && a.key_path_spec() == self.accounts_spec()[index as int].key_path_spec()
                && a.public_path_spec() == self.accounts_spec()[index as int].public_path_spec()),
            index >= self@.len() ==> account is None,
    {
        if index < self.accounts.len() {
            Some(self.accounts[index].clone())
        } else {
            None
        }
    }
}

/// An identity a Vault knows: a name, and where its public key is.
#[derive(Debug)]
pub struct Member {
    /// The name the member goes by, which is its key file's name.
    name: String,
    /// Where its public key is.
    key_path: std::path::PathBuf,
}

impl View for Member {
    type V = Seq<char>;

    closed spec fn view(&self) -> Seq<char> {
        self.name@
    }
}

impl Member {
    /// Where the member's public key is.
    pub closed spec fn key_path_spec(&self) -> std::path::PathBuf {
        self.key_path
    }

    /// A member named `name` whose public key is at `key_path`.
    pub fn new(name: String, key_path: std::path::PathBuf) -> (member: Member)
        ensures
            member@ == name@,
            member.key_path_spec() == key_path,
    {
        Member { name, key_path }
    }

    /// The name the member goes by.
    pub fn name(&self) -> (name: String)
        ensures
            name@ == self@,
    {
        self.name.clone()
    }

    /// Where the member's public key is.
    pub fn key_path(&self) -> (path: std::path::PathBuf)
        ensures
            path == self.key_path_spec(),
    {
        copy_path(&self.key_path)
    }
}

impl Clone for Member {
    fn clone(&self) -> (copy: Member)
        ensures
            copy@ == self@,
            copy.key_path_spec() == self.key_path_spec(),
    {
        Member { name: self.name.clone(), key_path: self.key_path() }
    }
}

/// The members that were found.
#[derive(Debug)]
pub struct Members {
    /// The members, nearest place first.
    members: Vec<Member>,
}

impl View for Members {
    type V = Seq<Seq<char>>;

    closed spec fn view(&self) -> Seq<Seq<char>> {
        self.members@.map_values(|member: Member| member@)
    }
}

impl Members {
    /// The members, in order, with where each one's key is.
    pub closed spec fn members_spec(&self) -> Seq<Member> {
        self.members@
    }

    /// The members `members`.
    pub fn new(members: Vec<Member>) -> (found: Members)
        ensures
            found@ == members@.map_values(|member: Member| member@),
            found.members_spec() == members@,
    {
        Members { members }
    }

    /// The members, in order.
    pub fn iter(&self) -> (members: &[Member])
        ensures
            members@.map_values(|member: Member| member@) == self@,
            members@ == self.members_spec(),
    {
        self.members.as_slice()
    }

    /// How many members there are.
    pub fn len(&self) -> (len: usize)
        ensures
            len == self@.len(),
    {
        self.members.len()
    }

    /// Whether there are none.
    pub fn is_empty(&self) -> (empty: bool)
        ensures
            empty == (self@.len() == 0),
    {
        self.members.len() == 0
    }

    /// The member at `index`, if there is one there.
    pub fn at(&self, index: usize) -> (member: Option<Member>)
        ensures
            index < self@.len() ==> (member matches Some(m) && m@ == self@[index as int]
                && m.key_path_spec() == self.members_spec()[index as int].key_path_spec()),
            index >= self@.len() ==> member is None,
    {
        if index < self.members.len() {
            Some(self.members[index].clone())
        } else {
            None
        }
    }
}

} // verus!
