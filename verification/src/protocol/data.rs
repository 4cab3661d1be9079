//! Values that exist on one side of an action only, and values both sides hold.
use vstd::prelude::*;

verus! {

/// Which side of an action a run is on.
#[derive(Debug, Clone, Copy, PartialEq, Eq, Structural)]
pub enum ActionSide {
    /// The side a person works on.
    Workspace,
    /// The side that keeps what the Workspaces hand it.
    Vault,
}

impl ActionSide {
    /// Whether this is the Vault's side.
    pub fn is_vault(&self) -> (vault: bool)
        ensures
            vault == (*self is Vault),
    {
        match self {
            ActionSide::Vault => true,
            ActionSide::Workspace => false,
        }
    }

    /// Whether this is the Workspace's side.
    pub fn is_workspace(&self) -> (workspace: bool)
        ensures
            workspace == (*self is Workspace),
    {
        match self {
            ActionSide::Workspace => true,
            ActionSide::Vault => false,
        }
    }
}

/// A value that exists on the Vault's side only: on the Workspace's side it is empty.
#[derive(Debug, Clone)]
pub struct OnlyVault<Inner> {
    /// The value, where this is the Vault.
    inner: Option<Inner>,
}

impl<Inner> View for OnlyVault<Inner> {
    type V = Option<Inner>;

    closed spec fn view(&self) -> Option<Inner> {
        self.inner
    }
}

impl<Inner> OnlyVault<Inner> {
    /// The value `f` makes, where `side` is the Vault's; nothing, and `f` not run, where it is not.
    pub fn new<F: FnOnce() -> Inner>(side: ActionSide, f: F) -> (value: OnlyVault<Inner>)
        requires
            side is Vault ==> f.requires(()),
        ensures
            side is Vault ==> value@ is Some && f.ensures((), value@->0),
            side is Workspace ==> value@ is None,
    {
        if side.is_vault() {
            OnlyVault { inner: Some(f()) }
        } else {
            OnlyVault::empty()
        }
    }

    /// A value that is not held.
    pub fn empty() -> (value: OnlyVault<Inner>)
        ensures
            value@ is None,
    {
        OnlyVault { inner: None }
    }

    /// A value held as `inner`.
    pub fn holding(inner: Inner) -> (value: OnlyVault<Inner>)
        ensures
            value@ == Some(inner),
    {
        OnlyVault { inner: Some(inner) }
    }

    /// The value, where it is held.
    pub fn into_inner(self) -> (inner: Option<Inner>)
        ensures
            inner == self@,
    {
        self.inner
    }

    /// The value, taken out: what is left holds nothing.
    pub fn take(&mut self) -> (inner: Option<Inner>)
        ensures
            inner == old(self)@,
            final(self)@ is None,
    {
        let mut taken: Option<Inner> = None;
        std::mem::swap(&mut taken, &mut self.inner);
        taken
    }

    /// The value; a value that is not held is a mistake in the caller.
    pub fn unwrap(self) -> (inner: Inner)
        requires
            self@ is Some,
        ensures
            Some(inner) == self@,
    {
        self.inner.unwrap()
    }

    /// The value, or `default` where it is not held.
    pub fn unwrap_or(self, default: Inner) -> (inner: Inner)
        ensures
            inner == (match self@ {
                Some(held) => held,
                None => default,
            }),
    {
        match self.inner {
            Some(held) => held,
            None => default,
        }
    }

    /// The value, or what `f` makes where it is not held.
    pub fn unwrap_or_else<F: FnOnce() -> Inner>(self, f: F) -> (inner: Inner)
        requires
            self@ is None ==> f.requires(()),
        ensures
            self@ is Some ==> Some(inner) == self@,
            self@ is None ==> f.ensures((), inner),
    {
        self.inner.unwrap_or_else(f)
    }

    /// The value, or the default one where it is not held.
    pub fn unwrap_or_default(self) -> (inner: Inner) where Inner: Default
        ensures
            self@ is Some ==> Some(inner) == self@,
            self@ is None ==> Inner::default.ensures((), inner),
    {
        self.inner.unwrap_or_default()
    }

    /// The value as the option it is.
    pub fn as_ref(&self) -> (inner: &Option<Inner>)
        ensures
            *inner == self@,
    {
        &self.inner
    }
}

impl<Inner> From<Option<Inner>> for OnlyVault<Inner> {
    fn from(inner: Option<Inner>) -> (value: OnlyVault<Inner>)
        ensures
            value@ == inner,
    {
        OnlyVault { inner }
    }
}

impl<Inner> vstd::std_specs::convert::FromSpecImpl<Option<Inner>> for OnlyVault<Inner> {
    open spec fn obeys_from_spec() -> bool {
        true
    }

    closed spec fn from_spec(inner: Option<Inner>) -> OnlyVault<Inner> {
        OnlyVault { inner }
    }
}

impl<Inner> std::ops::Deref for OnlyVault<Inner> {
    type Target = Option<Inner>;

    fn deref(&self) -> (inner: &Option<Inner>)
        ensures
            *inner == self@,
    {
        &self.inner
    }
}

/// A value that exists on the Workspace's side only: on the Vault's side it is empty.
#[derive(Debug, Clone)]
pub struct OnlyWorkspace<Inner> {
    /// The value, where this is the Workspace.
    inner: Option<Inner>,
}

impl<Inner> View for OnlyWorkspace<Inner> {
    type V = Option<Inner>;

    closed spec fn view(&self) -> Option<Inner> {
        self.inner
    }
}

impl<Inner> OnlyWorkspace<Inner> {
    /// The value `f` makes, where `side` is the Workspace's; nothing, and `f` not run, where it
    /// is not.
    pub fn new<F: FnOnce() -> Inner>(side: ActionSide, f: F) -> (value: OnlyWorkspace<Inner>)
        requires
            side is Workspace ==> f.requires(()),
        ensures
            side is Workspace ==> value@ is Some && f.ensures((), value@->0),
            side is Vault ==> value@ is None,
    {
        if side.is_workspace() {
            OnlyWorkspace { inner: Some(f()) }
        } else {
            OnlyWorkspace::empty()
        }
    }

    /// A value that is not held.
    pub fn empty() -> (value: OnlyWorkspace<Inner>)
        ensures
            value@ is None,
    {
        OnlyWorkspace { inner: None }
    }

    /// A value held as `inner`.
    pub fn holding(inner: Inner) -> (value: OnlyWorkspace<Inner>)
        ensures
            value@ == Some(inner),
    {
        OnlyWorkspace { inner: Some(inner) }
    }

    /// The value, where it is held.
    pub fn into_inner(self) -> (inner: Option<Inner>)
        ensures
            inner == self@,
    {
        self.inner
    }

    /// The value, taken out: what is left holds nothing.
    pub fn take(&mut self) -> (inner: Option<Inner>)
        ensures
            inner == old(self)@,
            final(self)@ is None,
    {
        let mut taken: Option<Inner> = None;
        std::mem::swap(&mut taken, &mut self.inner);
        taken
    }

    /// The value; a value that is not held is a mistake in the caller.
    pub fn unwrap(self) -> (inner: Inner)
        requires
            self@ is Some,
        ensures
            Some(inner) == self@,
    {
        self.inner.unwrap()
    }

    /// The value, or `default` where it is not held.
    pub fn unwrap_or(self, default: Inner) -> (inner: Inner)
        ensures
            inner == (match self@ {
                Some(held) => held,
                None => default,
            }),
    {
        match self.inner {
            Some(held) => held,
            None => default,
        }
    }

    /// The value, or what `f` makes where it is not held.
    pub fn unwrap_or_else<F: FnOnce() -> Inner>(self, f: F) -> (inner: Inner)
        requires
            self@ is None ==> f.requires(()),
        ensures
            self@ is Some ==> Some(inner) == self@,
            self@ is None ==> f.ensures((), inner),
    {
        self.inner.unwrap_or_else(f)
    }

    /// The value, or the default one where it is not held.
    pub fn unwrap_or_default(self) -> (inner: Inner) where Inner: Default
        ensures
            self@ is Some ==> Some(inner) == self@,
            self@ is None ==> Inner::default.ensures((), inner),
    {
        self.inner.unwrap_or_default()
    }

    /// The value as the option it is.
    pub fn as_ref(&self) -> (inner: &Option<Inner>)
        ensures
            *inner == self@,
    {
        &self.inner
    }
}

impl<Inner> From<Option<Inner>> for OnlyWorkspace<Inner> {
    fn from(inner: Option<Inner>) -> (value: OnlyWorkspace<Inner>)
        ensures
            value@ == inner,
    {
        OnlyWorkspace { inner }
    }
}

impl<Inner> vstd::std_specs::convert::FromSpecImpl<Option<Inner>> for OnlyWorkspace<Inner> {
    open spec fn obeys_from_spec() -> bool {
        true
    }

    closed spec fn from_spec(inner: Option<Inner>) -> OnlyWorkspace<Inner> {
        OnlyWorkspace { inner }
    }
}

impl<Inner> std::ops::Deref for OnlyWorkspace<Inner> {
    type Target = Option<Inner>;

    fn deref(&self) -> (inner: &Option<Inner>)
        ensures
            *inner == self@,
    {
        &self.inner
    }
}

/// A value both sides hold.
#[derive(Debug, Clone)]
pub struct Both<T> {
    /// The value.
    value: T,
}

impl<T> View for Both<T> {
    type V = T;

    closed spec fn view(&self) -> T {
        self.value
    }
}

impl<T> Both<T> {
    /// A value both sides hold.
    pub fn new(value: T) -> (both: Both<T>)
        ensures
            both@ == value,
    {
        Both { value }
    }

    /// The value.
    pub fn into_inner(self) -> (value: T)
        ensures
            value == self@,
    {
        self.value
    }

    /// The value, kept on the Workspace's side only.
    pub fn only_workspace(self, side: ActionSide) -> (value: OnlyWorkspace<T>)
        ensures
            side is Workspace ==> value@ == Some(self@),
            side is Vault ==> value@ is None,
    {
        if side.is_workspace() {
            OnlyWorkspace::holding(self.value)
        } else {
            OnlyWorkspace::empty()
        }
    }

    /// The value, kept on the Vault's side only.
    pub fn only_vault(self, side: ActionSide) -> (value: OnlyVault<T>)
        ensures
            side is Vault ==> value@ == Some(self@),
            side is Workspace ==> value@ is None,
    {
        if side.is_vault() {
            OnlyVault::holding(self.value)
        } else {
            OnlyVault::empty()
        }
    }
}

impl<T> std::ops::Deref for Both<T> {
    type Target = T;

    fn deref(&self) -> (value: &T)
        ensures
            *value == self@,
    {
        &self.value
    }
}

} // verus!
