//! Hooks that fire after an asset has run.
use vstd::prelude::*;
use vstd::string::*;
use crate::errors::{Fault, FaultKind, FaultView};
use crate::executor::obj::Obj;
use crate::text::say5;

verus! {

/// A hook: the function it calls, once it is bound to one, and its name.
#[derive(Debug)]
pub enum PyHook {
    Success { func: Option<Obj>, name: String },
    Failure { func: Option<Obj>, name: String },
}

/// The function of a hook.
pub open spec fn hook_func(h: PyHook) -> Option<Obj> {
    match h {
        PyHook::Success { func, .. } => func,
        PyHook::Failure { func, .. } => func,
    }
}

/// The name of a hook.
pub open spec fn hook_name(h: PyHook) -> Seq<char> {
    match h {
        PyHook::Success { name, .. } => name@,
        PyHook::Failure { name, .. } => name@,
    }
}

/// The name that a hook gets: the given one, else that of its function.
pub open spec fn derived_name(func: Option<Seq<char>>, name: Option<Seq<char>>) -> Seq<char> {
    match (func, name) {
        (_, Some(n)) => n,
        (Some(f), None) => f,
        (None, None) => Seq::empty(),
    }
}

/// What an optional name is.
pub open spec fn name_view(s: Option<String>) -> Option<Seq<char>> {
    match s {
        Some(t) => Some(t@),
        None => None,
    }
}

fn derive_name(func: Option<String>, name: Option<String>) -> (r: String)
    ensures
        r@ == derived_name(name_view(func), name_view(name)),
{
    match (func, name) {
        (_, Some(n)) => n,
        (Some(f), None) => f,
        (None, None) => String::new(),
    }
}

/// Why a hook cannot be used as a decorator.
pub open spec fn rebind_fault(h: PyHook, args: nat) -> Option<FaultView> {
    if hook_func(h) is Some {
        Some(
            (
                FaultKind::AssetDefinition,
                "Hook is already bound to a function and cannot be called as a decorator again"@,
            ),
        )
    } else if args != 1 {
        Some(
            (
                FaultKind::AssetDefinition,
                "Hook decorator expects exactly one argument (the function to wrap)"@,
            ),
        )
    } else {
        None
    }
}

impl PyHook {
    /// A hook for success. `func_name` is the name of the function.
    pub fn success_ctor(func: Option<Obj>, func_name: Option<String>, name: Option<String>) -> (r:
        Self)
        ensures
            r is Success,
            hook_func(r) == func,
            hook_name(r) == derived_name(name_view(func_name), name_view(name)),
    {
        PyHook::Success { func, name: derive_name(func_name, name) }
    }

    /// A hook for failure. `func_name` is the name of the function.
    pub fn failure_ctor(func: Option<Obj>, func_name: Option<String>, name: Option<String>) -> (r:
        Self)
        ensures
            r is Failure,
            hook_func(r) == func,
            hook_name(r) == derived_name(name_view(func_name), name_view(name)),
    {
        PyHook::Failure { func, name: derive_name(func_name, name) }
    }

    pub fn is_success(&self) -> (r: bool)
        ensures
            r == (self is Success),
    {
        match self {
            PyHook::Success { .. } => true,
            PyHook::Failure { .. } => false,
        }
    }

    pub fn is_failure(&self) -> (r: bool)
        ensures
            r == (self is Failure),
    {
        match self {
            PyHook::Success { .. } => false,
            PyHook::Failure { .. } => true,
        }
    }

    /// The function of the hook.
    pub fn func(&self) -> (r: Option<Obj>)
        ensures
            r == hook_func(*self),
    {
        match self {
            PyHook::Success { func, .. } => *func,
            PyHook::Failure { func, .. } => *func,
        }
    }

    /// The name of the hook.
    pub fn resolve_name(&self) -> (r: &str)
        ensures
            r@ == hook_name(*self),
    {
        match self {
            PyHook::Success { name, .. } => name.as_str(),
            PyHook::Failure { name, .. } => name.as_str(),
        }
    }

    /// The printed form of the hook.
    pub fn repr(&self) -> (r: String)
        ensures
            r@ == "Hook."@ + (if self is Success {
                "Success"@
            } else {
                "Failure"@
            }) + "(name='"@ + hook_name(*self) + "')"@,
    {
        let kind = if self.is_success() {
            "Success"
        } else {
            "Failure"
        };
        say5("Hook.", kind, "(name='", self.resolve_name(), "')")
    }

    /// Binds a hook that was made without a function: `args` are the arguments of
    /// the decorator, each with its name.
    pub fn call(&self, args: Vec<(Obj, String)>) -> (r: Result<Self, Fault>)
        ensures
            match r {
                Ok(h) => {
                    &&& rebind_fault(*self, args@.len()) is None
                    &&& h is Success == self is Success
                    &&& hook_func(h) == Some(args@[0].0)
                    &&& hook_name(h) == if hook_name(*self).len() > 0 {
                        hook_name(*self)
                    } else {
                        args@[0].1@
                    }
                },
                Err(e) => rebind_fault(*self, args@.len()) == Some(e@),
            },
    {
        if self.func().is_some() {
            return Err(
                Fault::new(
                    FaultKind::AssetDefinition,
                    "Hook is already bound to a function and cannot be called as a decorator again".to_owned(),
                ),
            );
        }
        if args.len() != 1 {
            return Err(
                Fault::new(
                    FaultKind::AssetDefinition,
                    "Hook decorator expects exactly one argument (the function to wrap)".to_owned(),
                ),
            );
        }
        let existing = self.resolve_name();
        let name = if existing.is_empty() {
            args[0].1.clone()
        } else {
            existing.to_owned()
        };
        let func = Some(args[0].0);
        if self.is_success() {
            Ok(PyHook::Success { func, name })
        } else {
            Ok(PyHook::Failure { func, name })
        }
    }
}

} // verus!
