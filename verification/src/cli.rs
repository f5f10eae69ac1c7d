//! What the command line asks for.

use crate::memory::shade::is_shade_connector;
use crate::memory::syscall::is_syscall_connector;
use crate::text::{eq_ignore_case, lower_text};
use vstd::prelude::*;
use vstd::string::*;

verus! {

/// How much is logged.
#[derive(Clone, Copy, Debug, PartialEq, Eq, Structural)]
pub enum LogLevel {
    Warn,
    Info,
    Debug,
    Trace,
}

/// How much is logged to the terminal, by how often verbosity was asked for.
pub fn terminal_log_level(verbose: u8) -> (level: LogLevel)
    ensures
        level == (if verbose == 0 {
            LogLevel::Warn
        } else if verbose == 1 {
            LogLevel::Info
        } else if verbose == 2 {
            LogLevel::Debug
        } else {
            LogLevel::Trace
        }),
{
    match verbose {
        0 => LogLevel::Warn,
        1 => LogLevel::Info,
        2 => LogLevel::Debug,
        _ => LogLevel::Trace,
    }
}

/// The name of the log in the output directory.
pub fn dump_log_name() -> (name: &'static str)
    ensures
        name@ == "cs2-dumper.log"@,
{
    "cs2-dumper.log"
}

/// How the game's memory is reached.
#[derive(Clone, Copy, Debug, PartialEq, Eq, Structural)]
pub enum Backend {
    /// By the system's own service.
    Syscall,
    /// Natively, after a helper registered schemas in the game.
    Shade,
    /// By a connector that is plugged in.
    Plugin,
    /// Natively, which is the default.
    Native,
}

/// The backend that the name of a connector stands for.
pub open spec fn backend_named(connector: Option<&str>) -> Backend {
    match connector {
        None => Backend::Native,
        Some(name) => if lower_text(name@) == lower_text("syscall"@) {
            Backend::Syscall
        } else if lower_text(name@) == lower_text("shade"@) {
            Backend::Shade
        } else if lower_text(name@) == lower_text("native"@) {
            Backend::Native
        } else {
            Backend::Plugin
        },
    }
}

pub fn choose_backend(connector: Option<&str>) -> (backend: Backend)
    ensures
        backend == backend_named(connector),
{
    if is_syscall_connector(connector) {
        return Backend::Syscall;
    }
    if is_shade_connector(connector) {
        return Backend::Shade;
    }
    match connector {
        None => Backend::Native,
        Some(name) => if eq_ignore_case(name, "native") {
            Backend::Native
        } else {
            Backend::Plugin
        },
    }
}

/// What is dumped.
#[derive(Clone, Copy, Debug, PartialEq, Eq, Structural)]
pub enum Target {
    /// The running game.
    LiveProcess,
    /// This process, once it has loaded the game's modules from its install.
    LoadedModules,
    /// Nothing: the connector does not show the game.
    NotOnConnector,
}

/// What is dumped by a backend.
pub open spec fn target_for(backend: Backend, running: bool) -> Target {
    if running || backend == Backend::Shade {
        Target::LiveProcess
    } else if backend == Backend::Native {
        Target::LoadedModules
    } else {
        Target::NotOnConnector
    }
}

/// A running game is always what is dumped; without one the native backend loads the
/// modules itself, the helper still has the game, and no other backend has anything.
pub proof fn lemma_target(backend: Backend, running: bool)
    ensures
        running ==> target_for(backend, running) == Target::LiveProcess,
        !running ==> (target_for(backend, running) == Target::LoadedModules <==> backend
            == Backend::Native),
        !running ==> (target_for(backend, running) == Target::LiveProcess <==> backend
            == Backend::Shade),
        target_for(backend, running) == Target::NotOnConnector <==> !running && (backend
            == Backend::Syscall || backend == Backend::Plugin),
{
}

/// The names of the three backends are told apart whatever their case, and every
/// other name is that of a connector that is plugged in.
pub proof fn lemma_backend_named(connector: &str)
    ensures
        lower_text(connector@) == lower_text("syscall"@) <==> backend_named(Some(connector))
            == Backend::Syscall,
        lower_text(connector@) == lower_text("shade"@) <==> backend_named(Some(connector))
            == Backend::Shade,
        lower_text(connector@) == lower_text("native"@) <==> backend_named(Some(connector))
            == Backend::Native,
        backend_named(None) == Backend::Native,
{
    reveal_strlit("syscall");
    reveal_strlit("shade");
    reveal_strlit("native");
    assert(lower_text("syscall"@).len() == 7);
    assert(lower_text("shade"@).len() == 5);
    assert(lower_text("native"@).len() == 6);
}

/// Decides what is dumped. Without a running game only the native backend has
/// its modules to fall back on.
pub fn choose_target(backend: Backend, running: bool) -> (target: Target)
    ensures
        target == target_for(backend, running),
{
    if running {
        return Target::LiveProcess;
    }
    match backend {
        Backend::Shade => Target::LiveProcess,
        Backend::Native => Target::LoadedModules,
        _ => Target::NotOnConnector,
    }
}

/// The name under which a dump is reported: that of its backend, unless the
/// modules were loaded from the install.
pub fn backend_label(connector: Option<&str>, target: Target) -> (label: String)
    ensures
        label@ == (if target == Target::LoadedModules {
            "loadlib"@
        } else {
            match backend_named(connector) {
                Backend::Shade => "shade"@,
                Backend::Syscall => "syscall"@,
                Backend::Native => "native"@,
                Backend::Plugin => connector->0@,
            }
        }),
{
    match target {
        Target::LoadedModules => {
            return "loadlib".to_owned();
        },
        _ => {},
    }
    match choose_backend(connector) {
        Backend::Shade => "shade".to_owned(),
        Backend::Syscall => "syscall".to_owned(),
        Backend::Native => "native".to_owned(),
        Backend::Plugin => match connector {
            Some(name) => name.to_owned(),
            None => String::new(),
        },
    }
}

} // verus!
