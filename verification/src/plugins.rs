//! What the server's background workers decide. Threads, sleeping, the
//! file system and the network are the caller's: a worker here is a
//! function that says what to do next.

pub mod autoflusher;
pub mod gstorage;

use vstd::prelude::*;

verus! {

/// A background worker of the server.
#[derive(Clone, Copy, Debug, PartialEq, Eq, Structural)]
pub enum Plugin {
    /// Records the history of update counts.
    History,
    /// Uploads finished files to cloud storage.
    GStorage,
    /// Flushes all stores to disk from time to time.
    Autoflusher,
}

/// Which of the optional workers are switched on.
#[derive(Clone, Copy, Debug, PartialEq, Eq, Structural)]
pub struct PluginSettings {
    pub gcs: bool,
    pub autoflusher: bool,
}

/// The workers to start, in the order in which they start: the history
/// worker always, then the upload worker and the autoflusher where they
/// are switched on.
pub open spec fn plugins_to_run(settings: PluginSettings) -> Seq<Plugin> {
    seq![Plugin::History] + (if settings.gcs {
        seq![Plugin::GStorage]
    } else {
        Seq::empty()
    }) + (if settings.autoflusher {
        seq![Plugin::Autoflusher]
    } else {
        Seq::empty()
    })
}

/// The workers that have something to do when the server shuts down: the
/// upload worker, where it is switched on.
pub open spec fn plugins_with_exit_hook(settings: PluginSettings) -> Seq<Plugin> {
    if settings.gcs {
        seq![Plugin::GStorage]
    } else {
        Seq::empty()
    }
}

/// The workers to start, each in a thread of its own, in this order.
pub fn run_plugins(settings: &PluginSettings) -> (started: Vec<Plugin>)
    ensures
        started@ == plugins_to_run(*settings),
{
    let mut started: Vec<Plugin> = Vec::new();
    started.push(Plugin::History);
    if settings.gcs {
        started.push(Plugin::GStorage);
    }
    if settings.autoflusher {
        started.push(Plugin::Autoflusher);
    }
    assert(started@ =~= plugins_to_run(*settings));
    started
}

/// The workers whose exit hook runs when the server shuts down.
pub fn run_plugin_exit_hooks(settings: &PluginSettings) -> (hooks: Vec<Plugin>)
    ensures
        hooks@ == plugins_with_exit_hook(*settings),
{
    let mut hooks: Vec<Plugin> = Vec::new();
    if settings.gcs {
        hooks.push(Plugin::GStorage);
    }
    assert(hooks@ =~= plugins_with_exit_hook(*settings));
    hooks
}

} // verus!
