//! The settings of the plugin.
use vstd::prelude::*;
use vstd::string::*;

verus! {

/// The settings of the plugin.
#[derive(Clone, Debug)]
pub struct PluginConfig {
    /// The block that stands in for a block that cannot be resolved, or `skip`.
    pub fallback_block: String,
    pub blocks_per_tick: usize,
    pub max_concurrent_pastes: usize,
    pub wand_item: String,
    pub max_undo_history: usize,
    pub max_selection_volume: u64,
    /// The largest operation, in blocks, that can still be undone.
    pub max_undo_volume: u64,
    /// Whether diagnostic lines go to the server's console.
    pub debug: bool,
    /// Whether other plugins may have files pasted from outside the schematics directory.
    pub ipc_allow_external_paths: bool,
    /// The directories in which such files must lie.
    pub ipc_allowed_paste_dirs: Vec<String>,
}

/// The default of `fallback_block`.
pub fn default_fallback_block() -> (r: String)
    ensures
        r@ == "minecraft:cobblestone"@,
{
    "minecraft:cobblestone".to_string()
}

/// The default of `blocks_per_tick`.
pub fn default_blocks_per_tick() -> (r: usize)
    ensures
        r == 4096,
{
    4096
}

/// The default of `max_concurrent_pastes`.
pub fn default_max_concurrent_pastes() -> (r: usize)
    ensures
        r == 4,
{
    4
}

/// The default of `wand_item`.
pub fn default_wand_item() -> (r: String)
    ensures
        r@ == "minecraft:wooden_axe"@,
{
    "minecraft:wooden_axe".to_string()
}

/// The default of `max_undo_history`.
pub fn default_max_undo_history() -> (r: usize)
    ensures
        r == 20,
{
    20
}

/// The default of `max_selection_volume`.
pub fn default_max_selection_volume() -> (r: u64)
    ensures
        r == 10_000_000,
{
    10_000_000
}

/// The default of `max_undo_volume`.
pub fn default_max_undo_volume() -> (r: u64)
    ensures
        r == 1_000_000,
{
    1_000_000
}

/// The default of `debug`.
pub fn default_debug() -> (r: bool)
    ensures
        !r,
{
    false
}

/// The default of `ipc_allow_external_paths`.
pub fn default_ipc_allow_external_paths() -> (r: bool)
    ensures
        !r,
{
    false
}

impl Default for PluginConfig {
    /// The settings where there is no file of them.
    fn default() -> (r: Self)
        ensures
            r.fallback_block@ == "minecraft:cobblestone"@,
            r.blocks_per_tick == 4096,
            r.max_concurrent_pastes == 4,
            r.wand_item@ == "minecraft:wooden_axe"@,
            r.max_undo_history == 20,
            r.max_selection_volume == 10_000_000,
            r.max_undo_volume == 1_000_000,
            !r.debug,
            !r.ipc_allow_external_paths,
            r.ipc_allowed_paste_dirs@.len() == 0,
    {
        PluginConfig {
            fallback_block: default_fallback_block(),
            blocks_per_tick: default_blocks_per_tick(),
            max_concurrent_pastes: default_max_concurrent_pastes(),
            wand_item: default_wand_item(),
            max_undo_history: default_max_undo_history(),
            max_selection_volume: default_max_selection_volume(),
            max_undo_volume: default_max_undo_volume(),
            debug: default_debug(),
            ipc_allow_external_paths: default_ipc_allow_external_paths(),
            ipc_allowed_paste_dirs: Vec::new(),
        }
    }
}

} // verus!
