//! The block registry of the server that hosts the plugin.
use vstd::prelude::*;

use crate::schematic::PaletteView;

verus! {

/// A block type with its properties, as the registry names it.
#[derive(Debug)]
pub struct BlockStateInfo {
    pub name: String,
    pub properties: Vec<(String, String)>,
}

/// The characters of the names and values of properties.
pub open spec fn pairs_view(s: Seq<(String, String)>) -> Seq<(Seq<char>, Seq<char>)> {
    s.map_values(|e: (String, String)| (e.0@, e.1@))
}

impl View for BlockStateInfo {
    type V = PaletteView;

    open spec fn view(&self) -> PaletteView {
        PaletteView { name: self.name@, properties: pairs_view(self.properties@) }
    }
}

/// Calls `pumpkin_plugin_api::world::resolve_block_state`, which the hosting server answers from
/// its registry. Nothing is claimed of the answer, which differs from server to server. Outside a
/// server there is no one to answer.
#[verifier::external_body]
pub(crate) fn resolve_block_state(block: &BlockStateInfo) -> (r: Option<u16>) {
    pumpkin_plugin_api::world::resolve_block_state(&block.name, &block.properties)
}

/// Calls `pumpkin_plugin_api::world::block_state_to_info`, which the hosting server answers from
/// its registry. Nothing is claimed of the answer, which differs from server to server. Outside a
/// server there is no one to answer.
#[verifier::external_body]
pub(crate) fn block_state_to_info(state_id: u16) -> (r: Option<BlockStateInfo>) {
    pumpkin_plugin_api::world::block_state_to_info(state_id).map(
        |info| BlockStateInfo { name: info.name, properties: info.properties },
    )
}

/// Whether the registry may give this answer when it is asked for the number of a block state.
pub closed spec fn resolves(block: PaletteView, answer: Option<u16>) -> bool {
    exists|b: BlockStateInfo|
        b@ == block && #[trigger] call_ensures(resolve_block_state, (&b,), answer)
}

/// Whether the registry may give this answer when it is asked what a number stands for.
pub closed spec fn describes(state_id: u16, answer: Option<PaletteView>) -> bool {
    exists|a: Option<BlockStateInfo>|
        info_view(a) == answer && #[trigger] call_ensures(block_state_to_info, (state_id,), a)
}

/// The block state in an answer.
pub open spec fn info_view(answer: Option<BlockStateInfo>) -> Option<PaletteView> {
    match answer {
        Some(b) => Some(b@),
        None => None,
    }
}

/// The answer of a function to a question.
fn ask<Q, A, F: Fn(Q) -> A>(f: F, question: Q) -> (answer: A)
    requires
        call_requires(f, (question,)),
    ensures
        call_ensures(f, (question,), answer),
{
    f(question)
}

/// Asks the registry for the number of a block state.
pub fn resolve(block: &BlockStateInfo) -> (r: Option<u16>)
    ensures
        resolves(block@, r),
{
    ask(resolve_block_state, block)
}

/// Asks the registry what a number stands for.
pub fn describe(state_id: u16) -> (r: Option<BlockStateInfo>)
    ensures
        describes(state_id, info_view(r)),
{
    ask(block_state_to_info, state_id)
}

} // verus!
