//! Schematics for a block world: reading and writing `.litematic` and `.schem` files, a clipboard
//! that can be turned, mirrored, pasted and saved, changes of selections, and a history of what was
//! done. The server around it is reached through the `host` module and through what the plugin's
//! shell hands in.
pub mod action_laws;
pub mod assemble;
pub mod block_state;
pub mod block_state_laws;
pub mod block_string;
pub mod box_laws;
pub mod byte_laws;
pub mod bytes;
pub mod clipboard;
pub mod commands;
pub mod config;
pub mod edit_laws;
pub mod file_laws;
pub mod grid;
pub mod gzip;
pub mod history;
pub mod host;
pub mod ipc;
pub mod listing;
pub mod litematica;
pub mod messages;
pub mod motion_laws;
pub mod names;
pub mod nbt;
pub mod nbt_laws;
pub mod nbt_read;
pub mod nbt_write;
pub mod packing;
pub mod palette;
pub mod paste;
pub mod placement;
pub mod registry_laws;
pub mod resolve;
pub mod save_laws;
pub mod schem;
pub mod schem_write;
pub mod schematic;
pub mod selection;
pub mod survey;
pub mod text;
pub mod text_laws;
pub mod varint;
pub mod view_laws;
