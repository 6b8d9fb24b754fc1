pub mod act_remap;
pub mod auto_screens;
pub mod bg_canvas;
pub mod bg_edits;
pub mod batch_export;
pub mod bg_tilemap;
pub mod block_map;
pub mod boss_text;
pub mod clipboard;
pub mod color;
pub mod dm16_editor;
pub mod dm16_ops;
pub mod editing;
pub mod exanimation;
pub mod exgfx;
pub mod exit_scan;
pub mod layer3;
pub mod le_bytes;
pub mod level;
pub mod level_header;
pub mod map16_editor;
pub mod object_drag;
pub mod object_layer;
pub mod order;
pub mod palette_editor;
pub mod palette_files;
pub mod sprite_layer;
pub mod text;
pub mod tile_editor;
pub mod title_credits;
pub mod tooltip_search;
pub mod undo;
pub mod xref_search;
