//! The document record: fonts, symbol includes, timelines and publishing
//! records, as plain values.

use crate::timeline::DomTimeline;
use vstd::prelude::*;

verus! {

/// A font of the document.
pub struct DomFontItem {
    pub name: String,
    pub item_id: String,
    pub font: String,
    pub size: u64,
    pub id: u64,
    pub source_last_imported: String,
    pub embed_ranges: String,
}

/// The fonts of the document.
pub struct Fonts {
    pub dom_font_items: Vec<DomFontItem>,
}

/// The media of the document; none are read.
pub struct Media {}

/// The symbols that the document's library holds.
pub struct Symbols {
    pub includes: Vec<SymbolInclude>,
}

/// A reference to a library member by its path.
pub struct SymbolInclude {
    pub href: String,
    pub item_icon: Option<u64>,
    pub load_immediate: Option<bool>,
    pub item_id: String,
    pub last_modified: u64,
}

/// The timelines of the document.
pub struct Timelines {
    pub dom_timelines: Vec<DomTimeline>,
}

/// The scripts of the document; none are read.
pub struct Scripts {}

/// Persistent data of the document; none is read.
pub struct PersistentData {}

/// Printer settings of the document; none are read.
pub struct PrinterSettings {}

/// The record of past publications.
pub struct PublishHistory {
    pub publish_items: Vec<PublishItem>,
}

/// One past publication.
pub struct PublishItem {
    pub publish_size: u64,
    pub publish_time: u64,
    pub publish_debug: Option<bool>,
}

/// The compiled-component cache of the document; none of it is read.
pub struct SwcCache {}

/// The document's top-level record. Its 3D view angle is a floating-point
/// value that nothing here reads; it stays with the XML reader.
pub struct DomDocument {
    pub background_color: String,
    pub width: u64,
    pub height: u64,
    pub frame_rate: u64,
    pub current_timeline: u64,
    pub xfl_version: String,
    pub creator_info: String,
    pub platform: String,
    pub version_info: String,
    pub major_version: u64,
    pub minor_version: u64,
    pub build_number: u64,
    pub ruler_visible: bool,
    pub next_scene_identifier: u64,
    pub play_options_play_loop: bool,
    pub play_options_play_pages: bool,
    pub play_options_play_frame_actions: bool,
    pub filetype_guid: String,
    pub file_guid: String,
    pub fonts: Fonts,
    pub media: Media,
    pub symbols: Symbols,
    pub timelines: Timelines,
    pub scripts: Scripts,
    pub persistent_data: PersistentData,
    pub printer_settings: PrinterSettings,
    pub publish_history: PublishHistory,
    pub swc_cache: SwcCache,
}

} // verus!
