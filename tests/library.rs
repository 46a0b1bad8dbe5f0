use fla::document::{
    DomDocument, Fonts, Media, PersistentData, PrinterSettings, PublishHistory, Scripts,
    SwcCache, Symbols, Timelines,
};
use fla::library::{Fla, LibraryEntry};
use fla::timeline::{DomSymbol, DomTimeline, Layers, Timeline};

fn document() -> DomDocument {
    DomDocument {
        background_color: "#FFFFFF".to_string(),
        width: 550,
        height: 400,
        frame_rate: 24,
        current_timeline: 1,
        xfl_version: "2.97".to_string(),
        creator_info: String::new(),
        platform: "Windows".to_string(),
        version_info: String::new(),
        major_version: 19,
        minor_version: 0,
        build_number: 0,
        ruler_visible: false,
        next_scene_identifier: 2,
        play_options_play_loop: false,
        play_options_play_pages: false,
        play_options_play_frame_actions: false,
        filetype_guid: String::new(),
        file_guid: String::new(),
        fonts: Fonts { dom_font_items: vec![] },
        media: Media {},
        symbols: Symbols { includes: vec![] },
        timelines: Timelines { dom_timelines: vec![] },
        scripts: Scripts {},
        persistent_data: PersistentData {},
        printer_settings: PrinterSettings {},
        publish_history: PublishHistory { publish_items: vec![] },
        swc_cache: SwcCache {},
    }
}

fn symbol(name: &str) -> DomSymbol {
    DomSymbol {
        name: name.to_string(),
        item_id: "id".to_string(),
        linkage_export_for_as: None,
        linkage_class_name: None,
        last_modified: "0".to_string(),
        timeline: Timeline {
            dom_timeline: DomTimeline {
                name: name.to_string(),
                guides: None,
                layers: Layers { dom_layers: vec![] },
            },
        },
    }
}

#[test]
fn members_with_an_xml_extension_are_symbols() {
    assert!(LibraryEntry::is_symbol_name("Symbol 1.xml"));
    assert!(LibraryEntry::is_symbol_name("folder/Symbol 1.xml"));
    assert!(!LibraryEntry::is_symbol_name("sound.mp3"));
    assert!(!LibraryEntry::is_symbol_name("xml"));
    assert!(!LibraryEntry::is_symbol_name(".xml"));
    assert!(!LibraryEntry::is_symbol_name("a.xml.bin"));
}

#[test]
fn library_lookup_by_name() {
    let mut fla = Fla::from_document(document());
    fla.insert_library_asset("a.xml".to_string(), LibraryEntry::Xml(symbol("a")));
    fla.insert_library_asset("b.bin".to_string(), LibraryEntry::Unknown(vec![1, 2, 3]));
    fla.insert_library_asset("c.xml".to_string(), LibraryEntry::Xml(symbol("c")));
    assert_eq!(fla.get_library_asset("a.xml").and_then(|e| e.as_xml()).map(|s| s.name.clone()), Some("a".to_string()));
    assert!(fla.get_library_asset("b.bin").unwrap().as_xml().is_none());
    assert!(fla.get_library_asset("missing.xml").is_none());
    assert_eq!(fla.symbol_names(), vec!["a.xml".to_string(), "c.xml".to_string()]);
}

#[test]
fn inserting_a_name_again_replaces_its_member() {
    let mut fla = Fla::from_document(document());
    fla.insert_library_asset("a.xml".to_string(), LibraryEntry::Xml(symbol("first")));
    fla.insert_library_asset("a.xml".to_string(), LibraryEntry::Xml(symbol("second")));
    assert_eq!(fla.library.len(), 1);
    let name = fla.get_library_asset("a.xml").unwrap().as_xml().unwrap().name.clone();
    assert_eq!(name, "second");
}
