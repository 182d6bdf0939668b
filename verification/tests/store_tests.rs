use colorschemes::store::{ColorEntry, LibraryStore, NotFound};

fn sample_store() -> LibraryStore {
    let mut store = LibraryStore::new();
    store.insert_scheme("wezterm");
    store.insert_flavor("wezterm", "catppuccin mocha").unwrap();
    store
        .insert_color(
            "wezterm",
            "catppuccin mocha",
            "red",
            ColorEntry { name: "Red".to_string(), value: 0xE64553, enabled: true },
        )
        .unwrap();
    store
}

#[test]
fn empty_store_lists_nothing() {
    let store = LibraryStore::new();
    assert!(store.schemes().is_empty());
    assert_eq!(store.flavors("wezterm"), Err(NotFound));
}

#[test]
fn build_and_list_in_insertion_order() {
    let mut store = sample_store();
    store.insert_scheme("alacritty");
    store.insert_flavor("wezterm", "catppuccin latte").unwrap();
    let schemes = store.schemes();
    assert_eq!(schemes, vec!["wezterm".to_string(), "alacritty".to_string()]);
    let flavors = store.flavors("wezterm").unwrap();
    assert_eq!(flavors, vec!["catppuccin mocha".to_string(), "catppuccin latte".to_string()]);
    assert!(store.flavors("alacritty").unwrap().is_empty());
}

#[test]
fn palette_reads_entry() {
    let store = sample_store();
    let palette = store.palette("wezterm", "catppuccin mocha").unwrap();
    assert_eq!(palette.len(), 1);
    assert_eq!(palette.color_keys(), vec!["red".to_string()]);
    let entry = palette.get("red").unwrap();
    assert_eq!(entry.name, "Red");
    assert_eq!(entry.value, 0xE64553);
    assert!(entry.enabled);
}

#[test]
fn toggle_changes_only_the_flag() {
    let mut store = sample_store();
    assert_eq!(store.set_enabled("wezterm", "catppuccin mocha", "red", false), Ok(()));
    let palette = store.palette("wezterm", "catppuccin mocha").unwrap();
    let entry = palette.get("red").unwrap();
    assert_eq!(entry.name, "Red");
    assert_eq!(entry.value, 0xE64553);
    assert!(!entry.enabled);
    // An absent scheme fails and the flag keeps its new value.
    assert_eq!(store.set_enabled("nope", "catppuccin mocha", "red", true), Err(NotFound));
    let palette = store.palette("wezterm", "catppuccin mocha").unwrap();
    assert!(!palette.get("red").unwrap().enabled);
}

#[test]
fn double_toggle_restores_the_entry() {
    let mut store = sample_store();
    store.set_enabled("wezterm", "catppuccin mocha", "red", false).unwrap();
    store.set_enabled("wezterm", "catppuccin mocha", "red", true).unwrap();
    let palette = store.palette("wezterm", "catppuccin mocha").unwrap();
    let entry = palette.get("red").unwrap();
    assert_eq!(entry.name, "Red");
    assert_eq!(entry.value, 0xE64553);
    assert!(entry.enabled);
}

#[test]
fn absent_lookups_fail_not_found() {
    let mut store = sample_store();
    assert_eq!(store.flavors("absent"), Err(NotFound));
    assert!(store.palette("absent", "catppuccin mocha").is_err());
    assert!(store.palette("wezterm", "absent").is_err());
    assert_eq!(store.set_enabled("absent", "catppuccin mocha", "red", false), Err(NotFound));
    assert_eq!(store.set_enabled("wezterm", "absent", "red", false), Err(NotFound));
    assert_eq!(store.set_enabled("wezterm", "catppuccin mocha", "absent", false), Err(NotFound));
    // The failures left the store's contents unchanged.
    assert_eq!(store.schemes(), vec!["wezterm".to_string()]);
    let palette = store.palette("wezterm", "catppuccin mocha").unwrap();
    let entry = palette.get("red").unwrap();
    assert_eq!(entry.name, "Red");
    assert_eq!(entry.value, 0xE64553);
    assert!(entry.enabled);
}

#[test]
fn duplicate_color_key_overwrites() {
    let mut store = sample_store();
    store
        .insert_color(
            "wezterm",
            "catppuccin mocha",
            "red",
            ColorEntry { name: "Other red".to_string(), value: 0xFF0000, enabled: false },
        )
        .unwrap();
    let palette = store.palette("wezterm", "catppuccin mocha").unwrap();
    assert_eq!(palette.len(), 1);
    let entry = palette.get("red").unwrap();
    assert_eq!(entry.name, "Other red");
    assert_eq!(entry.value, 0xFF0000);
    assert!(!entry.enabled);
}

#[test]
fn insert_color_into_missing_flavor_fails() {
    let mut store = sample_store();
    let entry = ColorEntry { name: "Blue".to_string(), value: 0x0000FF, enabled: true };
    assert_eq!(store.insert_color("wezterm", "absent", "blue", entry), Err(NotFound));
    let entry = ColorEntry { name: "Blue".to_string(), value: 0x0000FF, enabled: true };
    assert_eq!(store.insert_color("absent", "catppuccin mocha", "blue", entry), Err(NotFound));
}

#[test]
fn duplicate_scheme_overwrites_with_empty() {
    let mut store = sample_store();
    store.insert_scheme("wezterm");
    assert_eq!(store.schemes(), vec!["wezterm".to_string()]);
    assert!(store.flavors("wezterm").unwrap().is_empty());
}

#[test]
fn rgb_channels_unpack_the_value() {
    let entry = ColorEntry { name: "Red".to_string(), value: 0xE64553, enabled: true };
    assert_eq!(entry.red(), 0xE6);
    assert_eq!(entry.green(), 0x45);
    assert_eq!(entry.blue(), 0x53);
}

#[test]
fn snapshot_is_independent_of_later_toggles() {
    let mut store = sample_store();
    let snapshot = store.clone();
    store.set_enabled("wezterm", "catppuccin mocha", "red", false).unwrap();
    let palette = snapshot.palette("wezterm", "catppuccin mocha").unwrap();
    assert!(palette.get("red").unwrap().enabled);
    let palette = store.palette("wezterm", "catppuccin mocha").unwrap();
    assert!(!palette.get("red").unwrap().enabled);
}
