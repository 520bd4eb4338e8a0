use bootc_core::gc::{
    additional_roots, boot_entry_source, contains, image_cleanup_plan, not_among,
    state_cleanup_plan, BootEntrySource, Bootloader, GcAction, GcError,
};

fn strings(list: &[&str]) -> Vec<String> {
    list.iter().map(|s| s.to_string()).collect()
}

#[test]
fn grub_lists_ukis_only_with_a_user_configuration() {
    assert_eq!(boot_entry_source(Bootloader::Grub, true), BootEntrySource::GrubUki);
    assert_eq!(boot_entry_source(Bootloader::Grub, false), BootEntrySource::Type1);
    assert_eq!(boot_entry_source(Bootloader::Systemd, true), BootEntrySource::Type1);
    assert_eq!(boot_entry_source(Bootloader::Systemd, false), BootEntrySource::Type1);
}

#[test]
fn not_among_keeps_order_and_repeats() {
    let items = strings(&["c", "a", "b", "a", "d"]);
    let known = strings(&["b", "x", "d"]);
    assert_eq!(not_among(&items, &known), strings(&["c", "a", "a"]));
    assert_eq!(not_among(&items, &[].to_vec()), items);
    assert_eq!(not_among(&[].to_vec(), &known), strings(&[]));
    assert!(contains(&known, &"x".to_string()));
    assert!(!contains(&known, &"a".to_string()));
}

#[test]
fn images_without_a_boot_entry_are_cleaned_up() {
    let images = strings(&["booted", "orphan1", "rollback", "orphan2"]);
    let entries = strings(&["rollback", "booted"]);
    let plan = image_cleanup_plan(&images, &entries, &"booted".to_string()).unwrap();
    assert_eq!(
        plan,
        vec![
            GcAction::DeleteStaged,
            GcAction::DeleteImage("orphan1".to_string()),
            GcAction::DeleteStateDir("orphan1".to_string()),
            GcAction::DeleteStaged,
            GcAction::DeleteImage("orphan2".to_string()),
            GcAction::DeleteStateDir("orphan2".to_string()),
        ]
    );
}

#[test]
fn nothing_is_cleaned_up_when_every_image_has_a_boot_entry() {
    let images = strings(&["a", "b"]);
    let entries = strings(&["b", "a", "c"]);
    assert_eq!(image_cleanup_plan(&images, &entries, &"a".to_string()), Ok(vec![]));
    assert_eq!(image_cleanup_plan(&[].to_vec(), &[].to_vec(), &"a".to_string()), Ok(vec![]));
}

#[test]
fn a_booted_image_without_boot_entry_is_an_inconsistent_state() {
    let images = strings(&["booted", "other"]);
    let entries = strings(&["other"]);
    let err = image_cleanup_plan(&images, &entries, &"booted".to_string()).unwrap_err();
    assert_eq!(err, GcError::BootedOrphaned { verity: "booted".to_string() });
    assert_eq!(
        err.to_string(),
        "Inconsistent state. Booted entry 'booted' found for cleanup"
    );
    // a booted deployment without image is not found among the images
    assert!(image_cleanup_plan(&strings(&["x"]), &[].to_vec(), &"booted".to_string()).is_ok());
}

#[test]
fn state_directories_without_an_image_are_cleaned_up() {
    let state_dirs = strings(&["a", "stale1", "b", "stale2"]);
    let images = strings(&["b", "a"]);
    assert_eq!(
        state_cleanup_plan(&state_dirs, &images),
        vec![
            GcAction::DeleteStaged,
            GcAction::DeleteStateDir("stale1".to_string()),
            GcAction::DeleteStaged,
            GcAction::DeleteStateDir("stale2".to_string()),
        ]
    );
    assert_eq!(state_cleanup_plan(&images, &state_dirs), vec![]);
}

#[test]
fn the_booted_image_and_its_configuration_are_kept() {
    assert_eq!(
        additional_roots("abc123", "sha256:def"),
        strings(&["abc123", "oci-config-sha256:def"])
    );
}
