use alps::record::config_write;
use alps::record::read_label;
use alps::record::reformat_config;
use alps::text::get_entries;

const EMPTY_CANONICAL: &str = "[PACKAGES]\n\n[CONFIGS]\n\n[SCRIPTS]\n\n";

#[test]
fn reformat_of_empty_text_writes_the_three_sections() {
    let text = String::new();
    assert_eq!(reformat_config(&text), EMPTY_CANONICAL);
}

#[test]
fn reformat_is_idempotent_on_arbitrary_text() {
    let samples = [
        String::new(),
        String::from("garbage before\n[SCRIPTS]\nrun.sh\n[PACKAGES]\nvim\nvim\n"),
        String::from("[CONFIGS]\nhome_dir/.vimrc_1\n[PACKAGES]\ngit\n"),
        String::from("[PACKAGES]\n\n\n[CONFIGS]\n[SCRIPTS]\n"),
    ];
    for text in samples {
        let once = reformat_config(&text);
        let twice = reformat_config(&once);
        assert_eq!(once, twice);
    }
}

#[test]
fn reformat_heals_section_order() {
    let text = String::from("[SCRIPTS]\nrun.sh\n[PACKAGES]\nvim\n");
    assert_eq!(reformat_config(&text), "[PACKAGES]\nvim\n\n[CONFIGS]\n\n[SCRIPTS]\nrun.sh\n\n");
}

#[test]
fn write_adds_at_the_head_of_the_section() {
    let text = String::new();
    let one = config_write(&text, "[PACKAGES]", "vim", true);
    assert_eq!(one, "[PACKAGES]\nvim\n\n[CONFIGS]\n\n[SCRIPTS]\n\n");
    let two = config_write(&one, "[PACKAGES]", "git", true);
    assert_eq!(two, "[PACKAGES]\ngit\nvim\n\n[CONFIGS]\n\n[SCRIPTS]\n\n");
}

#[test]
fn adding_a_present_entry_changes_nothing() {
    let text = String::new();
    let one = config_write(&text, "[PACKAGES]", "vim", true);
    let again = config_write(&one, "[PACKAGES]", "vim", true);
    assert_eq!(one, again);
    let section = read_label("[PACKAGES]", &again);
    let hits = get_entries(&section).iter().filter(|e| *e == "vim").count();
    assert_eq!(hits, 1);
}

#[test]
fn round_trip_add_read_remove_read() {
    let text = String::new();
    let with = config_write(&text, "[SCRIPTS]", "run.sh", true);
    let section = get_entries(&read_label("[SCRIPTS]", &with));
    assert_eq!(section.iter().filter(|e| *e == "run.sh").count(), 1);
    let without = config_write(&with, "[SCRIPTS]", "run.sh", false);
    let section = get_entries(&read_label("[SCRIPTS]", &without));
    assert!(!section.iter().any(|e| e == "run.sh"));
}

#[test]
fn remove_drops_every_equal_entry() {
    let text = String::from("[PACKAGES]\nvim\ngit\nvim\n");
    let out = config_write(&text, "[PACKAGES]", "vim", false);
    assert_eq!(out, "[PACKAGES]\ngit\n\n[CONFIGS]\n\n[SCRIPTS]\n\n");
}

#[test]
fn read_label_returns_one_entry_per_line() {
    let text = String::from("[PACKAGES]\nvim\ngit\n\n[CONFIGS]\nhome_dir/.vimrc_1\n\n[SCRIPTS]\n\n");
    assert_eq!(read_label("[PACKAGES]", &text), "vim\ngit\n");
    assert_eq!(read_label("[CONFIGS]", &text), "home_dir/.vimrc_1\n");
    assert_eq!(read_label("[SCRIPTS]", &text), "");
}

#[test]
fn read_label_on_a_missing_or_empty_file_is_empty() {
    let text = String::new();
    assert_eq!(read_label("[PACKAGES]", &text), "");
    assert_eq!(read_label("[CONFIGS]", &text), "");
}

#[test]
fn text_before_the_first_label_is_dropped() {
    let text = String::from("stray\n[PACKAGES]\nvim\n");
    assert_eq!(read_label("[PACKAGES]", &text), "vim\n");
}
