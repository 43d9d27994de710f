use alps::query::group_counts;
use alps::query::query_config;
use alps::query::query_group;
use alps::query::query_package;
use alps::query::query_script;

fn strings(items: &[&str]) -> Vec<String> {
    items.iter().map(|s| s.to_string()).collect()
}

#[test]
fn packages_are_listed_as_stored() {
    let text = String::from("[PACKAGES]\nvim\ngit\n");
    let report = query_package(&strings(&[]), &text);
    assert_eq!(report.listing, strings(&["vim", "git"]));
    assert_eq!(report.missing, 0);
}

#[test]
fn package_lookup_counts_misses() {
    let text = String::from("[PACKAGES]\nvim\ngit\n");
    let report = query_package(&strings(&["vim", "nope", "none"]), &text);
    assert_eq!(report.matches.len(), 3);
    assert_eq!(report.matches[0], strings(&["vim"]));
    assert!(report.matches[1].is_empty());
    assert_eq!(report.missing, 2);
}

#[test]
fn configs_are_shown_without_their_suffix() {
    let text = String::from("[CONFIGS]\nhome_dir/.vimrc_1\nhome_dir/work/notes_12\n");
    let report = query_config(&strings(&[]), &text);
    assert_eq!(report.listing, strings(&[".vimrc", "notes"]));
}

#[test]
fn config_lookup_matches_display_names() {
    let text = String::from("[CONFIGS]\nhome_dir/.vimrc_1\nhome_dir/old/.vimrc_2\n");
    let report = query_config(&strings(&[".vimrc"]), &text);
    assert_eq!(
        report.matches[0],
        strings(&["home_dir/.vimrc_1", "home_dir/old/.vimrc_2"])
    );
    assert_eq!(report.missing, 0);
}

#[test]
fn script_lookup_goes_by_stored_name() {
    let text = String::from("[SCRIPTS]\nrun.sh\n");
    let report = query_script(&strings(&["run.sh", "other.sh"]), &text);
    assert_eq!(report.matches[0], strings(&["run.sh"]));
    assert!(report.matches[1].is_empty());
    assert_eq!(report.missing, 1);
}

#[test]
fn group_lookup_reports_each_miss() {
    let groups = strings(&["dev", "work"]);
    let (found, missing) = query_group(&strings(&["dev", "play"]), &groups);
    assert_eq!(found, vec![true, false]);
    assert_eq!(missing, 1);
}

#[test]
fn removed_group_is_no_longer_found() {
    let groups = strings(&["dev"]);
    let (found, missing) = query_group(&strings(&["dev"]), &groups);
    assert_eq!(found, vec![true]);
    assert_eq!(missing, 0);
    let after: Vec<String> = groups.into_iter().filter(|g| g != "dev").collect();
    let (found, missing) = query_group(&strings(&["dev"]), &after);
    assert_eq!(found, vec![false]);
    assert_eq!(missing, 1);
}

#[test]
fn counts_come_from_the_three_sections() {
    let text = String::from("[PACKAGES]\nvim\ngit\n\n[CONFIGS]\nhome_dir/.vimrc_1\n\n[SCRIPTS]\n\n");
    assert_eq!(group_counts(&text), (2, 1, 0));
}
