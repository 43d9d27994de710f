use alps::validate::find_config_entry;
use alps::validate::invalid_configs;
use alps::validate::invalid_groups;
use alps::validate::invalid_packages;
use alps::validate::invalid_scripts;
use alps::validate::is_reserved;
use alps::validate::is_valid_entry;
use alps::validate::EntryIssue;

fn strings(items: &[&str]) -> Vec<String> {
    items.iter().map(|s| s.to_string()).collect()
}

#[test]
fn reserved_names() {
    assert!(is_reserved(".git"));
    assert!(is_reserved(".."));
    assert!(is_reserved("."));
    assert!(!is_reserved("dev"));
}

#[test]
fn entry_lines_are_checked() {
    assert!(is_valid_entry("vim"));
    assert!(!is_valid_entry(""));
    assert!(!is_valid_entry("two\nlines"));
    assert!(!is_valid_entry("[PACKAGES]"));
}

#[test]
fn group_install_rejects_reserved_and_present() {
    let args = strings(&[".git", "dev", "work"]);
    let exists = vec![false, true, false];
    let (kept, rejected) = invalid_groups(&args, &exists, true);
    assert_eq!(kept, strings(&["work"]));
    assert_eq!(rejected.len(), 2);
    assert_eq!(rejected[0], (".git".to_string(), EntryIssue::Reserved));
    assert_eq!(rejected[1], ("dev".to_string(), EntryIssue::AlreadyExists));
}

#[test]
fn group_remove_rejects_absent() {
    let args = strings(&["dev", "gone"]);
    let exists = vec![true, false];
    let (kept, rejected) = invalid_groups(&args, &exists, false);
    assert_eq!(kept, strings(&["dev"]));
    assert_eq!(rejected, vec![("gone".to_string(), EntryIssue::NotInstalled)]);
}

#[test]
fn package_install_classifies_each_candidate() {
    let recorded = strings(&["vim"]);
    let args = strings(&["git", "vim", "nosuch", "git"]);
    let in_repo = vec![true, true, false, true];
    let (kept, rejected) = invalid_packages(&recorded, &args, &in_repo, true);
    assert_eq!(kept, strings(&["git"]));
    assert_eq!(rejected.len(), 3);
    assert_eq!(rejected[0], ("vim".to_string(), EntryIssue::AlreadyExists));
    assert_eq!(rejected[1], ("nosuch".to_string(), EntryIssue::UpstreamMissing));
    assert_eq!(rejected[2], ("git".to_string(), EntryIssue::Duplicate));
}

#[test]
fn package_install_rejects_names_that_cannot_be_recorded() {
    let recorded = strings(&[]);
    let args = strings(&["bad\nname"]);
    let in_repo = vec![true];
    let (kept, rejected) = invalid_packages(&recorded, &args, &in_repo, true);
    assert!(kept.is_empty());
    assert_eq!(rejected, vec![("bad\nname".to_string(), EntryIssue::Invalid)]);
}

#[test]
fn package_remove_wants_recorded_names() {
    let recorded = strings(&["vim"]);
    let args = strings(&["vim", "git"]);
    let in_repo = vec![false, false];
    let (kept, rejected) = invalid_packages(&recorded, &args, &in_repo, false);
    assert_eq!(kept, strings(&["vim"]));
    assert_eq!(rejected, vec![("git".to_string(), EntryIssue::NotInstalled)]);
}

#[test]
fn config_install_goes_by_resolved_paths() {
    let recorded = strings(&["home_dir/.vimrc_1"]);
    let args = strings(&["~/.vimrc", "/etc/hosts", "missing", "/etc/hosts2"]);
    let canon = vec![
        Some("/home/user/.vimrc".to_string()),
        Some("/etc/hosts".to_string()),
        None,
        Some("/etc/hosts".to_string()),
    ];
    let (kept, rejected) = invalid_configs(&recorded, &args, &canon, true, "/home/user");
    assert_eq!(kept, strings(&["/etc/hosts"]));
    assert_eq!(rejected.len(), 3);
    assert_eq!(rejected[0], ("~/.vimrc".to_string(), EntryIssue::AlreadyExists));
    assert_eq!(rejected[1], ("missing".to_string(), EntryIssue::PathMissing));
    assert_eq!(rejected[2], ("/etc/hosts2".to_string(), EntryIssue::Duplicate));
}

#[test]
fn config_install_rejects_paths_that_template_to_a_label() {
    let recorded = strings(&[]);
    let args = strings(&["[PACKAGES]"]);
    let canon = vec![Some("[PACKAGES]".to_string())];
    let (kept, rejected) = invalid_configs(&recorded, &args, &canon, true, "/home/user");
    assert!(kept.is_empty());
    assert_eq!(rejected, vec![("[PACKAGES]".to_string(), EntryIssue::Invalid)]);
}

#[test]
fn config_remove_resolves_base_names_to_entries() {
    let recorded = strings(&["home_dir/.vimrc_1", "home_dir/.bashrc_1"]);
    let args = strings(&[".vimrc_1", ".zshrc", ".vimrc_1"]);
    let canon = vec![None, None, None];
    let (kept, rejected) = invalid_configs(&recorded, &args, &canon, false, "/home/user");
    assert_eq!(kept, strings(&["home_dir/.vimrc_1"]));
    assert_eq!(rejected.len(), 2);
    assert_eq!(rejected[0], (".zshrc".to_string(), EntryIssue::NotInstalled));
    assert_eq!(rejected[1], (".vimrc_1".to_string(), EntryIssue::Duplicate));
}

#[test]
fn first_matching_entry_wins() {
    let recorded = strings(&["home_dir/a/conf_1", "home_dir/b/conf_2"]);
    assert_eq!(find_config_entry(&recorded, "conf_1"), Some("home_dir/a/conf_1".to_string()));
    assert_eq!(find_config_entry(&recorded, "conf_2"), Some("home_dir/b/conf_2".to_string()));
    assert_eq!(find_config_entry(&recorded, "conf"), None);
}

#[test]
fn script_install_checks_path_then_record_then_kind() {
    let recorded = strings(&["deploy.sh"]);
    let args = strings(&[
        "/src/run.sh",
        "/src/deploy.sh",
        "/src/none.sh",
        "/src/dir",
        "/other/run.sh",
    ]);
    let resolves = vec![true, true, false, true, true];
    let is_file = vec![true, true, false, false, true];
    let (kept, rejected) = invalid_scripts(&recorded, &args, &resolves, &is_file, true);
    assert_eq!(kept, strings(&["/src/run.sh"]));
    assert_eq!(rejected.len(), 4);
    assert_eq!(rejected[0], ("/src/deploy.sh".to_string(), EntryIssue::AlreadyExists));
    assert_eq!(rejected[1], ("/src/none.sh".to_string(), EntryIssue::PathMissing));
    assert_eq!(rejected[2], ("/src/dir".to_string(), EntryIssue::NotAFile));
    assert_eq!(rejected[3], ("/other/run.sh".to_string(), EntryIssue::Duplicate));
}

#[test]
fn script_remove_wants_recorded_names() {
    let recorded = strings(&["run.sh"]);
    let args = strings(&["run.sh", "other.sh", "run.sh"]);
    let none = vec![false, false, false];
    let (kept, rejected) = invalid_scripts(&recorded, &args, &none, &none, false);
    assert_eq!(kept, strings(&["run.sh"]));
    assert_eq!(rejected.len(), 2);
    assert_eq!(rejected[0], ("other.sh".to_string(), EntryIssue::NotInstalled));
    assert_eq!(rejected[1], ("run.sh".to_string(), EntryIssue::Duplicate));
}
