use alps::mutate::dup_count;
use alps::mutate::install_config;
use alps::mutate::install_package;
use alps::mutate::install_script;
use alps::mutate::mirror_config_path;
use alps::mutate::mirror_script_path;
use alps::mutate::record_path;
use alps::mutate::remove_config;
use alps::mutate::remove_package;
use alps::mutate::remove_script;
use alps::record::read_label;
use alps::validate::EntryIssue;

fn strings(items: &[&str]) -> Vec<String> {
    items.iter().map(|s| s.to_string()).collect()
}

const ROOT: &str = "/home/user/.config/alps/";
const HOME: &str = "/home/user";

#[test]
fn paths_are_assembled_from_their_parts() {
    assert_eq!(record_path(ROOT, "dev"), "/home/user/.config/alps/dev/dev.record");
    assert_eq!(
        mirror_config_path(ROOT, "dev", ".vimrc_1"),
        "/home/user/.config/alps/dev/configs/.vimrc_1"
    );
    assert_eq!(
        mirror_script_path(ROOT, "dev", "run.sh"),
        "/home/user/.config/alps/dev/scripts/run.sh"
    );
}

#[test]
fn dup_count_takes_the_highest_matching_suffix() {
    let text = String::from(
        "[CONFIGS]\nhome_dir/.vimrc_2\nhome_dir/other/.vimrc_5\nhome_dir/.bashrc_9\nplain\n",
    );
    assert_eq!(dup_count(".vimrc", &text), 5);
    assert_eq!(dup_count(".bashrc", &text), 9);
    assert_eq!(dup_count(".zshrc", &text), 0);
}

#[test]
fn partial_batch_installs_only_the_valid_package() {
    let text = String::from("[PACKAGES]\npkg_b\n");
    let args = strings(&["pkg_a", "pkg_b", "pkg_c"]);
    let in_repo = vec![true, true, false];
    let (out, added, rejected) = install_package(&text, &args, &in_repo);
    assert_eq!(added, strings(&["pkg_a"]));
    assert_eq!(rejected.len(), 2);
    assert_eq!(rejected[0], ("pkg_b".to_string(), EntryIssue::AlreadyExists));
    assert_eq!(rejected[1], ("pkg_c".to_string(), EntryIssue::UpstreamMissing));
    assert_eq!(added.len(), 1);
    assert_eq!(args.len() - rejected.len(), 1);
    assert_eq!(read_label("[PACKAGES]", &out), "pkg_a\npkg_b\n");
}

#[test]
fn install_package_without_valid_candidates_leaves_the_text_alone() {
    let text = String::from("some odd text\n");
    let args = strings(&["vim"]);
    let in_repo = vec![false];
    let (out, added, _) = install_package(&text, &args, &in_repo);
    assert!(added.is_empty());
    assert_eq!(out, text);
}

#[test]
fn remove_package_drops_recorded_names() {
    let text = String::from("[PACKAGES]\nvim\ngit\n");
    let (out, removed, rejected) = remove_package(&text, &strings(&["vim", "none"]));
    assert_eq!(removed, strings(&["vim"]));
    assert_eq!(rejected, vec![("none".to_string(), EntryIssue::NotInstalled)]);
    assert_eq!(read_label("[PACKAGES]", &out), "git\n");
}

#[test]
fn a_first_install_records_the_templated_path_without_a_suffix() {
    let text = String::new();
    let args = strings(&["~/.vimrc"]);
    let canon = vec![Some("/home/user/.vimrc".to_string())];
    let (out, entries, copies, rejected) = install_config(&text, &args, &canon, HOME, ROOT, "dev");
    assert!(rejected.is_empty());
    assert_eq!(entries, strings(&["home_dir/.vimrc"]));
    assert_eq!(
        copies,
        vec![(
            "/home/user/.vimrc".to_string(),
            "/home/user/.config/alps/dev/configs/.vimrc".to_string()
        )]
    );
    assert_eq!(read_label("[CONFIGS]", &out), "home_dir/.vimrc\n");
}

#[test]
fn a_name_collision_brings_the_first_free_suffix() {
    let text = String::from("[CONFIGS]\nhome_dir/.vimrc\n");
    let args = strings(&["/tmp/.vimrc"]);
    let canon = vec![Some("/tmp/.vimrc".to_string())];
    let (out, entries, copies, rejected) = install_config(&text, &args, &canon, HOME, ROOT, "dev");
    assert!(rejected.is_empty());
    assert_eq!(entries, strings(&["/tmp/.vimrc_1"]));
    assert_eq!(copies[0].1, "/home/user/.config/alps/dev/configs/.vimrc_1");
    assert_eq!(read_label("[CONFIGS]", &out), "/tmp/.vimrc_1\nhome_dir/.vimrc\n");
}

#[test]
fn a_second_collision_gets_the_next_suffix() {
    let text = String::from("[CONFIGS]\nhome_dir/.vimrc_1\n");
    let args = strings(&["/tmp/.vimrc"]);
    let canon = vec![Some("/tmp/.vimrc".to_string())];
    let (out, entries, copies, rejected) = install_config(&text, &args, &canon, HOME, ROOT, "dev");
    assert!(rejected.is_empty());
    assert_eq!(entries, strings(&["/tmp/.vimrc_2"]));
    assert_eq!(copies[0].1, "/home/user/.config/alps/dev/configs/.vimrc_2");
    assert_eq!(read_label("[CONFIGS]", &out), "/tmp/.vimrc_2\nhome_dir/.vimrc_1\n");
}

#[test]
fn remove_config_prunes_the_entry_and_targets_the_original_path() {
    let text = String::from("[CONFIGS]\nhome_dir/.vimrc_1\n");
    let (out, deletions, rejected) = remove_config(&text, &strings(&[".vimrc_1"]), HOME);
    assert!(rejected.is_empty());
    assert_eq!(deletions, strings(&["/home/user/.vimrc"]));
    assert_eq!(read_label("[CONFIGS]", &out), "");
}

#[test]
fn a_config_whose_suffix_space_is_exhausted_is_rejected() {
    let text = String::from("[CONFIGS]\nhome_dir/x_18446744073709551615\n");
    assert_eq!(dup_count("x", &text), usize::MAX);
    let args = strings(&["/tmp/x"]);
    let canon = vec![Some("/tmp/x".to_string())];
    let (out, entries, copies, rejected) = install_config(&text, &args, &canon, HOME, ROOT, "dev");
    assert_eq!(rejected, vec![("/tmp/x".to_string(), EntryIssue::NoFreeIndex)]);
    assert!(entries.is_empty());
    assert!(copies.is_empty());
    assert_eq!(out, text);
}

#[test]
fn remove_config_handles_unsuffixed_entries_by_their_base_name() {
    let text = String::from("[CONFIGS]\nhome_dir/.vimrc\n");
    let (out, deletions, rejected) = remove_config(&text, &strings(&[".vimrc"]), HOME);
    assert!(rejected.is_empty());
    assert_eq!(deletions, strings(&["/home/user/.vimrc"]));
    assert_eq!(read_label("[CONFIGS]", &out), "");
}

#[test]
fn install_script_records_base_names_and_plans_copies() {
    let text = String::new();
    let args = strings(&["/src/tools/run.sh"]);
    let (out, copies, rejected) =
        install_script(&text, &args, &vec![true], &vec![true], ROOT, "dev");
    assert!(rejected.is_empty());
    assert_eq!(
        copies,
        vec![(
            "/src/tools/run.sh".to_string(),
            "/home/user/.config/alps/dev/scripts/run.sh".to_string()
        )]
    );
    assert_eq!(read_label("[SCRIPTS]", &out), "run.sh\n");
}

#[test]
fn remove_script_prunes_the_name_and_targets_the_mirror() {
    let text = String::from("[SCRIPTS]\nrun.sh\n");
    let (out, deletions, rejected) = remove_script(&text, &strings(&["run.sh"]), ROOT, "dev");
    assert!(rejected.is_empty());
    assert_eq!(deletions, strings(&["/home/user/.config/alps/dev/scripts/run.sh"]));
    assert_eq!(read_label("[SCRIPTS]", &out), "");
}
