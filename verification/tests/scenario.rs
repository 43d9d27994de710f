use alps::mutate::install_config;
use alps::record::read_label;
use alps::sync::sync_config;
use alps::template::to_template;
use alps::template::to_userdir;
use alps::validate::invalid_groups;

const ROOT: &str = "/home/user/.config/alps/";
const HOME: &str = "/home/user";

fn strings(items: &[&str]) -> Vec<String> {
    items.iter().map(|s| s.to_string()).collect()
}

#[test]
fn templating_round_trips_under_the_home_directory() {
    let mut path = String::from("/home/user/.vimrc");
    to_template(&mut path, HOME);
    assert_eq!(path, "home_dir/.vimrc");
    to_userdir(&mut path, HOME);
    assert_eq!(path, "/home/user/.vimrc");
}

#[test]
fn paths_outside_the_home_directory_are_kept_as_given() {
    let mut path = String::from("/etc/hosts");
    to_template(&mut path, HOME);
    assert_eq!(path, "/etc/hosts");
    let mut stored = String::from("/etc/hosts");
    to_userdir(&mut stored, HOME);
    assert_eq!(stored, "/etc/hosts");
}

#[test]
fn an_empty_home_directory_never_rewrites_paths() {
    let mut path = String::from("/etc/hosts");
    to_template(&mut path, "");
    assert_eq!(path, "/etc/hosts");
}

#[test]
fn install_group_then_config_then_heal() {
    // Installing group "dev": no directory of that name exists yet.
    let (kept, rejected) = invalid_groups(&strings(&["dev"]), &vec![false], true);
    assert_eq!(kept, strings(&["dev"]));
    assert!(rejected.is_empty());

    // Installing ~/.vimrc as a config of "dev": the record gets one entry,
    // templated to the placeholder form and unsuffixed since nothing collides
    // with its name, and the mirror gets a copy under the group.
    let record = String::new();
    let canon = vec![Some("/home/user/.vimrc".to_string())];
    let (record, entries, copies, rejected) =
        install_config(&record, &strings(&["~/.vimrc"]), &canon, HOME, ROOT, "dev");
    assert!(rejected.is_empty());
    assert_eq!(entries, strings(&["home_dir/.vimrc"]));
    assert_eq!(copies[0].1, "/home/user/.config/alps/dev/configs/.vimrc");
    assert_eq!(read_label("[CONFIGS]", &record), "home_dir/.vimrc\n");

    // Syncing with the target deleted but the mirror alive restores it: the
    // planned copy goes from the mirror back over the target path.
    let (record, copies, synced) = sync_config(&record, &vec![true], ROOT, "dev", HOME);
    assert_eq!(synced, 1);
    assert_eq!(
        copies,
        vec![(
            "/home/user/.config/alps/dev/configs/.vimrc".to_string(),
            "/home/user/.vimrc".to_string()
        )]
    );

    // Deleting the mirror out-of-band and re-running the sync prunes the
    // record entry instead, with no crash.
    let (record, copies, synced) = sync_config(&record, &vec![false], ROOT, "dev", HOME);
    assert_eq!(synced, 0);
    assert!(copies.is_empty());
    assert_eq!(read_label("[CONFIGS]", &record), "");
}
