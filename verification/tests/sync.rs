use alps::record::read_label;
use alps::sync::sync_config;
use alps::sync::sync_group;
use alps::sync::sync_package;
use alps::sync::sync_script;
use alps::sync::PackageDecision;
use alps::sync::PackageFacts;
use alps::sync::ScriptOutcome;

const ROOT: &str = "/home/user/.config/alps/";
const HOME: &str = "/home/user";

fn facts(installed: bool, group_ok: bool, members_missing: bool, in_repo: bool) -> PackageFacts {
    PackageFacts { installed, group_ok, members_missing, in_repo }
}

#[test]
fn package_pass_decides_per_entry() {
    let text = String::from("[PACKAGES]\ninstalled_one\nmeta_done\nmeta_open\nfresh\ngone\n");
    let fs = vec![
        facts(true, false, false, true),
        facts(false, true, false, true),
        facts(false, true, true, true),
        facts(false, false, false, true),
        facts(false, false, false, false),
    ];
    let (out, batch, decisions) = sync_package(&text, &fs);
    assert_eq!(batch, vec!["meta_open".to_string(), "fresh".to_string()]);
    assert_eq!(
        decisions,
        vec![
            PackageDecision::SkipInstalled,
            PackageDecision::SkipGroupDone,
            PackageDecision::Install,
            PackageDecision::Install,
            PackageDecision::Prune,
        ]
    );
    assert_eq!(read_label("[PACKAGES]", &out), "installed_one\nmeta_done\nmeta_open\nfresh\n");
}

#[test]
fn package_pass_without_prunes_leaves_the_text_alone() {
    let text = String::from("[PACKAGES]\nvim\n");
    let fs = vec![facts(true, false, false, true)];
    let (out, batch, _) = sync_package(&text, &fs);
    assert!(batch.is_empty());
    assert_eq!(out, text);
}

#[test]
fn config_pass_copies_live_mirrors_back() {
    let text = String::from("[CONFIGS]\nhome_dir/.vimrc_1\n");
    let (out, copies, synced) = sync_config(&text, &vec![true], ROOT, "dev", HOME);
    assert_eq!(synced, 1);
    assert_eq!(
        copies,
        vec![(
            "/home/user/.config/alps/dev/configs/.vimrc_1".to_string(),
            "/home/user/.vimrc".to_string()
        )]
    );
    assert_eq!(read_label("[CONFIGS]", &out), "home_dir/.vimrc_1\n");
}

#[test]
fn config_pass_prunes_entries_whose_mirror_vanished() {
    let text = String::from("[CONFIGS]\nhome_dir/.vimrc_1\nhome_dir/.bashrc_1\n");
    let (out, copies, synced) = sync_config(&text, &vec![false, true], ROOT, "dev", HOME);
    assert_eq!(synced, 1);
    assert_eq!(copies.len(), 1);
    let section = read_label("[CONFIGS]", &out);
    assert!(!section.contains("home_dir/.vimrc_1"));
    assert!(section.contains("home_dir/.bashrc_1"));
}

#[test]
fn script_pass_prunes_missing_content_and_keeps_failures() {
    let text = String::from("[SCRIPTS]\nran.sh\nvanished.sh\nbroken.sh\n");
    let outcomes = vec![ScriptOutcome::Ran, ScriptOutcome::MissingContent, ScriptOutcome::Failed];
    let (out, ran) = sync_script(&text, &outcomes);
    assert_eq!(ran, 1);
    assert_eq!(read_label("[SCRIPTS]", &out), "ran.sh\nbroken.sh\n");
}

#[test]
fn group_sync_runs_all_three_passes() {
    let text = String::from("[PACKAGES]\ngone\n\n[CONFIGS]\nhome_dir/.vimrc_1\n\n[SCRIPTS]\nrun.sh\n\n");
    let plan = sync_group(
        &text,
        &vec![facts(false, false, false, false)],
        &vec![false],
        &vec![ScriptOutcome::Ran],
        ROOT,
        "dev",
        HOME,
    );
    assert!(plan.batch.is_empty());
    assert_eq!(plan.synced, 0);
    assert_eq!(plan.ran, 1);
    assert_eq!(read_label("[PACKAGES]", &plan.text), "");
    assert_eq!(read_label("[CONFIGS]", &plan.text), "");
    assert_eq!(read_label("[SCRIPTS]", &plan.text), "run.sh\n");
}
