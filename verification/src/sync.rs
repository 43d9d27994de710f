//! Sync planning: bringing the live system into accordance with a group's
//! declared record.  Facts about the live system — whether a package is
//! installed, whether a mirror copy is present, how a script run ended — are
//! handed in by the caller, one per declared entry; the planner decides what
//! to do and computes the self-healed record text.

use vstd::prelude::*;

use crate::Section;
use crate::record::RecordModel;
use crate::record::apply_removes;
use crate::record::parse_text;
use crate::record::render_model;
use crate::text::base_name_of;
use crate::text::strip_index_of;

verus! {

/// What the live system says about one declared package.
#[derive(Clone, Copy, PartialEq, Eq, Structural, Debug)]
pub struct PackageFacts {
    /// The package itself is already installed.
    pub installed: bool,
    /// The name denotes a package group in the index.
    pub group_ok: bool,
    /// Some member of that package group is not installed.
    pub members_missing: bool,
    /// The index knows the name as a single package.
    pub in_repo: bool,
}

impl DeepView for PackageFacts {
    type V = PackageFacts;

    open spec fn deep_view(&self) -> PackageFacts {
        *self
    }
}

/// What a package sync does with one declared entry.
#[derive(Clone, Copy, PartialEq, Eq, Structural, Debug)]
pub enum PackageDecision {
    /// Already installed: skipped with a diagnostic.
    SkipInstalled,
    /// A package group whose members are all installed: skipped.
    SkipGroupDone,
    /// Added to the batched install command.
    Install,
    /// Gone from the index: pruned from the record.
    Prune,
}

impl DeepView for PackageDecision {
    type V = PackageDecision;

    open spec fn deep_view(&self) -> PackageDecision {
        *self
    }
}

/// The decision for one declared package, from its facts alone.
pub open spec fn package_decision(f: PackageFacts) -> PackageDecision {
    if f.installed {
        PackageDecision::SkipInstalled
    } else if f.group_ok {
        if f.members_missing {
            PackageDecision::Install
        } else {
            PackageDecision::SkipGroupDone
        }
    } else if f.in_repo {
        PackageDecision::Install
    } else {
        PackageDecision::Prune
    }
}

/// The decision for one declared package, from its facts alone.
pub fn decide_package(f: &PackageFacts) -> (r: PackageDecision)
    ensures
        r == package_decision(*f),
{
    if f.installed {
        PackageDecision::SkipInstalled
    } else if f.group_ok {
        if f.members_missing {
            PackageDecision::Install
        } else {
            PackageDecision::SkipGroupDone
        }
    } else if f.in_repo {
        PackageDecision::Install
    } else {
        PackageDecision::Prune
    }
}

/// The entries whose facts decide `d`, in order.
pub open spec fn decided(
    entries: Seq<Seq<char>>,
    fs: Seq<PackageFacts>,
    d: PackageDecision,
) -> Seq<Seq<char>>
    decreases entries.len(),
{
    if entries.len() == 0 {
        Seq::empty()
    } else {
        let pre = decided(entries.drop_last(), fs.drop_last(), d);
        if package_decision(fs.last()) == d {
            pre.push(entries.last())
        } else {
            pre
        }
    }
}

/// Reconciles the declared packages with the live system: already installed
/// entries are skipped, entries the index still knows join the install batch,
/// and entries gone from the index are pruned from the record.
pub fn sync_package(text: &String, facts: &Vec<PackageFacts>) -> (r: (
    String,
    Vec<String>,
    Vec<PackageDecision>,
))
    requires
        facts.len() == parse_text(text@).packages.len(),
    ensures
        ({
            let m = parse_text(text@);
            let fs = facts@;
            let pruned = decided(m.packages, fs, PackageDecision::Prune);
            &&& r.1.deep_view() == decided(m.packages, fs, PackageDecision::Install)
            &&& r.2@ == fs.map_values(|f: PackageFacts| package_decision(f))
            &&& parse_text(r.0@) == apply_removes(m, Section::Packages, pruned)
            &&& (pruned.len() == 0 ==> r.0@ == text@)
            &&& (pruned.len() > 0 ==> r.0@ == render_model(parse_text(r.0@)))
        }),
{
    let ghost m = parse_text(text@);
    let ghost fs = facts@;
    let rec = crate::record::parse_record(text);
    let ghost edv = rec.packages.deep_view();
    let mut batch: Vec<String> = Vec::new();
    let mut decisions: Vec<PackageDecision> = Vec::new();
    let mut pruned: Vec<String> = Vec::new();
    let mut i: usize = 0;
    while i < rec.packages.len()
        invariant
            edv == rec.packages.deep_view(),
            edv == m.packages,
            fs == facts@,
            edv.len() == rec.packages.len(),
            fs.len() == rec.packages.len(),
            i <= rec.packages.len(),
            batch.deep_view() == decided(
                edv.take(i as int),
                fs.take(i as int),
                PackageDecision::Install,
            ),
            pruned.deep_view() == decided(
                edv.take(i as int),
                fs.take(i as int),
                PackageDecision::Prune,
            ),
            decisions@ == fs.take(i as int).map_values(|f: PackageFacts| package_decision(f)),
        decreases rec.packages.len() - i,
    {
        proof {
            assert(edv.take(i as int + 1).drop_last() == edv.take(i as int));
            assert(fs.take(i as int + 1).drop_last() == fs.take(i as int));
            assert(edv.take(i as int + 1).last() == edv[i as int]);
            assert(fs.take(i as int + 1).last() == fs[i as int]);
        }
        let d = decide_package(&facts[i]);
        match d {
            PackageDecision::Install => {
                let ghost old_dv = batch.deep_view();
                batch.push(rec.packages[i].clone());
                proof {
                    assert(batch.deep_view() =~= old_dv.push(edv[i as int]));
                }
            },
            PackageDecision::Prune => {
                let ghost old_dv = pruned.deep_view();
                pruned.push(rec.packages[i].clone());
                proof {
                    assert(pruned.deep_view() =~= old_dv.push(edv[i as int]));
                }
            },
            _ => {},
        }
        decisions.push(d);
        proof {
            assert(decisions@ =~= fs.take(i as int + 1).map_values(
                |f: PackageFacts| package_decision(f),
            ));
        }
        i += 1;
    }
    proof {
        assert(edv.take(rec.packages.len() as int) == edv);
        assert(fs.take(rec.packages.len() as int) == fs);
    }
    let out = crate::mutate::write_all(text, crate::record::packages_label_str(), &pruned, false);
    (out, batch, decisions)
}

/// The entries whose flag reads `want`, in order.
pub open spec fn selected(entries: Seq<Seq<char>>, flags: Seq<bool>, want: bool) -> Seq<Seq<char>>
    decreases entries.len(),
{
    if entries.len() == 0 {
        Seq::empty()
    } else {
        let pre = selected(entries.drop_last(), flags.drop_last(), want);
        if flags.last() == want {
            pre.push(entries.last())
        } else {
            pre
        }
    }
}

/// An entry whose flag reads `want` stands among the selected.
pub proof fn lemma_selected_contains(
    entries: Seq<Seq<char>>,
    flags: Seq<bool>,
    want: bool,
    i: int,
)
    requires
        flags.len() == entries.len(),
        0 <= i < entries.len(),
        flags[i] == want,
    ensures
        selected(entries, flags, want).contains(entries[i]),
    decreases entries.len(),
{
    if i == entries.len() - 1 {
        let s = selected(entries, flags, want);
        assert(s.last() == entries[i]);
        assert(s[s.len() - 1] == entries[i]);
    } else {
        lemma_selected_contains(entries.drop_last(), flags.drop_last(), want, i);
        let pre = selected(entries.drop_last(), flags.drop_last(), want);
        let j = choose|j: int| 0 <= j < pre.len() && pre[j] == entries.drop_last()[i];
        if flags.last() == want {
            assert(selected(entries, flags, want)[j] == entries[i]);
        }
    }
}

/// The copy each config with a live mirror gets: mirror path to detemplated
/// target path.
pub open spec fn config_copies(
    entries: Seq<Seq<char>>,
    flags: Seq<bool>,
    root: Seq<char>,
    group: Seq<char>,
    home: Seq<char>,
) -> Seq<(Seq<char>, Seq<char>)>
    decreases entries.len(),
{
    if entries.len() == 0 {
        Seq::empty()
    } else {
        let pre = config_copies(entries.drop_last(), flags.drop_last(), root, group, home);
        if flags.last() {
            pre.push(
                (
                    crate::mutate::mirror_config_path_spec(
                        root,
                        group,
                        base_name_of(entries.last()),
                    ),
                    crate::template::userdir_spec(strip_index_of(entries.last()), home),
                ),
            )
        } else {
            pre
        }
    }
}

/// Reconciles the declared configs with the live system: each entry whose
/// mirror copy is present is copied back over its target path; each entry
/// whose mirror copy has vanished is pruned from the record.
pub fn sync_config(
    text: &String,
    mirror_exists: &Vec<bool>,
    root: &str,
    group: &str,
    home: &str,
) -> (r: (String, Vec<(String, String)>, usize))
    requires
        mirror_exists.len() == parse_text(text@).configs.len(),
    ensures
        ({
            let m = parse_text(text@);
            let me = mirror_exists@;
            let pruned = selected(m.configs, me, false);
            &&& r.1.deep_view() == config_copies(m.configs, me, root@, group@, home@)
            &&& r.2 as int == r.1.deep_view().len()
            &&& parse_text(r.0@) == apply_removes(m, Section::Configs, pruned)
            &&& (pruned.len() == 0 ==> r.0@ == text@)
            &&& (pruned.len() > 0 ==> r.0@ == render_model(parse_text(r.0@)))
        }),
{
    proof {
        crate::record::lemma_label_lines();
    }
    let ghost m = parse_text(text@);
    let ghost me = mirror_exists@;
    let rec = crate::record::parse_record(text);
    let ghost edv = rec.configs.deep_view();
    let mut copies: Vec<(String, String)> = Vec::new();
    let mut pruned: Vec<String> = Vec::new();
    let mut i: usize = 0;
    while i < rec.configs.len()
        invariant
            edv == rec.configs.deep_view(),
            edv == m.configs,
            me == mirror_exists@,
            edv.len() == rec.configs.len(),
            me.len() == rec.configs.len(),
            i <= rec.configs.len(),
            copies.deep_view() == config_copies(
                edv.take(i as int),
                me.take(i as int),
                root@,
                group@,
                home@,
            ),
            pruned.deep_view() == selected(edv.take(i as int), me.take(i as int), false),
        decreases rec.configs.len() - i,
    {
        proof {
            assert(edv.take(i as int + 1).drop_last() == edv.take(i as int));
            assert(me.take(i as int + 1).drop_last() == me.take(i as int));
            assert(edv.take(i as int + 1).last() == edv[i as int]);
            assert(me.take(i as int + 1).last() == me[i as int]);
        }
        if mirror_exists[i] {
            let name = crate::text::base_name(rec.configs[i].as_str());
            let src = crate::mutate::mirror_config_path(root, group, name);
            let mut dst = String::from_str(crate::text::strip_index(rec.configs[i].as_str()));
            crate::template::to_userdir(&mut dst, home);
            let ghost old_dv = copies.deep_view();
            let ghost srcv = src@;
            let ghost dstv = dst@;
            copies.push((src, dst));
            proof {
                assert(copies.deep_view() =~= old_dv.push((srcv, dstv)));
                assert(srcv == crate::mutate::mirror_config_path_spec(
                    root@,
                    group@,
                    base_name_of(edv[i as int]),
                ));
                assert(dstv == crate::template::userdir_spec(
                    strip_index_of(edv[i as int]),
                    home@,
                ));
            }
        } else {
            let ghost old_dv = pruned.deep_view();
            pruned.push(rec.configs[i].clone());
            proof {
                assert(pruned.deep_view() =~= old_dv.push(edv[i as int]));
            }
        }
        i += 1;
    }
    proof {
        assert(edv.take(rec.configs.len() as int) == edv);
        assert(me.take(rec.configs.len() as int) == me);
    }
    let out = crate::mutate::write_all(text, crate::record::configs_label_str(), &pruned, false);
    let n = copies.len();
    (out, copies, n)
}

/// Law: self-healing — when a config entry's mirror copy has vanished and a
/// config sync runs, the record afterwards no longer contains that entry.
pub proof fn lemma_sync_config_self_healing(m: RecordModel, me: Seq<bool>, i: int)
    requires
        me.len() == m.configs.len(),
        0 <= i < me.len(),
        !me[i],
    ensures
        !apply_removes(m, Section::Configs, selected(m.configs, me, false)).configs.contains(
            m.configs[i],
        ),
{
    let pruned = selected(m.configs, me, false);
    lemma_selected_contains(m.configs, me, false, i);
    crate::record::lemma_apply_removes(m, Section::Configs, pruned);
    let fin = apply_removes(m, Section::Configs, pruned);
    assert(fin.section(Section::Configs) == fin.configs);
}

/// How one declared script's run ended.
#[derive(Clone, Copy, PartialEq, Eq, Structural, Debug)]
pub enum ScriptOutcome {
    /// The script ran.
    Ran,
    /// The mirrored script was not found: its content has vanished.
    MissingContent,
    /// The run failed for another reason; the entry is kept for a retry.
    Failed,
}

impl DeepView for ScriptOutcome {
    type V = ScriptOutcome;

    open spec fn deep_view(&self) -> ScriptOutcome {
        *self
    }
}

/// The entries whose run found no content, in order: what a script sync
/// prunes.
pub open spec fn pruned_scripts(entries: Seq<Seq<char>>, os: Seq<ScriptOutcome>) -> Seq<Seq<char>>
    decreases entries.len(),
{
    if entries.len() == 0 {
        Seq::empty()
    } else {
        let pre = pruned_scripts(entries.drop_last(), os.drop_last());
        if os.last() == ScriptOutcome::MissingContent {
            pre.push(entries.last())
        } else {
            pre
        }
    }
}

/// How many runs ended well.
pub open spec fn ran_count(os: Seq<ScriptOutcome>) -> int
    decreases os.len(),
{
    if os.len() == 0 {
        0
    } else {
        ran_count(os.drop_last()) + if os.last() == ScriptOutcome::Ran {
            1int
        } else {
            0int
        }
    }
}

/// Settles the record after the declared scripts were run: an entry whose
/// mirrored script was not found is pruned from the record; an entry whose
/// run failed otherwise is kept for the next sync.
pub fn sync_script(text: &String, outcomes: &Vec<ScriptOutcome>) -> (r: (String, usize))
    requires
        outcomes.len() == parse_text(text@).scripts.len(),
    ensures
        ({
            let m = parse_text(text@);
            let os = outcomes@;
            let pruned = pruned_scripts(m.scripts, os);
            &&& parse_text(r.0@) == apply_removes(m, Section::Scripts, pruned)
            &&& r.1 as int == ran_count(os)
            &&& (pruned.len() == 0 ==> r.0@ == text@)
            &&& (pruned.len() > 0 ==> r.0@ == render_model(parse_text(r.0@)))
        }),
{
    proof {
        crate::record::lemma_label_lines();
    }
    let ghost m = parse_text(text@);
    let ghost os = outcomes@;
    let rec = crate::record::parse_record(text);
    let ghost edv = rec.scripts.deep_view();
    let mut pruned: Vec<String> = Vec::new();
    let mut ran: usize = 0;
    let mut i: usize = 0;
    while i < rec.scripts.len()
        invariant
            edv == rec.scripts.deep_view(),
            edv == m.scripts,
            os == outcomes@,
            edv.len() == rec.scripts.len(),
            os.len() == rec.scripts.len(),
            i <= rec.scripts.len(),
            pruned.deep_view() == pruned_scripts(edv.take(i as int), os.take(i as int)),
            ran as int == ran_count(os.take(i as int)),
            ran <= i,
        decreases rec.scripts.len() - i,
    {
        proof {
            assert(edv.take(i as int + 1).drop_last() == edv.take(i as int));
            assert(os.take(i as int + 1).drop_last() == os.take(i as int));
            assert(edv.take(i as int + 1).last() == edv[i as int]);
            assert(os.take(i as int + 1).last() == os[i as int]);
        }
        match outcomes[i] {
            ScriptOutcome::Ran => {
                ran += 1;
            },
            ScriptOutcome::MissingContent => {
                let ghost old_dv = pruned.deep_view();
                pruned.push(rec.scripts[i].clone());
                proof {
                    assert(pruned.deep_view() =~= old_dv.push(edv[i as int]));
                }
            },
            ScriptOutcome::Failed => {},
        }
        i += 1;
    }
    proof {
        assert(edv.take(rec.scripts.len() as int) == edv);
        assert(os.take(rec.scripts.len() as int) == os);
    }
    let out = crate::mutate::write_all(text, crate::record::scripts_label_str(), &pruned, false);
    (out, ran)
}

/// The whole plan of one group sync: the three passes in order.
pub struct GroupSyncPlan {
    /// The self-healed record text after all three passes.
    pub text: String,
    /// The packages to hand to the batched install command.
    pub batch: Vec<String>,
    /// The decision taken for each declared package.
    pub decisions: Vec<PackageDecision>,
    /// The mirror-to-target copies to perform.
    pub copies: Vec<(String, String)>,
    /// How many configs have a live mirror copy.
    pub synced: usize,
    /// How many script runs ended well.
    pub ran: usize,
}

/// Reconciles a whole group: the package pass, then the config pass, then the
/// script pass, each self-healing its own section and leaving the others
/// untouched.
pub fn sync_group(
    text: &String,
    pfacts: &Vec<PackageFacts>,
    mirror_exists: &Vec<bool>,
    outcomes: &Vec<ScriptOutcome>,
    root: &str,
    group: &str,
    home: &str,
) -> (r: GroupSyncPlan)
    requires
        pfacts.len() == parse_text(text@).packages.len(),
        mirror_exists.len() == parse_text(text@).configs.len(),
        outcomes.len() == parse_text(text@).scripts.len(),
    ensures
        ({
            let m = parse_text(text@);
            let m1 = apply_removes(
                m,
                Section::Packages,
                decided(m.packages, pfacts@, PackageDecision::Prune),
            );
            let m2 = apply_removes(m1, Section::Configs, selected(m.configs, mirror_exists@, false));
            let m3 = apply_removes(m2, Section::Scripts, pruned_scripts(m.scripts, outcomes@));
            &&& parse_text(r.text@) == m3
            &&& r.batch.deep_view() == decided(m.packages, pfacts@, PackageDecision::Install)
            &&& r.decisions@ == pfacts@.map_values(|f: PackageFacts| package_decision(f))
            &&& r.copies.deep_view() == config_copies(
                m.configs,
                mirror_exists@,
                root@,
                group@,
                home@,
            )
            &&& r.synced as int == r.copies.deep_view().len()
            &&& r.ran as int == ran_count(outcomes@)
        }),
{
    let ghost m = parse_text(text@);
    let (t1, batch, decisions) = sync_package(text, pfacts);
    proof {
        crate::record::lemma_apply_removes(
            m,
            Section::Packages,
            decided(m.packages, pfacts@, PackageDecision::Prune),
        );
        let m1 = apply_removes(
            m,
            Section::Packages,
            decided(m.packages, pfacts@, PackageDecision::Prune),
        );
        assert(m1.section(Section::Configs) == m.section(Section::Configs));
        assert(m1.section(Section::Scripts) == m.section(Section::Scripts));
        assert(parse_text(t1@).configs == m.configs);
        assert(parse_text(t1@).scripts == m.scripts);
    }
    let (t2, copies, synced) = sync_config(&t1, mirror_exists, root, group, home);
    proof {
        crate::record::lemma_apply_removes(
            parse_text(t1@),
            Section::Configs,
            selected(m.configs, mirror_exists@, false),
        );
        let m2 = apply_removes(
            parse_text(t1@),
            Section::Configs,
            selected(m.configs, mirror_exists@, false),
        );
        assert(m2.section(Section::Scripts) == parse_text(t1@).section(Section::Scripts));
        assert(parse_text(t2@).scripts == m.scripts);
    }
    let (t3, ran) = sync_script(&t2, outcomes);
    GroupSyncPlan { text: t3, batch, decisions, copies, synced, ran }
}

} // verus!