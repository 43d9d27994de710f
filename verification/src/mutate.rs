//! Mutation planning: validating a batch of candidates and computing the new
//! record text together with the filesystem actions (copies, deletions) the
//! caller must perform.  The record is the source of truth; the actions are
//! best-effort and never roll the record back.

use vstd::prelude::*;

use crate::Section;
use crate::record::RecordModel;
use crate::record::apply_adds;
use crate::record::apply_removes;
use crate::record::parse_text;
use crate::record::render_model;
use crate::text::base_name_of;
use crate::text::dec_digits;
use crate::text::digits_val;
use crate::text::is_digit_seq;
use crate::text::split_last;
use crate::validate::EntryIssue;

verus! {

/// The path of a group's record file.
pub open spec fn record_path_spec(root: Seq<char>, group: Seq<char>) -> Seq<char> {
    root + group + "/"@ + group + ".record"@
}

/// The path of a group's record file.
pub fn record_path(root: &str, group: &str) -> (r: String)
    ensures
        r@ == record_path_spec(root@, group@),
{
    let mut out = String::from_str(root);
    out.append(group);
    out.append("/");
    out.append(group);
    out.append(".record");
    proof {
        assert(out@ =~= record_path_spec(root@, group@));
    }
    out
}

/// The path of a config's mirror copy inside its group.
pub open spec fn mirror_config_path_spec(
    root: Seq<char>,
    group: Seq<char>,
    name: Seq<char>,
) -> Seq<char> {
    root + group + "/configs/"@ + name
}

/// The path of a config's mirror copy inside its group.
pub fn mirror_config_path(root: &str, group: &str, name: &str) -> (r: String)
    ensures
        r@ == mirror_config_path_spec(root@, group@, name@),
{
    let mut out = String::from_str(root);
    out.append(group);
    out.append("/configs/");
    out.append(name);
    proof {
        assert(out@ =~= mirror_config_path_spec(root@, group@, name@));
    }
    out
}

/// The path of a script's mirror copy inside its group.
pub open spec fn mirror_script_path_spec(
    root: Seq<char>,
    group: Seq<char>,
    name: Seq<char>,
) -> Seq<char> {
    root + group + "/scripts/"@ + name
}

/// The path of a script's mirror copy inside its group.
pub fn mirror_script_path(root: &str, group: &str, name: &str) -> (r: String)
    ensures
        r@ == mirror_script_path_spec(root@, group@, name@),
{
    let mut out = String::from_str(root);
    out.append(group);
    out.append("/scripts/");
    out.append(name);
    proof {
        assert(out@ =~= mirror_script_path_spec(root@, group@, name@));
    }
    out
}

/// The disambiguation index a config entry carries for `config`: the value of
/// its `_N` suffix when the entry's base name, suffix aside, reads `config`.
pub open spec fn entry_index(config: Seq<char>, e: Seq<char>) -> Option<int> {
    match split_last(base_name_of(e), '_') {
        None => None,
        Some((name, idx)) => if name == config && is_digit_seq(idx) && digits_val(idx)
            <= usize::MAX as int {
            Some(digits_val(idx))
        } else {
            None
        },
    }
}

/// The highest disambiguation index any entry of `es` carries for `config`,
/// zero when none does.
pub open spec fn dup_count_model(config: Seq<char>, es: Seq<Seq<char>>) -> int
    decreases es.len(),
{
    if es.len() == 0 {
        0
    } else {
        let pre = dup_count_model(config, es.drop_last());
        match entry_index(config, es.last()) {
            Some(v) => if v > pre {
                v
            } else {
                pre
            },
            None => pre,
        }
    }
}

/// The highest index is a `usize`.
pub proof fn lemma_dup_count_bounds(config: Seq<char>, es: Seq<Seq<char>>)
    ensures
        0 <= dup_count_model(config, es) <= usize::MAX as int,
    decreases es.len(),
{
    if es.len() > 0 {
        lemma_dup_count_bounds(config, es.drop_last());
    }
}

/// The highest disambiguation index among `entries` for `config`.
fn highest_index(config: &str, entries: &Vec<String>) -> (r: usize)
    ensures
        r as int == dup_count_model(config@, entries.deep_view()),
{
    let ghost dv = entries.deep_view();
    let mut highest: usize = 0;
    let mut i: usize = 0;
    while i < entries.len()
        invariant
            dv == entries.deep_view(),
            dv.len() == entries.len(),
            i <= entries.len(),
            highest as int == dup_count_model(config@, dv.take(i as int)),
        decreases entries.len() - i,
    {
        proof {
            assert(dv.take(i as int + 1).drop_last() == dv.take(i as int));
            assert(dv.take(i as int + 1).last() == dv[i as int]);
        }
        let b = crate::text::base_name(entries[i].as_str());
        let n = b.unicode_len();
        match crate::text::rfind_char(b, '_') {
            Some(j) => {
                proof {
                    crate::text::lemma_split_last_at(b@, '_', j as int);
                }
                let name = b.substring_char(0, j);
                let idx = b.substring_char(j + 1, n);
                match crate::text::parse_index(idx) {
                    Some(v) => {
                        if crate::text::str_eq(name, config) && v > highest {
                            highest = v;
                        }
                    },
                    None => {},
                }
            },
            None => {
                proof {
                    crate::text::lemma_split_last_none(b@, '_');
                }
            },
        }
        i += 1;
    }
    proof {
        assert(dv.take(entries.len() as int) == dv);
    }
    highest
}

/// The highest disambiguation index any recorded config entry carries for
/// `config`: what numbers the next install of a file of that name.
pub fn dup_count(config: &str, text: &String) -> (r: usize)
    ensures
        r as int == dup_count_model(config@, parse_text(text@).configs),
{
    let rec = crate::record::parse_record(text);
    highest_index(config, &rec.configs)
}

/// Applies one record write per entry, in order.
pub(crate) fn write_all(text: &String, label: &str, entries: &Vec<String>, mode: bool) -> (r: String)
    requires
        crate::record::is_label_line(label@),
        mode ==> forall|i: int|
            0 <= i < entries.deep_view().len() ==> crate::record::wf_entry(
                #[trigger] entries.deep_view()[i],
            ),
    ensures
        parse_text(r@) == if mode {
            apply_adds(parse_text(text@), crate::record::section_of(label@), entries.deep_view())
        } else {
            apply_removes(
                parse_text(text@),
                crate::record::section_of(label@),
                entries.deep_view(),
            )
        },
        entries.len() == 0 ==> r@ == text@,
        entries.len() > 0 ==> r@ == render_model(parse_text(r@)),
{
    let ghost m = parse_text(text@);
    let ghost sec = crate::record::section_of(label@);
    let ghost edv = entries.deep_view();
    let mut cur = text.clone();
    let mut i: usize = 0;
    while i < entries.len()
        invariant
            edv == entries.deep_view(),
            edv.len() == entries.len(),
            i <= entries.len(),
            crate::record::is_label_line(label@),
            sec == crate::record::section_of(label@),
            m == parse_text(text@),
            mode ==> forall|k: int|
                0 <= k < edv.len() ==> crate::record::wf_entry(#[trigger] edv[k]),
            parse_text(cur@) == if mode {
                apply_adds(m, sec, edv.take(i as int))
            } else {
                apply_removes(m, sec, edv.take(i as int))
            },
            i == 0 ==> cur@ == text@,
            i > 0 ==> cur@ == render_model(parse_text(cur@)),
        decreases entries.len() - i,
    {
        proof {
            assert(edv.take(i as int + 1).drop_last() == edv.take(i as int));
            assert(edv.take(i as int + 1).last() == edv[i as int]);
        }
        let next = crate::record::config_write(&cur, label, entries[i].as_str(), mode);
        proof {
            crate::record::lemma_parse_text_wf(cur@);
            crate::record::lemma_write_model_wf(parse_text(cur@), sec, edv[i as int], mode);
            crate::record::lemma_parse_render(parse_text(next@));
        }
        cur = next;
        i += 1;
    }
    proof {
        assert(edv.take(entries.len() as int) == edv);
    }
    cur
}

/// Declares packages in a group's record: validates the batch against the
/// record and the package index, then records each kept name.  No package is
/// installed here — a later sync does that.
pub fn install_package(text: &String, args: &Vec<String>, in_repo: &Vec<bool>) -> (r: (
    String,
    Vec<String>,
    Vec<(String, EntryIssue)>,
))
    requires
        in_repo.len() == args.len(),
    ensures
        ({
            let m = parse_text(text@);
            let kept = crate::validate::packages_kept(args.deep_view(), in_repo@, m.packages, true);
            &&& r.1.deep_view() == kept
            &&& r.2.deep_view() == crate::validate::packages_rejected(
                args.deep_view(),
                in_repo@,
                m.packages,
                true,
            )
            &&& parse_text(r.0@) == apply_adds(m, Section::Packages, kept)
            &&& (kept.len() == 0 ==> r.0@ == text@)
            &&& (kept.len() > 0 ==> r.0@ == render_model(parse_text(r.0@)))
        }),
{
    let rec = crate::record::parse_record(text);
    let (kept, rejected) = crate::validate::invalid_packages(&rec.packages, args, in_repo, true);
    proof {
        crate::validate::lemma_packages_kept_wf(args.deep_view(), in_repo@, rec.packages.deep_view());
    }
    let out = write_all(text, crate::record::packages_label_str(), &kept, true);
    (out, kept, rejected)
}

/// Withdraws packages from a group's record: validates the batch against the
/// record, then removes each kept name.
pub fn remove_package(text: &String, args: &Vec<String>) -> (r: (
    String,
    Vec<String>,
    Vec<(String, EntryIssue)>,
))
    ensures
        ({
            let m = parse_text(text@);
            let no_repo = Seq::<bool>::new(args.deep_view().len(), |i: int| false);
            let kept = crate::validate::packages_kept(
                args.deep_view(),
                no_repo,
                m.packages,
                false,
            );
            &&& r.1.deep_view() == kept
            &&& r.2.deep_view() == crate::validate::packages_rejected(
                args.deep_view(),
                no_repo,
                m.packages,
                false,
            )
            &&& parse_text(r.0@) == apply_removes(m, Section::Packages, kept)
            &&& (kept.len() == 0 ==> r.0@ == text@)
            &&& (kept.len() > 0 ==> r.0@ == render_model(parse_text(r.0@)))
        }),
{
    let rec = crate::record::parse_record(text);
    let mut no_repo: Vec<bool> = Vec::new();
    let mut i: usize = 0;
    while i < args.len()
        invariant
            i <= args.len(),
            no_repo@ =~= Seq::<bool>::new(i as nat, |k: int| false),
        decreases args.len() - i,
    {
        no_repo.push(false);
        i += 1;
    }
    let (kept, rejected) = crate::validate::invalid_packages(&rec.packages, args, &no_repo, false);
    proof {
        assert(no_repo@ =~= Seq::<bool>::new(args.deep_view().len(), |i: int| false));
    }
    let out = write_all(text, crate::record::packages_label_str(), &kept, false);
    (out, kept, rejected)
}

/// Declares scripts in a group's record: validates the batch, records each
/// kept script's base name, and lists the copies (source path, mirror path)
/// the caller must perform.
pub fn install_script(
    text: &String,
    args: &Vec<String>,
    resolves: &Vec<bool>,
    is_file: &Vec<bool>,
    root: &str,
    group: &str,
) -> (r: (String, Vec<(String, String)>, Vec<(String, EntryIssue)>))
    requires
        resolves.len() == args.len(),
        is_file.len() == args.len(),
    ensures
        ({
            let m = parse_text(text@);
            let kept = crate::validate::scripts_add_kept(
                args.deep_view(),
                resolves@,
                is_file@,
                m.scripts,
            );
            let names = kept.map_values(|e: Seq<char>| base_name_of(e));
            &&& parse_text(r.0@) == apply_adds(m, Section::Scripts, names)
            &&& (kept.len() == 0 ==> r.0@ == text@)
            &&& (kept.len() > 0 ==> r.0@ == render_model(parse_text(r.0@)))
            &&& r.1.deep_view() == kept.map_values(
                |e: Seq<char>| (e, mirror_script_path_spec(root@, group@, base_name_of(e))),
            )
            &&& r.2.deep_view() == crate::validate::scripts_add_rejected(
                args.deep_view(),
                resolves@,
                is_file@,
                m.scripts,
            )
        }),
{
    proof {
        crate::record::lemma_label_lines();
    }
    let rec = crate::record::parse_record(text);
    let (kept, rejected) = crate::validate::invalid_scripts(
        &rec.scripts,
        args,
        resolves,
        is_file,
        true,
    );
    let ghost kdv = kept.deep_view();
    proof {
        crate::validate::lemma_scripts_add_kept_wf(
            args.deep_view(),
            resolves@,
            is_file@,
            rec.scripts.deep_view(),
        );
    }
    let mut names: Vec<String> = Vec::new();
    let mut copies: Vec<(String, String)> = Vec::new();
    let mut i: usize = 0;
    while i < kept.len()
        invariant
            kdv == kept.deep_view(),
            kdv.len() == kept.len(),
            i <= kept.len(),
            names.deep_view() == kdv.take(i as int).map_values(|e: Seq<char>| base_name_of(e)),
            copies.deep_view() == kdv.take(i as int).map_values(
                |e: Seq<char>| (e, mirror_script_path_spec(root@, group@, base_name_of(e))),
            ),
        decreases kept.len() - i,
    {
        let name = crate::text::base_name(kept[i].as_str());
        let dst = mirror_script_path(root, group, name);
        let ghost old_names = names.deep_view();
        let ghost old_copies = copies.deep_view();
        let ghost dstv = dst@;
        names.push(String::from_str(name));
        copies.push((kept[i].clone(), dst));
        proof {
            assert(kdv[i as int] == kept.deep_view()[i as int]);
            assert(name@ == base_name_of(kdv[i as int]));
            assert(names.deep_view() =~= old_names.push(name@));
            assert(copies.deep_view() =~= old_copies.push((kdv[i as int], dstv)));
            assert(names.deep_view() =~= kdv.take(i as int + 1).map_values(
                |e: Seq<char>| base_name_of(e),
            ));
            assert(copies.deep_view() =~= kdv.take(i as int + 1).map_values(
                |e: Seq<char>| (e, mirror_script_path_spec(root@, group@, base_name_of(e))),
            ));
        }
        i += 1;
    }
    proof {
        assert(kdv.take(kept.len() as int) == kdv);
        assert forall|k: int| 0 <= k < names.deep_view().len() implies crate::record::wf_entry(
            #[trigger] names.deep_view()[k],
        ) by {
            assert(names.deep_view()[k] == base_name_of(kdv[k]));
        }
    }
    let out = write_all(text, crate::record::scripts_label_str(), &names, true);
    (out, copies, rejected)
}

/// Withdraws scripts from a group's record: validates the batch, removes each
/// kept name, and lists the mirror files the caller must delete.
pub fn remove_script(text: &String, args: &Vec<String>, root: &str, group: &str) -> (r: (
    String,
    Vec<String>,
    Vec<(String, EntryIssue)>,
))
    ensures
        ({
            let m = parse_text(text@);
            let kept = crate::validate::scripts_remove_kept(args.deep_view(), m.scripts);
            &&& parse_text(r.0@) == apply_removes(m, Section::Scripts, kept)
            &&& (kept.len() == 0 ==> r.0@ == text@)
            &&& (kept.len() > 0 ==> r.0@ == render_model(parse_text(r.0@)))
            &&& r.1.deep_view() == kept.map_values(
                |n: Seq<char>| mirror_script_path_spec(root@, group@, n),
            )
            &&& r.2.deep_view() == crate::validate::scripts_remove_rejected(
                args.deep_view(),
                m.scripts,
            )
        }),
{
    proof {
        crate::record::lemma_label_lines();
    }
    let rec = crate::record::parse_record(text);
    let mut unused: Vec<bool> = Vec::new();
    let mut i: usize = 0;
    while i < args.len()
        invariant
            i <= args.len(),
            unused.len() == i,
        decreases args.len() - i,
    {
        unused.push(false);
        i += 1;
    }
    let (kept, rejected) = crate::validate::invalid_scripts(
        &rec.scripts,
        args,
        &unused,
        &unused,
        false,
    );
    let ghost kdv = kept.deep_view();
    let mut deletions: Vec<String> = Vec::new();
    let mut j: usize = 0;
    while j < kept.len()
        invariant
            kdv == kept.deep_view(),
            kdv.len() == kept.len(),
            j <= kept.len(),
            deletions.deep_view() == kdv.take(j as int).map_values(
                |n: Seq<char>| mirror_script_path_spec(root@, group@, n),
            ),
        decreases kept.len() - j,
    {
        let dst = mirror_script_path(root, group, kept[j].as_str());
        let ghost old_dels = deletions.deep_view();
        let ghost dstv = dst@;
        deletions.push(dst);
        proof {
            assert(kdv[j as int] == kept.deep_view()[j as int]);
            assert(dstv == mirror_script_path_spec(root@, group@, kdv[j as int]));
            assert(deletions.deep_view() =~= old_dels.push(dstv));
            assert(deletions.deep_view() =~= kdv.take(j as int + 1).map_values(
                |n: Seq<char>| mirror_script_path_spec(root@, group@, n),
            ));
        }
        j += 1;
    }
    proof {
        assert(kdv.take(kept.len() as int) == kdv);
    }
    let out = write_all(text, crate::record::scripts_label_str(), &kept, false);
    (out, deletions, rejected)
}

/// Withdraws configs from a group's record: validates the batch of base
/// names, removes each resolved entry, and lists the original filesystem
/// locations the caller must delete.  The mirror copy is retained: a later
/// sync re-derives the original from it.
pub fn remove_config(text: &String, args: &Vec<String>, home: &str) -> (r: (
    String,
    Vec<String>,
    Vec<(String, EntryIssue)>,
))
    ensures
        ({
            let m = parse_text(text@);
            let kept = crate::validate::configs_remove_kept(args.deep_view(), m.configs);
            &&& parse_text(r.0@) == apply_removes(m, Section::Configs, kept)
            &&& (kept.len() == 0 ==> r.0@ == text@)
            &&& (kept.len() > 0 ==> r.0@ == render_model(parse_text(r.0@)))
            &&& r.1.deep_view() == kept.map_values(
                |e: Seq<char>| crate::template::userdir_spec(crate::text::strip_index_of(e), home@),
            )
            &&& r.2.deep_view() == crate::validate::configs_remove_rejected(
                args.deep_view(),
                m.configs,
            )
        }),
{
    proof {
        crate::record::lemma_label_lines();
    }
    let rec = crate::record::parse_record(text);
    let mut no_canon: Vec<Option<String>> = Vec::new();
    let mut i: usize = 0;
    while i < args.len()
        invariant
            i <= args.len(),
            no_canon.len() == i,
        decreases args.len() - i,
    {
        no_canon.push(None);
        i += 1;
    }
    let (kept, rejected) = crate::validate::invalid_configs(
        &rec.configs,
        args,
        &no_canon,
        false,
        home,
    );
    let ghost kdv = kept.deep_view();
    let mut deletions: Vec<String> = Vec::new();
    let mut j: usize = 0;
    while j < kept.len()
        invariant
            kdv == kept.deep_view(),
            kdv.len() == kept.len(),
            j <= kept.len(),
            deletions.deep_view() == kdv.take(j as int).map_values(
                |e: Seq<char>| crate::template::userdir_spec(crate::text::strip_index_of(e), home@),
            ),
        decreases kept.len() - j,
    {
        let mut target = String::from_str(crate::text::strip_index(kept[j].as_str()));
        crate::template::to_userdir(&mut target, home);
        let ghost old_dels = deletions.deep_view();
        let ghost tv = target@;
        deletions.push(target);
        proof {
            assert(kdv[j as int] == kept.deep_view()[j as int]);
            assert(tv == crate::template::userdir_spec(
                crate::text::strip_index_of(kdv[j as int]),
                home@,
            ));
            assert(deletions.deep_view() =~= old_dels.push(tv));
            assert(deletions.deep_view() =~= kdv.take(j as int + 1).map_values(
                |e: Seq<char>| crate::template::userdir_spec(crate::text::strip_index_of(e), home@),
            ));
        }
        j += 1;
    }
    proof {
        assert(kdv.take(kept.len() as int) == kdv);
    }
    let out = write_all(text, crate::record::configs_label_str(), &kept, false);
    (out, deletions, rejected)
}

/// Whether some recorded config entry's base name, its disambiguation
/// suffix ignored, reads `b`: the test that decides whether a new install of
/// base name `b` needs a suffix at all.
pub open spec fn config_collides(cfgs: Seq<Seq<char>>, b: Seq<char>) -> bool {
    exists|i: int|
        0 <= i < cfgs.len() && crate::text::strip_index_of(
            base_name_of(#[trigger] cfgs[i]),
        ) == b
}

/// Whether some entry's base name, suffix ignored, reads `b`.
fn collides_with(entries: &Vec<String>, b: &str) -> (r: bool)
    ensures
        r == config_collides(entries.deep_view(), b@),
{
    let ghost dv = entries.deep_view();
    let mut i: usize = 0;
    while i < entries.len()
        invariant
            dv == entries.deep_view(),
            dv.len() == entries.len(),
            i <= entries.len(),
            forall|k: int|
                0 <= k < i ==> crate::text::strip_index_of(
                    base_name_of(#[trigger] dv[k]),
                ) != b@,
        decreases entries.len() - i,
    {
        if crate::text::str_eq(
            crate::text::strip_index(crate::text::base_name(entries[i].as_str())),
            b,
        ) {
            proof {
                assert(crate::text::strip_index_of(base_name_of(dv[i as int])) == b@);
            }
            return true;
        }
        i += 1;
    }
    false
}

/// The record entry a resolved config path `p` gets: its templated path
/// alone, or, when its base name collides with a recorded entry, the
/// templated path carrying the next free disambiguation suffix.
pub open spec fn config_entry_spec(cfgs: Seq<Seq<char>>, p: Seq<char>, home: Seq<char>) -> Seq<
    char,
> {
    if config_collides(cfgs, base_name_of(p)) {
        crate::template::template_spec(p, home) + seq!['_'] + dec_digits(
            dup_count_model(base_name_of(p), cfgs) + 1,
        )
    } else {
        crate::template::template_spec(p, home)
    }
}

/// Installing a batch of resolved config paths, in order: each one is added
/// to the configs section of the record built so far — suffixed only when
/// its base name collides with a recorded entry — and yields one mirror copy
/// (source path, mirror path).  A path whose base name collides but whose
/// suffix space is used up is rejected instead.
pub open spec fn install_configs_fold(
    m: RecordModel,
    kept: Seq<Seq<char>>,
    home: Seq<char>,
    root: Seq<char>,
    group: Seq<char>,
) -> (RecordModel, Seq<Seq<char>>, Seq<(Seq<char>, Seq<char>)>, Seq<(Seq<char>, EntryIssue)>)
    decreases kept.len(),
{
    if kept.len() == 0 {
        (m, Seq::empty(), Seq::empty(), Seq::empty())
    } else {
        let (pre, ents, cps, rejs) = install_configs_fold(m, kept.drop_last(), home, root, group);
        let p = kept.last();
        let b = base_name_of(p);
        if !config_collides(pre.configs, b) {
            let entry = config_entry_spec(pre.configs, p, home);
            (
                crate::record::write_model(pre, Section::Configs, entry, true),
                ents.push(entry),
                cps.push((p, mirror_config_path_spec(root, group, b))),
                rejs,
            )
        } else if dup_count_model(b, pre.configs) + 1 <= usize::MAX as int {
            let entry = config_entry_spec(pre.configs, p, home);
            let dst = mirror_config_path_spec(
                root,
                group,
                b + seq!['_'] + dec_digits(dup_count_model(b, pre.configs) + 1),
            );
            (
                crate::record::write_model(pre, Section::Configs, entry, true),
                ents.push(entry),
                cps.push((p, dst)),
                rejs,
            )
        } else {
            (pre, ents, cps, rejs.push((p, EntryIssue::NoFreeIndex)))
        }
    }
}

/// A fresh config entry — templated, suffixed only on collision — may stand
/// as a record line.
proof fn lemma_config_entry_wf(cfgs: Seq<Seq<char>>, p: Seq<char>, home: Seq<char>)
    requires
        p.len() > 0,
        crate::text::all_line_chars(p),
        !crate::record::is_label_line(crate::template::template_spec(p, home)),
        config_collides(cfgs, base_name_of(p)) ==> dup_count_model(base_name_of(p), cfgs) + 1
            <= usize::MAX as int,
    ensures
        crate::record::wf_entry(config_entry_spec(cfgs, p, home)),
{
    let t = crate::template::template_spec(p, home);
    crate::template::lemma_template_line(p, home);
    let e = config_entry_spec(cfgs, p, home);
    if config_collides(cfgs, base_name_of(p)) {
        let idx = dup_count_model(base_name_of(p), cfgs) + 1;
        lemma_dup_count_bounds(base_name_of(p), cfgs);
        crate::text::lemma_dec_digits_val(idx);
        let d = dec_digits(idx);
        assert(e.len() > 0);
        assert forall|i: int| 0 <= i < e.len() implies crate::text::is_line_char(
            #[trigger] e[i],
        ) by {
            if i < t.len() {
                assert(e[i] == t[i]);
            } else if i == t.len() {
                assert(e[i] == '_');
            } else {
                assert(e[i] == d[i - t.len() - 1]);
                assert(crate::text::is_digit(d[i - t.len() - 1]));
            }
        }
        assert(e[t.len() as int] == '_');
        crate::record::lemma_label_no_underscore();
        assert(e != crate::record::packages_label());
        assert(e != crate::record::configs_label());
        assert(e != crate::record::scripts_label());
    } else {
        assert(e == t);
    }
}

/// Declares configs in a group's record: validates the batch of paths,
/// records each kept path under its templated identity — a disambiguation
/// suffix is added only when its base name collides with a recorded entry —
/// and lists the copies (source path, mirror path) the caller must perform.
/// A kept path whose suffix space is used up joins the rejections, after
/// those of the validator.
pub fn install_config(
    text: &String,
    args: &Vec<String>,
    canon: &Vec<Option<String>>,
    home: &str,
    root: &str,
    group: &str,
) -> (r: (String, Vec<String>, Vec<(String, String)>, Vec<(String, EntryIssue)>))
    requires
        canon.len() == args.len(),
    ensures
        ({
            let m = parse_text(text@);
            let kept = crate::validate::configs_add_kept(canon.deep_view(), m.configs, home@);
            let fold = install_configs_fold(m, kept, home@, root@, group@);
            &&& parse_text(r.0@) == fold.0
            &&& r.1.deep_view() == fold.1
            &&& r.2.deep_view() == fold.2
            &&& r.3.deep_view() == crate::validate::configs_add_rejected(
                args.deep_view(),
                canon.deep_view(),
                m.configs,
                home@,
            ) + fold.3
            &&& (fold.1.len() == 0 ==> r.0@ == text@)
            &&& (fold.1.len() > 0 ==> r.0@ == render_model(parse_text(r.0@)))
        }),
{
    proof {
        crate::record::lemma_label_lines();
    }
    let ghost m = parse_text(text@);
    let rec = crate::record::parse_record(text);
    let (kept, mut rejected) = crate::validate::invalid_configs(
        &rec.configs,
        args,
        canon,
        true,
        home,
    );
    let ghost kdv = kept.deep_view();
    let ghost rdv0 = rejected.deep_view();
    proof {
        crate::validate::lemma_configs_add_kept_wf(
            canon.deep_view(),
            rec.configs.deep_view(),
            home@,
        );
    }
    let mut cur = text.clone();
    let mut entries: Vec<String> = Vec::new();
    let mut copies: Vec<(String, String)> = Vec::new();
    let mut i: usize = 0;
    while i < kept.len()
        invariant
            kdv == kept.deep_view(),
            kdv.len() == kept.len(),
            i <= kept.len(),
            m == parse_text(text@),
            rdv0.len() <= rejected.deep_view().len(),
            forall|k: int|
                0 <= k < kdv.len() ==> {
                    let p = #[trigger] kdv[k];
                    p.len() > 0 && crate::text::all_line_chars(p)
                        && !crate::record::is_label_line(
                        crate::template::template_spec(p, home@),
                    )
                },
            parse_text(cur@) == install_configs_fold(m, kdv.take(i as int), home@, root@, group@).0,
            entries.deep_view() == install_configs_fold(
                m,
                kdv.take(i as int),
                home@,
                root@,
                group@,
            ).1,
            copies.deep_view() == install_configs_fold(
                m,
                kdv.take(i as int),
                home@,
                root@,
                group@,
            ).2,
            rejected.deep_view() == rdv0 + install_configs_fold(
                m,
                kdv.take(i as int),
                home@,
                root@,
                group@,
            ).3,
            entries.deep_view().len() == 0 ==> cur@ == text@,
            entries.deep_view().len() > 0 ==> cur@ == render_model(parse_text(cur@)),
        decreases kept.len() - i,
    {
        proof {
            crate::record::lemma_label_lines();
            assert(kdv.take(i as int + 1).drop_last() == kdv.take(i as int));
            assert(kdv.take(i as int + 1).last() == kdv[i as int]);
        }
        let ghost fold_i = install_configs_fold(m, kdv.take(i as int), home@, root@, group@);
        let rec_cur = crate::record::parse_record(&cur);
        let name = crate::text::base_name(kept[i].as_str());
        proof {
            assert(kdv[i as int] == kept.deep_view()[i as int]);
            assert(name@ == base_name_of(kdv[i as int]));
        }
        if !collides_with(&rec_cur.configs, name) {
            let mut entry = kept[i].clone();
            crate::template::to_template(&mut entry, home);
            let dst = mirror_config_path(root, group, name);
            proof {
                assert(entry@ == config_entry_spec(fold_i.0.configs, kdv[i as int], home@));
                lemma_config_entry_wf(fold_i.0.configs, kdv[i as int], home@);
            }
            let next = crate::record::config_write(
                &cur,
                crate::record::configs_label_str(),
                entry.as_str(),
                true,
            );
            let ghost old_ents = entries.deep_view();
            let ghost old_cps = copies.deep_view();
            let ghost entv = entry@;
            let ghost dstv = dst@;
            cur = next;
            copies.push((kept[i].clone(), dst));
            entries.push(entry);
            proof {
                assert(entries.deep_view() =~= old_ents.push(entv));
                assert(copies.deep_view() =~= old_cps.push((kdv[i as int], dstv)));
                let fold_n = install_configs_fold(
                    m,
                    kdv.take(i as int + 1),
                    home@,
                    root@,
                    group@,
                );
                assert(fold_n.0 == crate::record::write_model(
                    fold_i.0,
                    Section::Configs,
                    entv,
                    true,
                ));
                assert(fold_n.1 =~= old_ents.push(entv));
                assert(fold_n.2 =~= old_cps.push((kdv[i as int], dstv)));
                assert(fold_n.3 == fold_i.3);
            }
        } else {
            let count = highest_index(name, &rec_cur.configs);
            if count < usize::MAX {
                let idx = count + 1;
                let sfx = crate::text::usize_to_string(idx);
                let mut entry = kept[i].clone();
                crate::template::to_template(&mut entry, home);
                entry.append("_");
                entry.append(sfx.as_str());
                let mut mname = String::from_str(name);
                mname.append("_");
                mname.append(sfx.as_str());
                let dst = mirror_config_path(root, group, mname.as_str());
                proof {
                    reveal_strlit("_");
                    assert("_"@ =~= seq!['_']);
                    assert(entry@ =~= config_entry_spec(fold_i.0.configs, kdv[i as int], home@));
                    assert(mname@ =~= base_name_of(kdv[i as int]) + seq!['_'] + dec_digits(
                        idx as int,
                    ));
                    lemma_config_entry_wf(fold_i.0.configs, kdv[i as int], home@);
                }
                let next = crate::record::config_write(
                    &cur,
                    crate::record::configs_label_str(),
                    entry.as_str(),
                    true,
                );
                let ghost old_ents = entries.deep_view();
                let ghost old_cps = copies.deep_view();
                let ghost entv = entry@;
                let ghost dstv = dst@;
                cur = next;
                copies.push((kept[i].clone(), dst));
                entries.push(entry);
                proof {
                    assert(entries.deep_view() =~= old_ents.push(entv));
                    assert(copies.deep_view() =~= old_cps.push((kdv[i as int], dstv)));
                    let fold_n = install_configs_fold(
                        m,
                        kdv.take(i as int + 1),
                        home@,
                        root@,
                        group@,
                    );
                    assert(fold_n.0 == crate::record::write_model(
                        fold_i.0,
                        Section::Configs,
                        entv,
                        true,
                    ));
                    assert(fold_n.1 =~= old_ents.push(entv));
                    assert(fold_n.2 =~= old_cps.push((kdv[i as int], dstv)));
                    assert(fold_n.3 == fold_i.3);
                }
            } else {
                let ghost old_rej = rejected.deep_view();
                rejected.push((kept[i].clone(), EntryIssue::NoFreeIndex));
                proof {
                    assert(rejected.deep_view() =~= old_rej.push(
                        (kdv[i as int], EntryIssue::NoFreeIndex),
                    ));
                    let fold_n = install_configs_fold(
                        m,
                        kdv.take(i as int + 1),
                        home@,
                        root@,
                        group@,
                    );
                    assert(fold_n.0 == fold_i.0);
                    assert(fold_n.1 == fold_i.1);
                    assert(fold_n.2 == fold_i.2);
                    assert(fold_n.3 =~= fold_i.3.push((kdv[i as int], EntryIssue::NoFreeIndex)));
                    assert(rejected.deep_view() =~= rdv0 + fold_n.3);
                }
            }
        }
        i += 1;
    }
    proof {
        assert(kdv.take(kept.len() as int) == kdv);
    }
    (cur, entries, copies, rejected)
}

} // verus!
