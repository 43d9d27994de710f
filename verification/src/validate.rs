//! Entry validation: each candidate of a batch is classified on its own, so
//! one bad argument never blocks the rest.  A candidate is either kept —
//! normalized and safe to hand to the mutation step — or rejected with the
//! exact reason.  Facts about the world outside the record (whether a
//! directory exists, whether the package index knows a name, whether a path
//! resolves) are handed in by the caller, one per candidate.

use vstd::prelude::*;

use crate::record::wf_entry;
use crate::text::str_eq;

verus! {

/// Why one candidate of a batch was rejected.
#[derive(Clone, Copy, PartialEq, Eq, Structural, Debug)]
pub enum EntryIssue {
    /// The name is one of the store root's own bookkeeping tokens.
    Reserved,
    /// The entry is already installed or already recorded.
    AlreadyExists,
    /// The entry is not recorded, so there is nothing to remove.
    NotInstalled,
    /// The package index does not know the name.
    UpstreamMissing,
    /// The filesystem path does not resolve.
    PathMissing,
    /// The script path is not a regular file.
    NotAFile,
    /// The candidate repeats an earlier one of the same invocation.
    Duplicate,
    /// The candidate cannot stand as a record line.
    Invalid,
    /// The disambiguation index space for the candidate's base name is used
    /// up, so no fresh suffix can number it.
    NoFreeIndex,
}

impl DeepView for EntryIssue {
    type V = EntryIssue;

    open spec fn deep_view(&self) -> EntryIssue {
        *self
    }
}

/// A group name the store reserves for its own bookkeeping.
pub open spec fn is_reserved_spec(name: Seq<char>) -> bool {
    name == ".git"@ || name == ".."@ || name == "."@
}

/// Whether the store reserves `name` for its own bookkeeping.
pub fn is_reserved(name: &str) -> (r: bool)
    ensures
        r == is_reserved_spec(name@),
{
    str_eq(name, ".git") || str_eq(name, "..") || str_eq(name, ".")
}

/// The verdict on one group candidate: whether its directory exists decides,
/// with the direction of the operation.
pub open spec fn group_issue(name: Seq<char>, exists: bool, adding: bool) -> Option<EntryIssue> {
    if is_reserved_spec(name) {
        Some(EntryIssue::Reserved)
    } else if adding && exists {
        Some(EntryIssue::AlreadyExists)
    } else if !adding && !exists {
        Some(EntryIssue::NotInstalled)
    } else {
        None
    }
}

/// The group candidates that pass, in order.
pub open spec fn groups_kept(args: Seq<Seq<char>>, exists: Seq<bool>, adding: bool) -> Seq<
    Seq<char>,
>
    decreases args.len(),
{
    if args.len() == 0 {
        Seq::empty()
    } else {
        let pre = groups_kept(args.drop_last(), exists.drop_last(), adding);
        if group_issue(args.last(), exists.last(), adding) is None {
            pre.push(args.last())
        } else {
            pre
        }
    }
}

/// The group candidates that fail, each with its reason, in order.
pub open spec fn groups_rejected(args: Seq<Seq<char>>, exists: Seq<bool>, adding: bool) -> Seq<
    (Seq<char>, EntryIssue),
>
    decreases args.len(),
{
    if args.len() == 0 {
        Seq::empty()
    } else {
        let pre = groups_rejected(args.drop_last(), exists.drop_last(), adding);
        match group_issue(args.last(), exists.last(), adding) {
            Some(issue) => pre.push((args.last(), issue)),
            None => pre,
        }
    }
}

/// Classifies group candidates.  `exists` says, per candidate, whether a
/// directory of that name is already present; `adding` gives the direction.
pub fn invalid_groups(args: &Vec<String>, exists: &Vec<bool>, adding: bool) -> (r: (
    Vec<String>,
    Vec<(String, EntryIssue)>,
))
    requires
        exists.len() == args.len(),
    ensures
        r.0.deep_view() == groups_kept(args.deep_view(), exists@, adding),
        r.1.deep_view() == groups_rejected(args.deep_view(), exists@, adding),
{
    let ghost adv = args.deep_view();
    let ghost edv = exists@;
    let mut kept: Vec<String> = Vec::new();
    let mut rejected: Vec<(String, EntryIssue)> = Vec::new();
    let mut i: usize = 0;
    while i < args.len()
        invariant
            adv == args.deep_view(),
            edv == exists@,
            adv.len() == args.len(),
            edv.len() == args.len(),
            i <= args.len(),
            kept.deep_view() == groups_kept(adv.take(i as int), edv.take(i as int), adding),
            rejected.deep_view() == groups_rejected(adv.take(i as int), edv.take(i as int), adding),
        decreases args.len() - i,
    {
        proof {
            assert(adv.take(i as int + 1).drop_last() == adv.take(i as int));
            assert(edv.take(i as int + 1).drop_last() == edv.take(i as int));
            assert(adv.take(i as int + 1).last() == adv[i as int]);
            assert(edv.take(i as int + 1).last() == edv[i as int]);
        }
        let name = &args[i];
        let ex = exists[i];
        let issue: Option<EntryIssue> = if is_reserved(name.as_str()) {
            Some(EntryIssue::Reserved)
        } else if adding && ex {
            Some(EntryIssue::AlreadyExists)
        } else if !adding && !ex {
            Some(EntryIssue::NotInstalled)
        } else {
            None
        };
        match issue {
            Some(issue) => {
                let ghost old_dv = rejected.deep_view();
                rejected.push((name.clone(), issue));
                proof {
                    assert(rejected.deep_view() =~= old_dv.push((adv[i as int], issue)));
                }
            },
            None => {
                let ghost old_dv = kept.deep_view();
                kept.push(name.clone());
                proof {
                    assert(kept.deep_view() =~= old_dv.push(adv[i as int]));
                }
            },
        }
        i += 1;
    }
    proof {
        assert(adv.take(args.len() as int) == adv);
        assert(edv.take(args.len() as int) == edv);
    }
    (kept, rejected)
}

/// The verdict on one package candidate, the invocation's earlier candidates
/// aside: whether it is recorded and whether the index knows it decide.
pub open spec fn package_issue(recorded: bool, in_repo: bool, adding: bool) -> Option<EntryIssue> {
    if adding {
        if recorded {
            Some(EntryIssue::AlreadyExists)
        } else if !in_repo {
            Some(EntryIssue::UpstreamMissing)
        } else {
            None
        }
    } else {
        if !recorded {
            Some(EntryIssue::NotInstalled)
        } else {
            None
        }
    }
}

/// The full verdict on the last package candidate: a repeat of an earlier
/// candidate is a duplicate; a name that cannot stand as a record line is
/// invalid; otherwise record and index membership decide.
pub open spec fn package_verdict(
    args: Seq<Seq<char>>,
    in_repo: Seq<bool>,
    recorded: Seq<Seq<char>>,
    adding: bool,
) -> Option<EntryIssue> {
    if args.drop_last().contains(args.last()) {
        Some(EntryIssue::Duplicate)
    } else if adding && !wf_entry(args.last()) {
        Some(EntryIssue::Invalid)
    } else {
        package_issue(recorded.contains(args.last()), in_repo.last(), adding)
    }
}

/// The package candidates that pass, in order.
pub open spec fn packages_kept(
    args: Seq<Seq<char>>,
    in_repo: Seq<bool>,
    recorded: Seq<Seq<char>>,
    adding: bool,
) -> Seq<Seq<char>>
    decreases args.len(),
{
    if args.len() == 0 {
        Seq::empty()
    } else {
        let pre = packages_kept(args.drop_last(), in_repo.drop_last(), recorded, adding);
        if package_verdict(args, in_repo, recorded, adding) is None {
            pre.push(args.last())
        } else {
            pre
        }
    }
}

/// The package candidates that fail, each with its reason, in order.
pub open spec fn packages_rejected(
    args: Seq<Seq<char>>,
    in_repo: Seq<bool>,
    recorded: Seq<Seq<char>>,
    adding: bool,
) -> Seq<(Seq<char>, EntryIssue)>
    decreases args.len(),
{
    if args.len() == 0 {
        Seq::empty()
    } else {
        let pre = packages_rejected(args.drop_last(), in_repo.drop_last(), recorded, adding);
        match package_verdict(args, in_repo, recorded, adding) {
            Some(issue) => pre.push((args.last(), issue)),
            None => pre,
        }
    }
}

/// Whether some string of the first `upto` entries of `v` reads `s`.
fn contains_prefix(v: &Vec<String>, upto: usize, s: &str) -> (r: bool)
    requires
        upto <= v.len(),
    ensures
        r == v.deep_view().take(upto as int).contains(s@),
{
    let ghost dv = v.deep_view();
    let mut i: usize = 0;
    while i < upto
        invariant
            dv == v.deep_view(),
            dv.len() == v.len(),
            upto <= v.len(),
            i <= upto,
            forall|k: int| 0 <= k < i ==> dv.take(upto as int)[k] != s@,
        decreases upto - i,
    {
        if str_eq(v[i].as_str(), s) {
            proof {
                assert(dv.take(upto as int)[i as int] == s@);
            }
            return true;
        }
        i += 1;
    }
    false
}

/// Whether `e` may stand as a record entry line.
pub fn is_valid_entry(e: &str) -> (r: bool)
    ensures
        r == wf_entry(e@),
{
    let n = e.unicode_len();
    if n == 0 {
        return false;
    }
    if str_eq(e, crate::record::packages_label_str()) || str_eq(
        e,
        crate::record::configs_label_str(),
    ) || str_eq(e, crate::record::scripts_label_str()) {
        return false;
    }
    let mut i: usize = 0;
    while i < n
        invariant
            n == e@.len(),
            i <= n,
            forall|k: int| 0 <= k < i ==> crate::text::is_line_char(#[trigger] e@[k]),
        decreases n - i,
    {
        let c = e.get_char(i);
        if c == '\n' || c == '\r' {
            return false;
        }
        i += 1;
    }
    true
}

/// Classifies package candidates against the group's recorded packages.
/// `in_repo` says, per candidate, whether the package index knows the name;
/// it is consulted only when `adding`.
pub fn invalid_packages(
    recorded: &Vec<String>,
    args: &Vec<String>,
    in_repo: &Vec<bool>,
    adding: bool,
) -> (r: (Vec<String>, Vec<(String, EntryIssue)>))
    requires
        in_repo.len() == args.len(),
    ensures
        r.0.deep_view() == packages_kept(args.deep_view(), in_repo@, recorded.deep_view(), adding),
        r.1.deep_view() == packages_rejected(
            args.deep_view(),
            in_repo@,
            recorded.deep_view(),
            adding,
        ),
{
    let ghost adv = args.deep_view();
    let ghost pdv = in_repo@;
    let ghost rdv = recorded.deep_view();
    let mut kept: Vec<String> = Vec::new();
    let mut rejected: Vec<(String, EntryIssue)> = Vec::new();
    let mut i: usize = 0;
    while i < args.len()
        invariant
            adv == args.deep_view(),
            pdv == in_repo@,
            rdv == recorded.deep_view(),
            adv.len() == args.len(),
            pdv.len() == args.len(),
            i <= args.len(),
            kept.deep_view() == packages_kept(
                adv.take(i as int),
                pdv.take(i as int),
                rdv,
                adding,
            ),
            rejected.deep_view() == packages_rejected(
                adv.take(i as int),
                pdv.take(i as int),
                rdv,
                adding,
            ),
        decreases args.len() - i,
    {
        proof {
            assert(adv.take(i as int + 1).drop_last() == adv.take(i as int));
            assert(pdv.take(i as int + 1).drop_last() == pdv.take(i as int));
            assert(adv.take(i as int + 1).last() == adv[i as int]);
            assert(pdv.take(i as int + 1).last() == pdv[i as int]);
        }
        let name = &args[i];
        let issue: Option<EntryIssue> = if contains_prefix(args, i, name.as_str()) {
            Some(EntryIssue::Duplicate)
        } else if adding && !is_valid_entry(name.as_str()) {
            Some(EntryIssue::Invalid)
        } else {
            let rec = crate::text::contains_str(recorded, name.as_str());
            if adding {
                if rec {
                    Some(EntryIssue::AlreadyExists)
                } else if !in_repo[i] {
                    Some(EntryIssue::UpstreamMissing)
                } else {
                    None
                }
            } else {
                if !rec {
                    Some(EntryIssue::NotInstalled)
                } else {
                    None
                }
            }
        };
        proof {
            assert(adv.take(i as int) == adv.take(i as int + 1).drop_last());
            assert(issue == package_verdict(adv.take(i as int + 1), pdv.take(i as int + 1), rdv, adding));
        }
        match issue {
            Some(issue) => {
                let ghost old_dv = rejected.deep_view();
                rejected.push((name.clone(), issue));
                proof {
                    assert(rejected.deep_view() =~= old_dv.push((adv[i as int], issue)));
                }
            },
            None => {
                let ghost old_dv = kept.deep_view();
                kept.push(name.clone());
                proof {
                    assert(kept.deep_view() =~= old_dv.push(adv[i as int]));
                }
            },
        }
        i += 1;
    }
    proof {
        assert(adv.take(args.len() as int) == adv);
        assert(pdv.take(args.len() as int) == pdv);
    }
    (kept, rejected)
}

/// Every package candidate kept by an installing batch may stand as a record
/// line.
pub proof fn lemma_packages_kept_wf(
    args: Seq<Seq<char>>,
    in_repo: Seq<bool>,
    recorded: Seq<Seq<char>>,
)
    ensures
        forall|i: int|
            0 <= i < packages_kept(args, in_repo, recorded, true).len() ==> wf_entry(
                #[trigger] packages_kept(args, in_repo, recorded, true)[i],
            ),
    decreases args.len(),
{
    if args.len() > 0 {
        lemma_packages_kept_wf(args.drop_last(), in_repo.drop_last(), recorded);
        let pre = packages_kept(args.drop_last(), in_repo.drop_last(), recorded, true);
        let kept = packages_kept(args, in_repo, recorded, true);
        assert forall|i: int| 0 <= i < kept.len() implies wf_entry(#[trigger] kept[i]) by {
            if package_verdict(args, in_repo, recorded, true) is None {
                assert(kept == pre.push(args.last()));
                if i < pre.len() {
                    assert(kept[i] == pre[i]);
                } else {
                    assert(kept[i] == args.last());
                }
            } else {
                assert(kept[i] == pre[i]);
            }
        }
    }
}

/// Every resolved path kept by an installing config batch is a non-empty,
/// break-free line whose templated form is no section label.
pub proof fn lemma_configs_add_kept_wf(
    canon: Seq<Option<Seq<char>>>,
    cs: Seq<Seq<char>>,
    home: Seq<char>,
)
    ensures
        forall|i: int|
            0 <= i < configs_add_kept(canon, cs, home).len() ==> {
                let p = #[trigger] configs_add_kept(canon, cs, home)[i];
                p.len() > 0 && crate::text::all_line_chars(p) && !crate::record::is_label_line(
                    crate::template::template_spec(p, home),
                )
            },
    decreases canon.len(),
{
    if canon.len() > 0 {
        lemma_configs_add_kept_wf(canon.drop_last(), cs, home);
        let pre = configs_add_kept(canon.drop_last(), cs, home);
        let kept = configs_add_kept(canon, cs, home);
        assert forall|i: int|
            0 <= i < kept.len() implies {
            let p = #[trigger] kept[i];
            p.len() > 0 && crate::text::all_line_chars(p) && !crate::record::is_label_line(
                crate::template::template_spec(p, home),
            )
        } by {
            if config_add_verdict(canon, cs, home) is None {
                assert(kept == pre.push(canon.last()->0));
                if i < pre.len() {
                    assert(kept[i] == pre[i]);
                } else {
                    assert(kept[i] == canon.last()->0);
                }
            } else {
                assert(kept[i] == pre[i]);
            }
        }
    }
}

/// The base name of every script candidate kept by an installing batch may
/// stand as a record line.
pub proof fn lemma_scripts_add_kept_wf(
    args: Seq<Seq<char>>,
    resolves: Seq<bool>,
    is_file: Seq<bool>,
    ss: Seq<Seq<char>>,
)
    ensures
        forall|i: int|
            0 <= i < scripts_add_kept(args, resolves, is_file, ss).len() ==> wf_entry(
                crate::text::base_name_of(
                    #[trigger] scripts_add_kept(args, resolves, is_file, ss)[i],
                ),
            ),
    decreases args.len(),
{
    if args.len() > 0 {
        lemma_scripts_add_kept_wf(args.drop_last(), resolves.drop_last(), is_file.drop_last(), ss);
        let pre = scripts_add_kept(args.drop_last(), resolves.drop_last(), is_file.drop_last(), ss);
        let kept = scripts_add_kept(args, resolves, is_file, ss);
        assert forall|i: int|
            0 <= i < kept.len() implies wf_entry(
            crate::text::base_name_of(#[trigger] kept[i]),
        ) by {
            if script_add_verdict(args, resolves, is_file, ss) is None {
                assert(kept == pre.push(args.last()));
                if i < pre.len() {
                    assert(kept[i] == pre[i]);
                } else {
                    assert(kept[i] == args.last());
                }
            } else {
                assert(kept[i] == pre[i]);
            }
        }
    }
}

/// Whether some recorded config entry, its disambiguation suffix ignored,
/// reads `t`.
pub open spec fn recorded_config(cs: Seq<Seq<char>>, t: Seq<char>) -> bool {
    exists|i: int| 0 <= i < cs.len() && crate::text::strip_index_of(#[trigger] cs[i]) == t
}

/// Whether some recorded config entry, suffix ignored, reads `t`.
fn recorded_config_exec(cs: &Vec<String>, t: &str) -> (r: bool)
    ensures
        r == recorded_config(cs.deep_view(), t@),
{
    let ghost dv = cs.deep_view();
    let mut i: usize = 0;
    while i < cs.len()
        invariant
            dv == cs.deep_view(),
            dv.len() == cs.len(),
            i <= cs.len(),
            forall|k: int| 0 <= k < i ==> crate::text::strip_index_of(#[trigger] dv[k]) != t@,
        decreases cs.len() - i,
    {
        if str_eq(crate::text::strip_index(cs[i].as_str()), t) {
            proof {
                assert(crate::text::strip_index_of(dv[i as int]) == t@);
            }
            return true;
        }
        i += 1;
    }
    false
}

/// The verdict on the last config candidate of an installing batch: its
/// resolved path decides — unresolvable, a repeat, unusable as a record line
/// (empty, break-carrying, or templating to a section label), or already
/// recorded under its templated identity.
pub open spec fn config_add_verdict(
    canon: Seq<Option<Seq<char>>>,
    cs: Seq<Seq<char>>,
    home: Seq<char>,
) -> Option<EntryIssue> {
    match canon.last() {
        None => Some(EntryIssue::PathMissing),
        Some(p) => if canon.drop_last().contains(Some(p)) {
            Some(EntryIssue::Duplicate)
        } else if !(p.len() > 0 && crate::text::all_line_chars(p)
            && !crate::record::is_label_line(crate::template::template_spec(p, home))) {
            Some(EntryIssue::Invalid)
        } else if recorded_config(cs, crate::template::template_spec(p, home)) {
            Some(EntryIssue::AlreadyExists)
        } else {
            None
        },
    }
}

/// The resolved paths of config candidates that pass an installing batch.
pub open spec fn configs_add_kept(
    canon: Seq<Option<Seq<char>>>,
    cs: Seq<Seq<char>>,
    home: Seq<char>,
) -> Seq<Seq<char>>
    decreases canon.len(),
{
    if canon.len() == 0 {
        Seq::empty()
    } else {
        let pre = configs_add_kept(canon.drop_last(), cs, home);
        match config_add_verdict(canon, cs, home) {
            None => pre.push(canon.last()->0),
            Some(_) => pre,
        }
    }
}

/// The config candidates that fail an installing batch, with their reasons.
pub open spec fn configs_add_rejected(
    args: Seq<Seq<char>>,
    canon: Seq<Option<Seq<char>>>,
    cs: Seq<Seq<char>>,
    home: Seq<char>,
) -> Seq<(Seq<char>, EntryIssue)>
    decreases args.len(),
{
    if args.len() == 0 {
        Seq::empty()
    } else {
        let pre = configs_add_rejected(args.drop_last(), canon.drop_last(), cs, home);
        match config_add_verdict(canon, cs, home) {
            Some(issue) => pre.push((args.last(), issue)),
            None => pre,
        }
    }
}

/// The first recorded config entry whose base name reads `arg`.
pub open spec fn find_config(cs: Seq<Seq<char>>, arg: Seq<char>) -> Option<Seq<char>>
    decreases cs.len(),
{
    if cs.len() == 0 {
        None
    } else {
        let pre = find_config(cs.drop_last(), arg);
        if pre is Some {
            pre
        } else if crate::text::base_name_of(cs.last()) == arg {
            Some(cs.last())
        } else {
            None
        }
    }
}

/// Once a prefix of the entries resolves `arg`, the rest change nothing.
proof fn lemma_find_config_prefix(cs: Seq<Seq<char>>, arg: Seq<char>, k: int)
    requires
        0 <= k <= cs.len(),
        find_config(cs.take(k), arg) is Some,
    ensures
        find_config(cs, arg) == find_config(cs.take(k), arg),
    decreases cs.len() - k,
{
    if k == cs.len() {
        assert(cs.take(k) == cs);
    } else {
        assert(cs.take(k + 1).drop_last() == cs.take(k));
        lemma_find_config_prefix(cs, arg, k + 1);
    }
}

/// The first recorded config entry whose base name reads `arg`.
pub fn find_config_entry(cs: &Vec<String>, arg: &str) -> (r: Option<String>)
    ensures
        match r {
            Some(e) => find_config(cs.deep_view(), arg@) == Some(e@),
            None => find_config(cs.deep_view(), arg@) is None,
        },
{
    let ghost dv = cs.deep_view();
    let mut i: usize = 0;
    while i < cs.len()
        invariant
            dv == cs.deep_view(),
            dv.len() == cs.len(),
            i <= cs.len(),
            find_config(dv.take(i as int), arg@) is None,
        decreases cs.len() - i,
    {
        proof {
            assert(dv.take(i as int + 1).drop_last() == dv.take(i as int));
            assert(dv.take(i as int + 1).last() == dv[i as int]);
        }
        if str_eq(crate::text::base_name(cs[i].as_str()), arg) {
            proof {
                assert(find_config(dv.take(i as int + 1), arg@) == Some(dv[i as int]));
                lemma_find_config_prefix(dv, arg@, i as int + 1);
            }
            return Some(cs[i].clone());
        }
        i += 1;
    }
    proof {
        assert(dv.take(cs.len() as int) == dv);
    }
    None
}

/// The entries that the candidates of a removing batch resolve to, repeats
/// included, in order.
pub open spec fn resolved_configs(args: Seq<Seq<char>>, cs: Seq<Seq<char>>) -> Seq<Seq<char>>
    decreases args.len(),
{
    if args.len() == 0 {
        Seq::empty()
    } else {
        let pre = resolved_configs(args.drop_last(), cs);
        match find_config(cs, args.last()) {
            Some(e) => pre.push(e),
            None => pre,
        }
    }
}

/// An entry was resolved by some earlier candidate exactly when it stands in
/// the kept list: the kept list drops only repeats.
pub proof fn lemma_resolved_kept_same(args: Seq<Seq<char>>, cs: Seq<Seq<char>>)
    ensures
        forall|x: Seq<char>|
            resolved_configs(args, cs).contains(x) <==> configs_remove_kept(args, cs).contains(x),
    decreases args.len(),
{
    if args.len() > 0 {
        let dl = args.drop_last();
        lemma_resolved_kept_same(dl, cs);
        let rs = resolved_configs(dl, cs);
        let ks = configs_remove_kept(dl, cs);
        let rs2 = resolved_configs(args, cs);
        let ks2 = configs_remove_kept(args, cs);
        match find_config(cs, args.last()) {
            None => {
                assert(rs2 == rs);
                assert(ks2 == ks);
            },
            Some(e) => {
                assert(rs2 == rs.push(e));
                assert forall|x: Seq<char>| rs2.contains(x) implies ks2.contains(x) by {
                    let i = choose|i: int| 0 <= i < rs2.len() && rs2[i] == x;
                    if i < rs.len() {
                        assert(rs[i] == x);
                        assert(rs.contains(x));
                        assert(ks.contains(x));
                        if !rs.contains(e) {
                            let j = choose|j: int| 0 <= j < ks.len() && ks[j] == x;
                            assert(ks2 == ks.push(e));
                            assert(ks2[j] == x);
                        }
                    } else {
                        assert(x == e);
                        if rs.contains(e) {
                            assert(ks2 == ks);
                            assert(ks.contains(e));
                        } else {
                            assert(ks2 == ks.push(e));
                            assert(ks2[ks.len() as int] == e);
                        }
                    }
                }
                assert forall|x: Seq<char>| ks2.contains(x) implies rs2.contains(x) by {
                    if rs.contains(e) {
                        assert(ks2 == ks);
                        assert(ks.contains(x));
                        assert(rs.contains(x));
                        let j = choose|j: int| 0 <= j < rs.len() && rs[j] == x;
                        assert(rs2[j] == x);
                    } else {
                        assert(ks2 == ks.push(e));
                        let i = choose|i: int| 0 <= i < ks2.len() && ks2[i] == x;
                        if i < ks.len() {
                            assert(ks[i] == x);
                            assert(ks.contains(x));
                            assert(rs.contains(x));
                            let j = choose|j: int| 0 <= j < rs.len() && rs[j] == x;
                            assert(rs2[j] == x);
                        } else {
                            assert(x == e);
                            assert(rs2[rs.len() as int] == e);
                        }
                    }
                }
            },
        }
    }
}

/// The verdict on the last config candidate of a removing batch: it must
/// resolve to a recorded entry no earlier candidate already resolved to.
pub open spec fn config_remove_verdict(args: Seq<Seq<char>>, cs: Seq<Seq<char>>) -> Option<
    EntryIssue,
> {
    match find_config(cs, args.last()) {
        None => Some(EntryIssue::NotInstalled),
        Some(e) => if resolved_configs(args.drop_last(), cs).contains(e) {
            Some(EntryIssue::Duplicate)
        } else {
            None
        },
    }
}

/// The resolved entries of config candidates that pass a removing batch.
pub open spec fn configs_remove_kept(args: Seq<Seq<char>>, cs: Seq<Seq<char>>) -> Seq<Seq<char>>
    decreases args.len(),
{
    if args.len() == 0 {
        Seq::empty()
    } else {
        let pre = configs_remove_kept(args.drop_last(), cs);
        match config_remove_verdict(args, cs) {
            None => pre.push(find_config(cs, args.last())->0),
            Some(_) => pre,
        }
    }
}

/// The config candidates that fail a removing batch, with their reasons.
pub open spec fn configs_remove_rejected(args: Seq<Seq<char>>, cs: Seq<Seq<char>>) -> Seq<
    (Seq<char>, EntryIssue),
>
    decreases args.len(),
{
    if args.len() == 0 {
        Seq::empty()
    } else {
        let pre = configs_remove_rejected(args.drop_last(), cs);
        match config_remove_verdict(args, cs) {
            Some(issue) => pre.push((args.last(), issue)),
            None => pre,
        }
    }
}

/// Classifies config candidates against the group's recorded config entries.
/// When `adding`, `canon` gives each candidate's resolved path, `None` where
/// it does not resolve, and the kept list holds resolved paths; when removing,
/// candidates are base names and the kept list holds the recorded entries
/// they resolve to.
pub fn invalid_configs(
    recorded: &Vec<String>,
    args: &Vec<String>,
    canon: &Vec<Option<String>>,
    adding: bool,
    home: &str,
) -> (r: (Vec<String>, Vec<(String, EntryIssue)>))
    requires
        canon.len() == args.len(),
    ensures
        adding ==> r.0.deep_view() == configs_add_kept(
            canon.deep_view(),
            recorded.deep_view(),
            home@,
        ),
        adding ==> r.1.deep_view() == configs_add_rejected(
            args.deep_view(),
            canon.deep_view(),
            recorded.deep_view(),
            home@,
        ),
        !adding ==> r.0.deep_view() == configs_remove_kept(args.deep_view(), recorded.deep_view()),
        !adding ==> r.1.deep_view() == configs_remove_rejected(
            args.deep_view(),
            recorded.deep_view(),
        ),
{
    let ghost adv = args.deep_view();
    let ghost cdv = canon.deep_view();
    let ghost rdv = recorded.deep_view();
    let mut kept: Vec<String> = Vec::new();
    let mut rejected: Vec<(String, EntryIssue)> = Vec::new();
    let mut i: usize = 0;
    while i < args.len()
        invariant
            adv == args.deep_view(),
            cdv == canon.deep_view(),
            rdv == recorded.deep_view(),
            adv.len() == args.len(),
            cdv.len() == args.len(),
            i <= args.len(),
            adding ==> kept.deep_view() == configs_add_kept(cdv.take(i as int), rdv, home@),
            adding ==> rejected.deep_view() == configs_add_rejected(
                adv.take(i as int),
                cdv.take(i as int),
                rdv,
                home@,
            ),
            !adding ==> kept.deep_view() == configs_remove_kept(adv.take(i as int), rdv),
            !adding ==> rejected.deep_view() == configs_remove_rejected(adv.take(i as int), rdv),
        decreases args.len() - i,
    {
        proof {
            assert(adv.take(i as int + 1).drop_last() == adv.take(i as int));
            assert(cdv.take(i as int + 1).drop_last() == cdv.take(i as int));
            assert(adv.take(i as int + 1).last() == adv[i as int]);
            assert(cdv.take(i as int + 1).last() == cdv[i as int]);
        }
        if adding {
            match &canon[i] {
                None => {
                    let ghost old_dv = rejected.deep_view();
                    rejected.push((args[i].clone(), EntryIssue::PathMissing));
                    proof {
                        assert(rejected.deep_view() =~= old_dv.push(
                            (adv[i as int], EntryIssue::PathMissing),
                        ));
                    }
                },
                Some(p) => {
                    let dup = dup_canon(canon, i, p.as_str());
                    let mut templated = p.clone();
                    crate::template::to_template(&mut templated, home);
                    let labelled = str_eq(templated.as_str(), crate::record::packages_label_str())
                        || str_eq(templated.as_str(), crate::record::configs_label_str())
                        || str_eq(templated.as_str(), crate::record::scripts_label_str());
                    let issue: Option<EntryIssue> = if dup {
                        Some(EntryIssue::Duplicate)
                    } else if !line_worthy(p.as_str()) || labelled {
                        Some(EntryIssue::Invalid)
                    } else if recorded_config_exec(recorded, templated.as_str()) {
                        Some(EntryIssue::AlreadyExists)
                    } else {
                        None
                    };
                    proof {
                        assert(issue == config_add_verdict(cdv.take(i as int + 1), rdv, home@));
                    }
                    match issue {
                        Some(issue) => {
                            let ghost old_dv = rejected.deep_view();
                            rejected.push((args[i].clone(), issue));
                            proof {
                                assert(rejected.deep_view() =~= old_dv.push(
                                    (adv[i as int], issue),
                                ));
                            }
                        },
                        None => {
                            let ghost old_dv = kept.deep_view();
                            kept.push(p.clone());
                            proof {
                                assert(kept.deep_view() =~= old_dv.push(cdv[i as int]->0));
                            }
                        },
                    }
                },
            }
        } else {
            proof {
                lemma_resolved_kept_same(adv.take(i as int), rdv);
            }
            match find_config_entry(recorded, args[i].as_str()) {
                None => {
                    let ghost old_dv = rejected.deep_view();
                    rejected.push((args[i].clone(), EntryIssue::NotInstalled));
                    proof {
                        assert(rejected.deep_view() =~= old_dv.push(
                            (adv[i as int], EntryIssue::NotInstalled),
                        ));
                    }
                },
                Some(e) => {
                    if crate::text::contains_str(&kept, e.as_str()) {
                        let ghost old_dv = rejected.deep_view();
                        rejected.push((args[i].clone(), EntryIssue::Duplicate));
                        proof {
                            assert(rejected.deep_view() =~= old_dv.push(
                                (adv[i as int], EntryIssue::Duplicate),
                            ));
                        }
                    } else {
                        let ghost old_dv = kept.deep_view();
                        kept.push(e);
                        proof {
                            assert(kept.deep_view() =~= old_dv.push(
                                find_config(rdv, adv[i as int])->0,
                            ));
                        }
                    }
                },
            }
        }
        i += 1;
    }
    proof {
        assert(adv.take(args.len() as int) == adv);
        assert(cdv.take(args.len() as int) == cdv);
    }
    (kept, rejected)
}

/// Whether some earlier resolved path among the first `upto` candidates
/// reads `p`.
fn dup_canon(canon: &Vec<Option<String>>, upto: usize, p: &str) -> (r: bool)
    requires
        upto <= canon.len(),
    ensures
        r == canon.deep_view().take(upto as int).contains(Some(p@)),
{
    let ghost dv = canon.deep_view();
    let mut i: usize = 0;
    while i < upto
        invariant
            dv == canon.deep_view(),
            dv.len() == canon.len(),
            upto <= canon.len(),
            i <= upto,
            forall|k: int| 0 <= k < i ==> dv.take(upto as int)[k] != Some(p@),
        decreases upto - i,
    {
        match &canon[i] {
            Some(q) => {
                if str_eq(q.as_str(), p) {
                    proof {
                        assert(dv.take(upto as int)[i as int] == Some(p@));
                    }
                    return true;
                }
            },
            None => {},
        }
        i += 1;
    }
    false
}

/// The verdict on the last script candidate of an installing batch: its base
/// name must be fresh in the invocation and in the record, its path must
/// resolve to a regular file, and the base name must stand as a record line.
pub open spec fn script_add_verdict(
    args: Seq<Seq<char>>,
    resolves: Seq<bool>,
    is_file: Seq<bool>,
    ss: Seq<Seq<char>>,
) -> Option<EntryIssue> {
    let name = crate::text::base_name_of(args.last());
    if exists|j: int|
        0 <= j < args.len() - 1 && crate::text::base_name_of(#[trigger] args[j]) == name {
        Some(EntryIssue::Duplicate)
    } else if !resolves.last() {
        Some(EntryIssue::PathMissing)
    } else if !wf_entry(name) {
        Some(EntryIssue::Invalid)
    } else if ss.contains(name) {
        Some(EntryIssue::AlreadyExists)
    } else if !is_file.last() {
        Some(EntryIssue::NotAFile)
    } else {
        None
    }
}

/// The script candidates that pass an installing batch: their paths, in
/// order.
pub open spec fn scripts_add_kept(
    args: Seq<Seq<char>>,
    resolves: Seq<bool>,
    is_file: Seq<bool>,
    ss: Seq<Seq<char>>,
) -> Seq<Seq<char>>
    decreases args.len(),
{
    if args.len() == 0 {
        Seq::empty()
    } else {
        let pre = scripts_add_kept(
            args.drop_last(),
            resolves.drop_last(),
            is_file.drop_last(),
            ss,
        );
        if script_add_verdict(args, resolves, is_file, ss) is None {
            pre.push(args.last())
        } else {
            pre
        }
    }
}

/// The script candidates that fail an installing batch, with their reasons.
pub open spec fn scripts_add_rejected(
    args: Seq<Seq<char>>,
    resolves: Seq<bool>,
    is_file: Seq<bool>,
    ss: Seq<Seq<char>>,
) -> Seq<(Seq<char>, EntryIssue)>
    decreases args.len(),
{
    if args.len() == 0 {
        Seq::empty()
    } else {
        let pre = scripts_add_rejected(
            args.drop_last(),
            resolves.drop_last(),
            is_file.drop_last(),
            ss,
        );
        match script_add_verdict(args, resolves, is_file, ss) {
            Some(issue) => pre.push((args.last(), issue)),
            None => pre,
        }
    }
}

/// The verdict on the last script candidate of a removing batch: it must be
/// recorded and no repeat of an earlier candidate.
pub open spec fn script_remove_verdict(args: Seq<Seq<char>>, ss: Seq<Seq<char>>) -> Option<
    EntryIssue,
> {
    if args.drop_last().contains(args.last()) {
        Some(EntryIssue::Duplicate)
    } else if !ss.contains(args.last()) {
        Some(EntryIssue::NotInstalled)
    } else {
        None
    }
}

/// The script candidates that pass a removing batch, in order.
pub open spec fn scripts_remove_kept(args: Seq<Seq<char>>, ss: Seq<Seq<char>>) -> Seq<Seq<char>>
    decreases args.len(),
{
    if args.len() == 0 {
        Seq::empty()
    } else {
        let pre = scripts_remove_kept(args.drop_last(), ss);
        if script_remove_verdict(args, ss) is None {
            pre.push(args.last())
        } else {
            pre
        }
    }
}

/// The script candidates that fail a removing batch, with their reasons.
pub open spec fn scripts_remove_rejected(args: Seq<Seq<char>>, ss: Seq<Seq<char>>) -> Seq<
    (Seq<char>, EntryIssue),
>
    decreases args.len(),
{
    if args.len() == 0 {
        Seq::empty()
    } else {
        let pre = scripts_remove_rejected(args.drop_last(), ss);
        match script_remove_verdict(args, ss) {
            Some(issue) => pre.push((args.last(), issue)),
            None => pre,
        }
    }
}

/// Whether the base name of some earlier candidate among the first `upto`
/// reads `name`.
fn dup_base(args: &Vec<String>, upto: usize, name: &str) -> (r: bool)
    requires
        upto <= args.len(),
    ensures
        r == exists|j: int|
            0 <= j < upto && crate::text::base_name_of(
                #[trigger] args.deep_view()[j],
            ) == name@,
{
    let ghost dv = args.deep_view();
    let mut i: usize = 0;
    while i < upto
        invariant
            dv == args.deep_view(),
            dv.len() == args.len(),
            upto <= args.len(),
            i <= upto,
            forall|k: int| 0 <= k < i ==> crate::text::base_name_of(#[trigger] dv[k]) != name@,
        decreases upto - i,
    {
        if str_eq(crate::text::base_name(args[i].as_str()), name) {
            proof {
                assert(crate::text::base_name_of(dv[i as int]) == name@);
            }
            return true;
        }
        i += 1;
    }
    false
}

/// Classifies script candidates against the group's recorded script names.
/// When `adding`, candidates are paths and `resolves` / `is_file` give each
/// path's filesystem state; when removing, candidates are recorded base
/// names and those two are ignored.
pub fn invalid_scripts(
    recorded: &Vec<String>,
    args: &Vec<String>,
    resolves: &Vec<bool>,
    is_file: &Vec<bool>,
    adding: bool,
) -> (r: (Vec<String>, Vec<(String, EntryIssue)>))
    requires
        resolves.len() == args.len(),
        is_file.len() == args.len(),
    ensures
        adding ==> r.0.deep_view() == scripts_add_kept(
            args.deep_view(),
            resolves@,
            is_file@,
            recorded.deep_view(),
        ),
        adding ==> r.1.deep_view() == scripts_add_rejected(
            args.deep_view(),
            resolves@,
            is_file@,
            recorded.deep_view(),
        ),
        !adding ==> r.0.deep_view() == scripts_remove_kept(args.deep_view(), recorded.deep_view()),
        !adding ==> r.1.deep_view() == scripts_remove_rejected(
            args.deep_view(),
            recorded.deep_view(),
        ),
{
    let ghost adv = args.deep_view();
    let ghost fdv = resolves@;
    let ghost gdv = is_file@;
    let ghost rdv = recorded.deep_view();
    let mut kept: Vec<String> = Vec::new();
    let mut rejected: Vec<(String, EntryIssue)> = Vec::new();
    let mut i: usize = 0;
    while i < args.len()
        invariant
            adv == args.deep_view(),
            fdv == resolves@,
            gdv == is_file@,
            rdv == recorded.deep_view(),
            adv.len() == args.len(),
            fdv.len() == args.len(),
            gdv.len() == args.len(),
            i <= args.len(),
            adding ==> kept.deep_view() == scripts_add_kept(
                adv.take(i as int),
                fdv.take(i as int),
                gdv.take(i as int),
                rdv,
            ),
            adding ==> rejected.deep_view() == scripts_add_rejected(
                adv.take(i as int),
                fdv.take(i as int),
                gdv.take(i as int),
                rdv,
            ),
            !adding ==> kept.deep_view() == scripts_remove_kept(adv.take(i as int), rdv),
            !adding ==> rejected.deep_view() == scripts_remove_rejected(adv.take(i as int), rdv),
        decreases args.len() - i,
    {
        proof {
            assert(adv.take(i as int + 1).drop_last() == adv.take(i as int));
            assert(fdv.take(i as int + 1).drop_last() == fdv.take(i as int));
            assert(gdv.take(i as int + 1).drop_last() == gdv.take(i as int));
            assert(adv.take(i as int + 1).last() == adv[i as int]);
            assert(fdv.take(i as int + 1).last() == fdv[i as int]);
            assert(gdv.take(i as int + 1).last() == gdv[i as int]);
        }
        let issue: Option<EntryIssue> = if adding {
            let name = crate::text::base_name(args[i].as_str());
            if dup_base(args, i, name) {
                Some(EntryIssue::Duplicate)
            } else if !resolves[i] {
                Some(EntryIssue::PathMissing)
            } else if !is_valid_entry(name) {
                Some(EntryIssue::Invalid)
            } else if crate::text::contains_str(recorded, name) {
                Some(EntryIssue::AlreadyExists)
            } else if !is_file[i] {
                Some(EntryIssue::NotAFile)
            } else {
                None
            }
        } else {
            if contains_prefix(args, i, args[i].as_str()) {
                Some(EntryIssue::Duplicate)
            } else if !crate::text::contains_str(recorded, args[i].as_str()) {
                Some(EntryIssue::NotInstalled)
            } else {
                None
            }
        };
        proof {
            if adding {
                let args2 = adv.take(i as int + 1);
                let nm = crate::text::base_name_of(adv[i as int]);
                if exists|j: int|
                    0 <= j < i as int && crate::text::base_name_of(#[trigger] adv[j]) == nm {
                    let j = choose|j: int|
                        0 <= j < i as int && crate::text::base_name_of(#[trigger] adv[j]) == nm;
                    assert(crate::text::base_name_of(args2[j]) == nm);
                }
                if exists|j: int|
                    0 <= j < args2.len() - 1 && crate::text::base_name_of(#[trigger] args2[j])
                        == nm {
                    let j = choose|j: int|
                        0 <= j < args2.len() - 1 && crate::text::base_name_of(
                            #[trigger] args2[j],
                        ) == nm;
                    assert(crate::text::base_name_of(adv[j]) == nm);
                }
                assert(issue == script_add_verdict(
                    args2,
                    fdv.take(i as int + 1),
                    gdv.take(i as int + 1),
                    rdv,
                ));
            } else {
                assert(issue == script_remove_verdict(adv.take(i as int + 1), rdv));
            }
        }
        match issue {
            Some(issue) => {
                let ghost old_dv = rejected.deep_view();
                rejected.push((args[i].clone(), issue));
                proof {
                    assert(rejected.deep_view() =~= old_dv.push((adv[i as int], issue)));
                }
            },
            None => {
                let ghost old_dv = kept.deep_view();
                kept.push(args[i].clone());
                proof {
                    assert(kept.deep_view() =~= old_dv.push(adv[i as int]));
                }
            },
        }
        i += 1;
    }
    proof {
        assert(adv.take(args.len() as int) == adv);
        assert(fdv.take(args.len() as int) == fdv);
        assert(gdv.take(args.len() as int) == gdv);
    }
    (kept, rejected)
}

/// Whether `s` is non-empty and break-free.
fn line_worthy(s: &str) -> (r: bool)
    ensures
        r == (s@.len() > 0 && crate::text::all_line_chars(s@)),
{
    let n = s.unicode_len();
    if n == 0 {
        return false;
    }
    let mut i: usize = 0;
    while i < n
        invariant
            n == s@.len(),
            i <= n,
            forall|k: int| 0 <= k < i ==> crate::text::is_line_char(#[trigger] s@[k]),
        decreases n - i,
    {
        let c = s.get_char(i);
        if c == '\n' || c == '\r' {
            return false;
        }
        i += 1;
    }
    true
}

} // verus!
