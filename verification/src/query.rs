//! Query planning: looking entries up in a group's record and summarising
//! groups.  Configs are displayed under their base name with the
//! disambiguation suffix stripped; packages and scripts under their entry as
//! stored.

use vstd::prelude::*;

use crate::Section;
use crate::record::parse_text;
use crate::text::base_name_of;
use crate::text::str_eq;
use crate::text::strip_index_of;

verus! {

/// The name an entry of section `sec` is shown and queried under.
pub open spec fn display_name(sec: Section, e: Seq<char>) -> Seq<char> {
    match sec {
        Section::Configs => strip_index_of(base_name_of(e)),
        _ => e,
    }
}

/// The name an entry of section `sec` is shown and queried under.
pub fn display_of<'a>(sec: Section, e: &'a str) -> (r: &'a str)
    ensures
        r@ == display_name(sec, e@),
{
    match sec {
        Section::Configs => crate::text::strip_index(crate::text::base_name(e)),
        _ => e,
    }
}

/// The entries of section `sec` whose display name reads `a`, in order.
pub open spec fn matches_spec(entries: Seq<Seq<char>>, a: Seq<char>, sec: Section) -> Seq<
    Seq<char>,
>
    decreases entries.len(),
{
    if entries.len() == 0 {
        Seq::empty()
    } else {
        let pre = matches_spec(entries.drop_last(), a, sec);
        if display_name(sec, entries.last()) == a {
            pre.push(entries.last())
        } else {
            pre
        }
    }
}

/// How many of `args` match no entry at all.
pub open spec fn find_misses(args: Seq<Seq<char>>, entries: Seq<Seq<char>>, sec: Section) -> int
    decreases args.len(),
{
    if args.len() == 0 {
        0
    } else {
        find_misses(args.drop_last(), entries, sec) + if matches_spec(
            entries,
            args.last(),
            sec,
        ).len() == 0 {
            1int
        } else {
            0int
        }
    }
}

/// What a lookup in one section reports.
pub struct FindReport {
    /// For each argument, the entries it matched, in order.
    pub matches: Vec<Vec<String>>,
    /// How many arguments matched nothing.
    pub missing: usize,
    /// With no arguments: every entry's display name, in order.
    pub listing: Vec<String>,
}

/// The entries whose display name reads `a`.
fn matches_of(entries: &Vec<String>, a: &str, sec: Section) -> (r: Vec<String>)
    ensures
        r.deep_view() == matches_spec(entries.deep_view(), a@, sec),
{
    let ghost edv = entries.deep_view();
    let mut out: Vec<String> = Vec::new();
    let mut i: usize = 0;
    while i < entries.len()
        invariant
            edv == entries.deep_view(),
            edv.len() == entries.len(),
            i <= entries.len(),
            out.deep_view() == matches_spec(edv.take(i as int), a@, sec),
        decreases entries.len() - i,
    {
        proof {
            assert(edv.take(i as int + 1).drop_last() == edv.take(i as int));
            assert(edv.take(i as int + 1).last() == edv[i as int]);
        }
        if str_eq(display_of(sec, entries[i].as_str()), a) {
            let ghost old_dv = out.deep_view();
            out.push(entries[i].clone());
            proof {
                assert(out.deep_view() =~= old_dv.push(edv[i as int]));
            }
        }
        i += 1;
    }
    proof {
        assert(edv.take(entries.len() as int) == edv);
    }
    out
}

/// Looks the arguments up among the entries of one section; with no
/// arguments, lists every entry's display name instead.
pub fn find(args: &Vec<String>, entries: &Vec<String>, sec: Section) -> (r: FindReport)
    ensures
        args.len() > 0 ==> {
            &&& r.matches.deep_view() == args.deep_view().map_values(
                |a: Seq<char>| matches_spec(entries.deep_view(), a, sec),
            )
            &&& r.missing as int == find_misses(args.deep_view(), entries.deep_view(), sec)
            &&& r.listing.len() == 0
        },
        args.len() == 0 ==> {
            &&& r.listing.deep_view() == entries.deep_view().map_values(
                |e: Seq<char>| display_name(sec, e),
            )
            &&& r.matches.len() == 0
            &&& r.missing == 0
        },
{
    let ghost adv = args.deep_view();
    let ghost edv = entries.deep_view();
    if args.len() == 0 {
        let mut listing: Vec<String> = Vec::new();
        let mut i: usize = 0;
        while i < entries.len()
            invariant
                edv == entries.deep_view(),
                edv.len() == entries.len(),
                i <= entries.len(),
                listing.deep_view() == edv.take(i as int).map_values(
                    |e: Seq<char>| display_name(sec, e),
                ),
            decreases entries.len() - i,
        {
            let d = display_of(sec, entries[i].as_str());
            let ghost old_dv = listing.deep_view();
            listing.push(String::from_str(d));
            proof {
                assert(listing.deep_view() =~= old_dv.push(display_name(sec, edv[i as int])));
                assert(listing.deep_view() =~= edv.take(i as int + 1).map_values(
                    |e: Seq<char>| display_name(sec, e),
                ));
            }
            i += 1;
        }
        proof {
            assert(edv.take(entries.len() as int) == edv);
        }
        FindReport { matches: Vec::new(), missing: 0, listing }
    } else {
        let mut matches: Vec<Vec<String>> = Vec::new();
        let mut missing: usize = 0;
        let mut i: usize = 0;
        while i < args.len()
            invariant
                adv == args.deep_view(),
                edv == entries.deep_view(),
                adv.len() == args.len(),
                i <= args.len(),
                matches.deep_view() == adv.take(i as int).map_values(
                    |a: Seq<char>| matches_spec(edv, a, sec),
                ),
                missing as int == find_misses(adv.take(i as int), edv, sec),
                missing <= i,
            decreases args.len() - i,
        {
            proof {
                assert(adv.take(i as int + 1).drop_last() == adv.take(i as int));
                assert(adv.take(i as int + 1).last() == adv[i as int]);
            }
            let m = matches_of(entries, args[i].as_str(), sec);
            let ghost mdv = m.deep_view();
            if m.len() == 0 {
                missing += 1;
                proof {
                    assert(matches_spec(edv, adv[i as int], sec).len() == 0);
                }
            }
            let ghost old_dv = matches.deep_view();
            matches.push(m);
            proof {
                assert(matches.deep_view() =~= old_dv.push(mdv));
                assert(matches.deep_view() =~= adv.take(i as int + 1).map_values(
                    |a: Seq<char>| matches_spec(edv, a, sec),
                ));
            }
            i += 1;
        }
        proof {
            assert(adv.take(args.len() as int) == adv);
        }
        FindReport { matches, missing, listing: Vec::new() }
    }
}

/// Looks the arguments up among a group's recorded packages; with no
/// arguments, lists them all.
pub fn query_package(args: &Vec<String>, text: &String) -> (r: FindReport)
    ensures
        args.len() > 0 ==> {
            &&& r.matches.deep_view() == args.deep_view().map_values(
                |a: Seq<char>| matches_spec(parse_text(text@).packages, a, Section::Packages),
            )
            &&& r.missing as int == find_misses(
                args.deep_view(),
                parse_text(text@).packages,
                Section::Packages,
            )
        },
        args.len() == 0 ==> r.listing.deep_view() == parse_text(text@).packages.map_values(
            |e: Seq<char>| display_name(Section::Packages, e),
        ),
{
    let rec = crate::record::parse_record(text);
    find(args, &rec.packages, Section::Packages)
}

/// Looks the arguments up among a group's recorded configs, by display name;
/// with no arguments, lists every config's display name.
pub fn query_config(args: &Vec<String>, text: &String) -> (r: FindReport)
    ensures
        args.len() > 0 ==> {
            &&& r.matches.deep_view() == args.deep_view().map_values(
                |a: Seq<char>| matches_spec(parse_text(text@).configs, a, Section::Configs),
            )
            &&& r.missing as int == find_misses(
                args.deep_view(),
                parse_text(text@).configs,
                Section::Configs,
            )
        },
        args.len() == 0 ==> r.listing.deep_view() == parse_text(text@).configs.map_values(
            |e: Seq<char>| display_name(Section::Configs, e),
        ),
{
    let rec = crate::record::parse_record(text);
    find(args, &rec.configs, Section::Configs)
}

/// Looks the arguments up among a group's recorded scripts; with no
/// arguments, lists them all.
pub fn query_script(args: &Vec<String>, text: &String) -> (r: FindReport)
    ensures
        args.len() > 0 ==> {
            &&& r.matches.deep_view() == args.deep_view().map_values(
                |a: Seq<char>| matches_spec(parse_text(text@).scripts, a, Section::Scripts),
            )
            &&& r.missing as int == find_misses(
                args.deep_view(),
                parse_text(text@).scripts,
                Section::Scripts,
            )
        },
        args.len() == 0 ==> r.listing.deep_view() == parse_text(text@).scripts.map_values(
            |e: Seq<char>| display_name(Section::Scripts, e),
        ),
{
    let rec = crate::record::parse_record(text);
    find(args, &rec.scripts, Section::Scripts)
}

/// How many of `args` name no group of `groups`.
pub open spec fn groups_missing(args: Seq<Seq<char>>, groups: Seq<Seq<char>>) -> int
    decreases args.len(),
{
    if args.len() == 0 {
        0
    } else {
        groups_missing(args.drop_last(), groups) + if groups.contains(args.last()) {
            0int
        } else {
            1int
        }
    }
}

/// Which of the arguments name an installed group, and how many do not: the
/// count of misses is the command's exit status.
pub fn query_group(args: &Vec<String>, groups: &Vec<String>) -> (r: (Vec<bool>, usize))
    ensures
        r.0@.len() == args.len(),
        forall|i: int|
            0 <= i < args.len() ==> r.0@[i] == groups.deep_view().contains(
                #[trigger] args.deep_view()[i],
            ),
        r.1 as int == groups_missing(args.deep_view(), groups.deep_view()),
{
    let ghost adv = args.deep_view();
    let ghost gdv = groups.deep_view();
    let mut found: Vec<bool> = Vec::new();
    let mut missing: usize = 0;
    let mut i: usize = 0;
    while i < args.len()
        invariant
            adv == args.deep_view(),
            gdv == groups.deep_view(),
            adv.len() == args.len(),
            i <= args.len(),
            found@.len() == i,
            forall|k: int| 0 <= k < i ==> found@[k] == gdv.contains(#[trigger] adv[k]),
            missing as int == groups_missing(adv.take(i as int), gdv),
            missing <= i,
        decreases args.len() - i,
    {
        proof {
            assert(adv.take(i as int + 1).drop_last() == adv.take(i as int));
            assert(adv.take(i as int + 1).last() == adv[i as int]);
        }
        let hit = crate::text::contains_str(groups, args[i].as_str());
        found.push(hit);
        if !hit {
            missing += 1;
        }
        i += 1;
    }
    proof {
        assert(adv.take(args.len() as int) == adv);
    }
    (found, missing)
}

/// The entry counts of a group's three sections.
pub fn group_counts(text: &String) -> (r: (usize, usize, usize))
    ensures
        r.0 as int == parse_text(text@).packages.len(),
        r.1 as int == parse_text(text@).configs.len(),
        r.2 as int == parse_text(text@).scripts.len(),
{
    let rec = crate::record::parse_record(text);
    (rec.packages.len(), rec.configs.len(), rec.scripts.len())
}

} // verus!