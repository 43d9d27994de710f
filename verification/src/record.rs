//! The group record: a text file of three labelled sections, each a list of
//! entries, one per line.  The model of a record is the three entry sequences;
//! `parse_text` and `render_model` connect the text to the model, and the
//! store operations (`read_label`, `reformat_config`, `config_write`) are
//! specified through them.

use vstd::prelude::*;

use crate::Section;
use crate::text::all_line_chars;
use crate::text::entry_lines;
use crate::text::get_entries;
use crate::text::lemma_entry_lines_wf;
use crate::text::lemma_lines_acc_concat;
use crate::text::lemma_lines_acc_line;
use crate::text::lines_acc;
use crate::text::str_eq;

verus! {

/// The section label introducing the package entries.
pub open spec fn packages_label() -> Seq<char> {
    "[PACKAGES]"@
}

/// The section label introducing the config entries.
pub open spec fn configs_label() -> Seq<char> {
    "[CONFIGS]"@
}

/// The section label introducing the script entries.
pub open spec fn scripts_label() -> Seq<char> {
    "[SCRIPTS]"@
}

/// A line that reads as one of the three section labels.
pub open spec fn is_label_line(l: Seq<char>) -> bool {
    l == packages_label() || l == configs_label() || l == scripts_label()
}

/// The section a label line introduces.
pub open spec fn section_of(l: Seq<char>) -> Section {
    if l == packages_label() {
        Section::Packages
    } else if l == configs_label() {
        Section::Configs
    } else {
        Section::Scripts
    }
}

/// An entry the record may hold: one non-empty line that is no section label.
pub open spec fn wf_entry(e: Seq<char>) -> bool {
    e.len() > 0 && all_line_chars(e) && !is_label_line(e)
}

/// Every entry of `es` is well-formed.
pub open spec fn wf_entries(es: Seq<Seq<char>>) -> bool {
    forall|i: int| 0 <= i < es.len() ==> wf_entry(#[trigger] es[i])
}

/// No two entries of `es` are equal.
pub open spec fn no_dups(es: Seq<Seq<char>>) -> bool {
    forall|i: int, j: int| 0 <= i < j < es.len() ==> es[i] != es[j]
}

/// The mathematical content of a record: its three entry sequences.
#[verifier::ext_equal]
pub struct RecordModel {
    pub packages: Seq<Seq<char>>,
    pub configs: Seq<Seq<char>>,
    pub scripts: Seq<Seq<char>>,
}

/// The record with no entries at all.
pub open spec fn empty_record() -> RecordModel {
    RecordModel { packages: Seq::empty(), configs: Seq::empty(), scripts: Seq::empty() }
}

impl RecordModel {
    /// The entries of one section.
    pub open spec fn section(self, sec: Section) -> Seq<Seq<char>> {
        match sec {
            Section::Packages => self.packages,
            Section::Configs => self.configs,
            Section::Scripts => self.scripts,
        }
    }

    /// This record with one section replaced.
    pub open spec fn with_section(self, sec: Section, es: Seq<Seq<char>>) -> RecordModel {
        match sec {
            Section::Packages => RecordModel { packages: es, ..self },
            Section::Configs => RecordModel { configs: es, ..self },
            Section::Scripts => RecordModel { scripts: es, ..self },
        }
    }

    /// This record with one entry appended to one section.
    pub open spec fn push_entry(self, sec: Section, e: Seq<char>) -> RecordModel {
        self.with_section(sec, self.section(sec).push(e))
    }

    /// Every entry of every section is well-formed.
    pub open spec fn wf(self) -> bool {
        wf_entries(self.packages) && wf_entries(self.configs) && wf_entries(self.scripts)
    }

    /// No section holds two equal entries.
    pub open spec fn all_distinct(self) -> bool {
        no_dups(self.packages) && no_dups(self.configs) && no_dups(self.scripts)
    }
}

/// Folding the record out of its classified lines: a label line selects its
/// section, any other line joins the section selected last, and lines before
/// the first label are dropped.
pub open spec fn parse_lines(ls: Seq<Seq<char>>) -> (RecordModel, Option<Section>)
    decreases ls.len(),
{
    if ls.len() == 0 {
        (empty_record(), None)
    } else {
        let (r, cur) = parse_lines(ls.drop_last());
        let l = ls.last();
        if is_label_line(l) {
            (r, Some(section_of(l)))
        } else {
            match cur {
                None => (r, None),
                Some(sec) => (r.push_entry(sec, l), cur),
            }
        }
    }
}

/// The record a text declares.
pub open spec fn parse_text(s: Seq<char>) -> RecordModel {
    parse_lines(entry_lines(s)).0
}

/// A single newline.
pub open spec fn nl() -> Seq<char> {
    seq!['\n']
}

/// One section body: each entry followed by a newline.
pub open spec fn render_entries(es: Seq<Seq<char>>) -> Seq<char>
    decreases es.len(),
{
    if es.len() == 0 {
        Seq::empty()
    } else {
        render_entries(es.drop_last()) + es.last() + nl()
    }
}

/// The canonical text of a record: the three sections in fixed order, each
/// introduced by its label line, separated by one blank line, ending in one.
pub open spec fn render_model(m: RecordModel) -> Seq<char> {
    packages_label() + nl() + render_entries(m.packages) + nl() + configs_label() + nl()
        + render_entries(m.configs) + nl() + scripts_label() + nl() + render_entries(m.scripts)
        + nl()
}

/// An in-memory record: the entries of the three sections.
pub struct Record {
    pub packages: Vec<String>,
    pub configs: Vec<String>,
    pub scripts: Vec<String>,
}

impl View for Record {
    type V = RecordModel;

    open spec fn view(&self) -> RecordModel {
        RecordModel {
            packages: self.packages.deep_view(),
            configs: self.configs.deep_view(),
            scripts: self.scripts.deep_view(),
        }
    }
}

/// The exact characters of the three labels.
pub proof fn lemma_label_chars()
    ensures
        packages_label() =~= seq!['[', 'P', 'A', 'C', 'K', 'A', 'G', 'E', 'S', ']'],
        configs_label() =~= seq!['[', 'C', 'O', 'N', 'F', 'I', 'G', 'S', ']'],
        scripts_label() =~= seq!['[', 'S', 'C', 'R', 'I', 'P', 'T', 'S', ']'],
{
    reveal_strlit("[PACKAGES]");
    reveal_strlit("[CONFIGS]");
    reveal_strlit("[SCRIPTS]");
}

/// The three labels are pairwise distinct, non-empty, break-free lines.
pub proof fn lemma_label_lines()
    ensures
        packages_label() != configs_label(),
        packages_label() != scripts_label(),
        configs_label() != scripts_label(),
        packages_label().len() > 0 && all_line_chars(packages_label()),
        configs_label().len() > 0 && all_line_chars(configs_label()),
        scripts_label().len() > 0 && all_line_chars(scripts_label()),
{
    lemma_label_chars();
    assert(packages_label().len() == 10);
    assert(configs_label().len() == 9);
    assert(configs_label()[1] == 'C' && scripts_label()[1] == 'S');
    assert forall|i: int| 0 <= i < packages_label().len() implies crate::text::is_line_char(
        #[trigger] packages_label()[i],
    ) by {
        lemma_label_chars();
    }
    assert forall|i: int| 0 <= i < configs_label().len() implies crate::text::is_line_char(
        #[trigger] configs_label()[i],
    ) by {
        lemma_label_chars();
    }
    assert forall|i: int| 0 <= i < scripts_label().len() implies crate::text::is_line_char(
        #[trigger] scripts_label()[i],
    ) by {
        lemma_label_chars();
    }
}

/// No label contains an underscore, so no entry carrying a `_N` suffix can
/// collide with a label.
pub proof fn lemma_label_no_underscore()
    ensures
        forall|i: int| 0 <= i < packages_label().len() ==> #[trigger] packages_label()[i] != '_',
        forall|i: int| 0 <= i < configs_label().len() ==> #[trigger] configs_label()[i] != '_',
        forall|i: int| 0 <= i < scripts_label().len() ==> #[trigger] scripts_label()[i] != '_',
{
    lemma_label_chars();
}

/// The text of the packages label.
pub fn packages_label_str() -> (r: &'static str)
    ensures
        r@ == packages_label(),
{
    "[PACKAGES]"
}

/// The text of the configs label.
pub fn configs_label_str() -> (r: &'static str)
    ensures
        r@ == configs_label(),
{
    "[CONFIGS]"
}

/// The text of the scripts label.
pub fn scripts_label_str() -> (r: &'static str)
    ensures
        r@ == scripts_label(),
{
    "[SCRIPTS]"
}

/// The section a label string names.
pub fn section_for(label: &str) -> (r: Section)
    requires
        is_label_line(label@),
    ensures
        r == section_of(label@),
{
    if str_eq(label, packages_label_str()) {
        Section::Packages
    } else if str_eq(label, configs_label_str()) {
        Section::Configs
    } else {
        Section::Scripts
    }
}

/// Whatever the lines, every entry the fold collects is a well-formed,
/// non-label line.
pub proof fn lemma_parse_lines_wf(ls: Seq<Seq<char>>)
    requires
        forall|i: int|
            0 <= i < ls.len() ==> (#[trigger] ls[i]).len() > 0 && all_line_chars(ls[i]),
    ensures
        parse_lines(ls).0.wf(),
    decreases ls.len(),
{
    if ls.len() > 0 {
        lemma_parse_lines_wf(ls.drop_last());
    }
}

/// The record any text declares is well-formed.
pub proof fn lemma_parse_text_wf(s: Seq<char>)
    ensures
        parse_text(s).wf(),
{
    lemma_entry_lines_wf(s);
    lemma_parse_lines_wf(entry_lines(s));
}

/// The record a text declares.
pub fn parse_record(text: &String) -> (r: Record)
    ensures
        r@ == parse_text(text@),
        r@.wf(),
{
    let lines = get_entries(text);
    let ghost dv = lines.deep_view();
    let mut packages: Vec<String> = Vec::new();
    let mut configs: Vec<String> = Vec::new();
    let mut scripts: Vec<String> = Vec::new();
    let mut cur: Option<Section> = None;
    let mut i: usize = 0;
    while i < lines.len()
        invariant
            dv == entry_lines(text@),
            dv.len() == lines.len(),
            lines.deep_view() == dv,
            i <= lines.len(),
            parse_lines(dv.take(i as int)).0 == (RecordModel {
                packages: packages.deep_view(),
                configs: configs.deep_view(),
                scripts: scripts.deep_view(),
            }),
            parse_lines(dv.take(i as int)).1 == cur,
        decreases lines.len() - i,
    {
        let l = &lines[i];
        proof {
            assert(dv.take(i as int + 1).drop_last() == dv.take(i as int));
            assert(dv.take(i as int + 1).last() == dv[i as int]);
            assert(dv[i as int] == l@);
        }
        if str_eq(l.as_str(), packages_label_str()) {
            cur = Some(Section::Packages);
        } else if str_eq(l.as_str(), configs_label_str()) {
            cur = Some(Section::Configs);
        } else if str_eq(l.as_str(), scripts_label_str()) {
            cur = Some(Section::Scripts);
        } else {
            match cur {
                None => {},
                Some(Section::Packages) => {
                    let ghost old_dv = packages.deep_view();
                    packages.push(l.clone());
                    proof {
                        assert(packages.deep_view() =~= old_dv.push(l@));
                    }
                },
                Some(Section::Configs) => {
                    let ghost old_dv = configs.deep_view();
                    configs.push(l.clone());
                    proof {
                        assert(configs.deep_view() =~= old_dv.push(l@));
                    }
                },
                Some(Section::Scripts) => {
                    let ghost old_dv = scripts.deep_view();
                    scripts.push(l.clone());
                    proof {
                        assert(scripts.deep_view() =~= old_dv.push(l@));
                    }
                },
            }
        }
        i += 1;
    }
    proof {
        assert(dv.take(lines.len() as int) == dv);
        lemma_parse_text_wf(text@);
    }
    Record { packages, configs, scripts }
}

/// Appends each entry of `es`, each followed by a newline.
fn append_entries(out: &mut String, es: &Vec<String>)
    ensures
        final (out)@ == old(out)@ + render_entries(es.deep_view()),
{
    let ghost dv = es.deep_view();
    let mut i: usize = 0;
    while i < es.len()
        invariant
            dv == es.deep_view(),
            dv.len() == es.len(),
            i <= es.len(),
            out@ == old(out)@ + render_entries(dv.take(i as int)),
        decreases es.len() - i,
    {
        out.append(es[i].as_str());
        out.append("\n");
        proof {
            reveal_strlit("\n");
            assert("\n"@ =~= nl());
            assert(dv.take(i as int + 1).drop_last() == dv.take(i as int));
            assert(dv.take(i as int + 1).last() == dv[i as int]);
            assert(old(out)@ + render_entries(dv.take(i as int + 1)) =~= (old(out)@
                + render_entries(dv.take(i as int))) + dv[i as int] + nl());
        }
        i += 1;
    }
    proof {
        assert(dv.take(es.len() as int) == dv);
        assert(out@ =~= old(out)@ + render_entries(dv));
    }
}

/// The canonical text of a record.
pub fn render_record(r: &Record) -> (t: String)
    ensures
        t@ == render_model(r@),
{
    let mut out = String::new();
    out.append(packages_label_str());
    out.append("\n");
    append_entries(&mut out, &r.packages);
    out.append("\n");
    out.append(configs_label_str());
    out.append("\n");
    append_entries(&mut out, &r.configs);
    out.append("\n");
    out.append(scripts_label_str());
    out.append("\n");
    append_entries(&mut out, &r.scripts);
    out.append("\n");
    proof {
        reveal_strlit("\n");
        assert("\n"@ =~= nl());
        assert(out@ =~= render_model(r@));
    }
    out
}

/// The rendered section body splits back into exactly its entries.
pub proof fn lemma_render_entries_lines(es: Seq<Seq<char>>)
    requires
        wf_entries(es),
    ensures
        lines_acc(render_entries(es)).0 == es,
        lines_acc(render_entries(es)).1 == Seq::<char>::empty(),
    decreases es.len(),
{
    if es.len() == 0 {
        assert(lines_acc(render_entries(es)).0 =~= es);
    } else {
        lemma_render_entries_lines(es.drop_last());
        let pre = render_entries(es.drop_last());
        let e = es.last();
        assert(render_entries(es) =~= pre + (e + nl()));
        lemma_lines_acc_line(e);
        lemma_lines_acc_concat(pre, e + nl());
        assert(lines_acc(render_entries(es)).0 =~= es.drop_last() + seq![e]);
        assert(es.drop_last() + seq![e] =~= es);
        assert(lines_acc(render_entries(es)).1 =~= Seq::<char>::empty());
    }
}

/// The line sequence of a record in canonical order: each label line followed
/// by its section's entries.
pub open spec fn record_lines(m: RecordModel) -> Seq<Seq<char>> {
    seq![packages_label()] + m.packages + seq![configs_label()] + m.configs
        + seq![scripts_label()] + m.scripts
}

/// A single newline splits into no lines at all.
proof fn lemma_lines_acc_nl()
    ensures
        lines_acc(nl()).0 == Seq::<Seq<char>>::empty(),
        lines_acc(nl()).1 == Seq::<char>::empty(),
{
    let e = Seq::<char>::empty();
    assert(lines_acc(e).0 == Seq::<Seq<char>>::empty());
    assert(lines_acc(e).1 == Seq::<char>::empty());
    assert(nl().drop_last() =~= e);
    assert(nl().len() == 1);
    assert(nl().last() == '\n');
    assert(lines_acc(nl()).0 =~= Seq::<Seq<char>>::empty());
    assert(lines_acc(nl()).1 =~= Seq::<char>::empty());
}

/// The canonical text of a well-formed record splits back into its canonical
/// line sequence.
pub proof fn lemma_render_model_lines(m: RecordModel)
    requires
        m.wf(),
    ensures
        entry_lines(render_model(m)) == record_lines(m),
{
    lemma_label_lines();
    lemma_lines_acc_nl();
    let u1 = packages_label() + nl();
    lemma_lines_acc_line(packages_label());
    let u2 = u1 + render_entries(m.packages);
    lemma_render_entries_lines(m.packages);
    lemma_lines_acc_concat(u1, render_entries(m.packages));
    let u3 = u2 + nl();
    lemma_lines_acc_concat(u2, nl());
    let cb = configs_label() + nl();
    lemma_lines_acc_line(configs_label());
    let u4 = u3 + cb;
    lemma_lines_acc_concat(u3, cb);
    let u5 = u4 + render_entries(m.configs);
    lemma_render_entries_lines(m.configs);
    lemma_lines_acc_concat(u4, render_entries(m.configs));
    let u6 = u5 + nl();
    lemma_lines_acc_concat(u5, nl());
    let sb = scripts_label() + nl();
    lemma_lines_acc_line(scripts_label());
    let u7 = u6 + sb;
    lemma_lines_acc_concat(u6, sb);
    let u8 = u7 + render_entries(m.scripts);
    lemma_render_entries_lines(m.scripts);
    lemma_lines_acc_concat(u7, render_entries(m.scripts));
    let u9 = u8 + nl();
    lemma_lines_acc_concat(u8, nl());
    assert(u9 =~= render_model(m));
    assert(lines_acc(u9).0 =~= record_lines(m));
    assert(lines_acc(render_model(m)).1.len() == 0);
}

/// Appending a label line to classified lines selects that label's section.
pub proof fn lemma_parse_append_label(ls: Seq<Seq<char>>, l: Seq<char>)
    requires
        is_label_line(l),
    ensures
        parse_lines(ls.push(l)).0 == parse_lines(ls).0,
        parse_lines(ls.push(l)).1 == Some(section_of(l)),
{
    assert(ls.push(l).drop_last() =~= ls);
    assert(ls.push(l).last() == l);
}

/// Appending well-formed entry lines extends the selected section by exactly
/// those entries.
pub proof fn lemma_parse_append_entries(ls: Seq<Seq<char>>, es: Seq<Seq<char>>, sec: Section)
    requires
        parse_lines(ls).1 == Some(sec),
        wf_entries(es),
    ensures
        parse_lines(ls + es).0 == parse_lines(ls).0.with_section(
            sec,
            parse_lines(ls).0.section(sec) + es,
        ),
        parse_lines(ls + es).1 == Some(sec),
    decreases es.len(),
{
    let r = parse_lines(ls).0;
    if es.len() == 0 {
        assert(ls + es =~= ls);
        assert(r.with_section(sec, r.section(sec) + es) =~= r);
    } else {
        let dl = es.drop_last();
        let x = es.last();
        lemma_parse_append_entries(ls, dl, sec);
        assert((ls + es).drop_last() =~= ls + dl);
        assert((ls + es).last() == x);
        assert(wf_entry(x));
        let mid = r.with_section(sec, r.section(sec) + dl);
        assert(parse_lines(ls + es).0 == mid.push_entry(sec, x));
        assert(mid.push_entry(sec, x) =~= r.with_section(sec, r.section(sec) + es)) by {
            assert((r.section(sec) + dl).push(x) =~= r.section(sec) + es);
        }
    }
}

/// Folding the canonical line sequence of a well-formed record yields the
/// record again.
pub proof fn lemma_parse_record_lines(m: RecordModel)
    requires
        m.wf(),
    ensures
        parse_lines(record_lines(m)).0 == m,
{
    lemma_label_lines();
    let l0 = seq![packages_label()];
    assert(l0 =~= Seq::<Seq<char>>::empty().push(packages_label()));
    lemma_parse_append_label(Seq::empty(), packages_label());
    let l1 = l0 + m.packages;
    lemma_parse_append_entries(l0, m.packages, Section::Packages);
    let l2 = l1 + seq![configs_label()];
    assert(l2 =~= l1.push(configs_label()));
    lemma_parse_append_label(l1, configs_label());
    assert(section_of(configs_label()) == Section::Configs);
    let l3 = l2 + m.configs;
    lemma_parse_append_entries(l2, m.configs, Section::Configs);
    let l4 = l3 + seq![scripts_label()];
    assert(l4 =~= l3.push(scripts_label()));
    lemma_parse_append_label(l3, scripts_label());
    assert(section_of(scripts_label()) == Section::Scripts);
    let l5 = l4 + m.scripts;
    lemma_parse_append_entries(l4, m.scripts, Section::Scripts);
    assert(l5 =~= record_lines(m));
    assert(parse_lines(l5).0 =~= m);
}

/// Parsing the canonical text of a well-formed record yields the record: the
/// codec loses nothing.
pub proof fn lemma_parse_render(m: RecordModel)
    requires
        m.wf(),
    ensures
        parse_text(render_model(m)) == m,
{
    lemma_render_model_lines(m);
    lemma_parse_record_lines(m);
}

/// `es` with `e` put at its head, unless an equal entry is already there.
pub open spec fn add_entry(es: Seq<Seq<char>>, e: Seq<char>) -> Seq<Seq<char>> {
    if es.contains(e) {
        es
    } else {
        seq![e] + es
    }
}

/// `es` with every entry equal to `e` removed, order kept.
pub open spec fn remove_entry(es: Seq<Seq<char>>, e: Seq<char>) -> Seq<Seq<char>>
    decreases es.len(),
{
    if es.len() == 0 {
        es
    } else if es.last() == e {
        remove_entry(es.drop_last(), e)
    } else {
        remove_entry(es.drop_last(), e).push(es.last())
    }
}

/// The record after the one mutation primitive: entry `e` added to or removed
/// from section `sec`.
pub open spec fn write_model(m: RecordModel, sec: Section, e: Seq<char>, add: bool) -> RecordModel {
    m.with_section(
        sec,
        if add {
            add_entry(m.section(sec), e)
        } else {
            remove_entry(m.section(sec), e)
        },
    )
}

/// What removal keeps: exactly the other entries, their order, their
/// well-formedness and their distinctness.
pub proof fn lemma_remove_entry(es: Seq<Seq<char>>, e: Seq<char>)
    ensures
        forall|x: Seq<char>|
            #![trigger remove_entry(es, e).contains(x)]
            remove_entry(es, e).contains(x) <==> (es.contains(x) && x != e),
        no_dups(es) ==> no_dups(remove_entry(es, e)),
        wf_entries(es) ==> wf_entries(remove_entry(es, e)),
    decreases es.len(),
{
    if es.len() > 0 {
        let dl = es.drop_last();
        lemma_remove_entry(dl, e);
        assert forall|x: Seq<char>| dl.contains(x) implies es.contains(x) by {
            let i = choose|i: int| 0 <= i < dl.len() && dl[i] == x;
            assert(es[i] == x);
        }
        assert(es.contains(es.last())) by {
            assert(es[es.len() - 1] == es.last());
        }
        assert forall|x: Seq<char>| es.contains(x) && x != e implies remove_entry(
            es,
            e,
        ).contains(x) by {
            if x == es.last() {
                let r = remove_entry(dl, e).push(es.last());
                assert(remove_entry(es, e) == r);
                assert(r[r.len() - 1] == x);
            } else {
                let i = choose|i: int| 0 <= i < es.len() && es[i] == x;
                assert(dl[i] == x);
                assert(dl.contains(x));
                assert(remove_entry(dl, e).contains(x));
                if es.last() != e {
                    let rd = remove_entry(dl, e);
                    let j = choose|j: int| 0 <= j < rd.len() && rd[j] == x;
                    assert(remove_entry(es, e)[j] == x);
                }
            }
        }
        assert forall|x: Seq<char>| remove_entry(es, e).contains(x) implies (es.contains(x) && x
            != e) by {
            if es.last() == e {
                assert(remove_entry(es, e) == remove_entry(dl, e));
                assert(dl.contains(x));
            } else {
                let r = remove_entry(dl, e).push(es.last());
                assert(remove_entry(es, e) == r);
                let i = choose|i: int| 0 <= i < r.len() && r[i] == x;
                if i == r.len() - 1 {
                    assert(x == es.last());
                } else {
                    assert(remove_entry(dl, e)[i] == x);
                    assert(remove_entry(dl, e).contains(x));
                    assert(dl.contains(x));
                }
            }
        }
        if no_dups(es) {
            assert(no_dups(dl));
            if es.last() != e {
                let r = remove_entry(dl, e);
                assert forall|i: int| 0 <= i < r.len() implies r[i] != es.last() by {
                    assert(r.contains(r[i]));
                    assert(dl.contains(r[i]));
                    let j = choose|j: int| 0 <= j < dl.len() && dl[j] == r[i];
                    assert(es[j] == r[i]);
                }
                assert(no_dups(r.push(es.last())));
            }
        }
        if wf_entries(es) {
            assert(wf_entries(dl));
            let r = remove_entry(es, e);
            assert forall|i: int| 0 <= i < r.len() implies wf_entry(#[trigger] r[i]) by {
                assert(r.contains(r[i]));
                assert(es.contains(r[i]));
                let j = choose|j: int| 0 <= j < es.len() && es[j] == r[i];
            }
        }
    }
}

/// What addition keeps and brings: membership of `e`, the other entries, their
/// well-formedness and their distinctness.
pub proof fn lemma_add_entry(es: Seq<Seq<char>>, e: Seq<char>)
    ensures
        forall|x: Seq<char>|
            #![trigger add_entry(es, e).contains(x)]
            add_entry(es, e).contains(x) <==> (es.contains(x) || x == e),
        no_dups(es) ==> no_dups(add_entry(es, e)),
        wf_entries(es) && wf_entry(e) ==> wf_entries(add_entry(es, e)),
        es.contains(e) ==> add_entry(es, e) == es,
{
    if !es.contains(e) {
        let r = seq![e] + es;
        assert(r[0] == e);
        assert(forall|i: int| 0 <= i < es.len() ==> r[i + 1] == es[i]);
        assert forall|x: Seq<char>| r.contains(x) implies (es.contains(x) || x == e) by {
            let i = choose|i: int| 0 <= i < r.len() && r[i] == x;
            if i > 0 {
                assert(es[i - 1] == x);
            }
        }
        assert forall|x: Seq<char>| es.contains(x) implies r.contains(x) by {
            let i = choose|i: int| 0 <= i < es.len() && es[i] == x;
            assert(r[i + 1] == x);
        }
        assert(r.contains(e));
        if no_dups(es) {
            assert forall|i: int, j: int| 0 <= i < j < r.len() implies r[i] != r[j] by {
                if i == 0 {
                    assert(es[j - 1] == r[j]);
                    assert(es.contains(es[j - 1]));
                }
            }
        }
    }
}

/// A write leaves every section well-formed.
pub proof fn lemma_write_model_wf(m: RecordModel, sec: Section, e: Seq<char>, add: bool)
    requires
        m.wf(),
        add ==> wf_entry(e),
    ensures
        write_model(m, sec, e, add).wf(),
{
    lemma_add_entry(m.section(sec), e);
    lemma_remove_entry(m.section(sec), e);
}

/// Appends a copy of every string of `es` to `out`.
fn push_all(out: &mut Vec<String>, es: &Vec<String>)
    ensures
        final (out).deep_view() == old(out).deep_view() + es.deep_view(),
{
    let ghost dv = es.deep_view();
    let mut i: usize = 0;
    while i < es.len()
        invariant
            dv == es.deep_view(),
            dv.len() == es.len(),
            i <= es.len(),
            out.deep_view() == old(out).deep_view() + dv.take(i as int),
        decreases es.len() - i,
    {
        let ghost old_dv = out.deep_view();
        out.push(es[i].clone());
        proof {
            assert(out.deep_view() =~= old_dv.push(dv[i as int]));
            assert(old_dv.push(dv[i as int]) =~= old(out).deep_view() + dv.take(i as int + 1));
        }
        i += 1;
    }
    proof {
        assert(dv.take(es.len() as int) == dv);
    }
}

/// The entries with `e` put at their head, unless an equal entry is there.
fn vec_add_entry(es: &Vec<String>, e: &str) -> (r: Vec<String>)
    ensures
        r.deep_view() == add_entry(es.deep_view(), e@),
{
    let mut out: Vec<String> = Vec::new();
    if !crate::text::contains_str(es, e) {
        out.push(String::from_str(e));
        proof {
            assert(out.deep_view() =~= seq![e@]);
        }
    }
    push_all(&mut out, es);
    proof {
        if es.deep_view().contains(e@) {
            assert(out.deep_view() =~= es.deep_view());
        }
    }
    out
}

/// The entries with every string equal to `e` removed.
fn vec_remove_entry(es: &Vec<String>, e: &str) -> (r: Vec<String>)
    ensures
        r.deep_view() == remove_entry(es.deep_view(), e@),
{
    let ghost dv = es.deep_view();
    let mut out: Vec<String> = Vec::new();
    let mut i: usize = 0;
    while i < es.len()
        invariant
            dv == es.deep_view(),
            dv.len() == es.len(),
            i <= es.len(),
            out.deep_view() == remove_entry(dv.take(i as int), e@),
        decreases es.len() - i,
    {
        proof {
            assert(dv.take(i as int + 1).drop_last() == dv.take(i as int));
            assert(dv.take(i as int + 1).last() == dv[i as int]);
        }
        if !str_eq(es[i].as_str(), e) {
            let ghost old_dv = out.deep_view();
            out.push(es[i].clone());
            proof {
                assert(out.deep_view() =~= old_dv.push(dv[i as int]));
            }
        }
        i += 1;
    }
    proof {
        assert(dv.take(es.len() as int) == dv);
    }
    out
}

/// The entries of one section, rejoined one per line: what a read of that
/// label yields.
pub fn read_label(label: &str, text: &String) -> (r: String)
    requires
        is_label_line(label@),
    ensures
        r@ == render_entries(parse_text(text@).section(section_of(label@))),
{
    let rec = parse_record(text);
    let sec = section_for(label);
    let mut out = String::new();
    match sec {
        Section::Packages => append_entries(&mut out, &rec.packages),
        Section::Configs => append_entries(&mut out, &rec.configs),
        Section::Scripts => append_entries(&mut out, &rec.scripts),
    }
    out
}

/// The record text rewritten in canonical form: fixed section order, one entry
/// per line, one blank separator line.  The declared entries are unchanged.
pub fn reformat_config(text: &String) -> (r: String)
    ensures
        r@ == render_model(parse_text(text@)),
        parse_text(r@) == parse_text(text@),
{
    let rec = parse_record(text);
    let r = render_record(&rec);
    proof {
        lemma_parse_render(rec@);
    }
    r
}

/// The one mutation primitive: the record text with `entry` added to (`mode`
/// true) or removed from (`mode` false) the section of `label`, rewritten in
/// canonical form.
pub fn config_write(text: &String, label: &str, entry: &str, mode: bool) -> (r: String)
    requires
        is_label_line(label@),
        mode ==> wf_entry(entry@),
    ensures
        r@ == render_model(write_model(parse_text(text@), section_of(label@), entry@, mode)),
        parse_text(r@) == write_model(parse_text(text@), section_of(label@), entry@, mode),
{
    let rec = parse_record(text);
    let sec = section_for(label);
    let updated = match sec {
        Section::Packages => Record {
            packages: if mode {
                vec_add_entry(&rec.packages, entry)
            } else {
                vec_remove_entry(&rec.packages, entry)
            },
            configs: rec.configs,
            scripts: rec.scripts,
        },
        Section::Configs => Record {
            configs: if mode {
                vec_add_entry(&rec.configs, entry)
            } else {
                vec_remove_entry(&rec.configs, entry)
            },
            packages: rec.packages,
            scripts: rec.scripts,
        },
        Section::Scripts => Record {
            scripts: if mode {
                vec_add_entry(&rec.scripts, entry)
            } else {
                vec_remove_entry(&rec.scripts, entry)
            },
            packages: rec.packages,
            configs: rec.configs,
        },
    };
    proof {
        assert(updated@ =~= write_model(parse_text(text@), section_of(label@), entry@, mode));
        lemma_write_model_wf(parse_text(text@), section_of(label@), entry@, mode);
        lemma_parse_render(updated@);
    }
    render_record(&updated)
}

/// The record after adding each entry of `es` in turn to section `sec`.
pub open spec fn apply_adds(m: RecordModel, sec: Section, es: Seq<Seq<char>>) -> RecordModel
    decreases es.len(),
{
    if es.len() == 0 {
        m
    } else {
        write_model(apply_adds(m, sec, es.drop_last()), sec, es.last(), true)
    }
}

/// The record after removing each entry of `es` in turn from section `sec`.
pub open spec fn apply_removes(m: RecordModel, sec: Section, es: Seq<Seq<char>>) -> RecordModel
    decreases es.len(),
{
    if es.len() == 0 {
        m
    } else {
        write_model(apply_removes(m, sec, es.drop_last()), sec, es.last(), false)
    }
}

/// A sequence of adds touches only its section, and keeps well-formedness and
/// distinctness when the added entries are well-formed.
pub proof fn lemma_apply_adds(m: RecordModel, sec: Section, es: Seq<Seq<char>>)
    ensures
        forall|s2: Section| s2 != sec ==> apply_adds(m, sec, es).section(s2) == m.section(s2),
        m.wf() && wf_entries(es) ==> apply_adds(m, sec, es).wf(),
        m.all_distinct() ==> apply_adds(m, sec, es).all_distinct(),
    decreases es.len(),
{
    if es.len() > 0 {
        lemma_apply_adds(m, sec, es.drop_last());
        let pre = apply_adds(m, sec, es.drop_last());
        lemma_add_entry(pre.section(sec), es.last());
        if m.all_distinct() {
            lemma_write_no_dups(pre, sec, es.last(), true);
        }
    }
}

/// A sequence of removals touches only its section, keeps well-formedness and
/// distinctness, and leaves no trace of any removed entry.
pub proof fn lemma_apply_removes(m: RecordModel, sec: Section, es: Seq<Seq<char>>)
    ensures
        forall|s2: Section| s2 != sec ==> apply_removes(m, sec, es).section(s2) == m.section(s2),
        m.wf() ==> apply_removes(m, sec, es).wf(),
        m.all_distinct() ==> apply_removes(m, sec, es).all_distinct(),
        forall|x: Seq<char>|
            apply_removes(m, sec, es).section(sec).contains(x) ==> !es.contains(x),
        forall|x: Seq<char>|
            apply_removes(m, sec, es).section(sec).contains(x) ==> m.section(sec).contains(x),
    decreases es.len(),
{
    if es.len() > 0 {
        let dl = es.drop_last();
        lemma_apply_removes(m, sec, dl);
        let pre = apply_removes(m, sec, dl);
        lemma_remove_entry(pre.section(sec), es.last());
        if m.all_distinct() {
            lemma_write_no_dups(pre, sec, es.last(), false);
        }
        let fin = apply_removes(m, sec, es);
        assert(fin == write_model(pre, sec, es.last(), false));
        assert(fin.section(sec) == remove_entry(pre.section(sec), es.last())) by {
            match sec {
                Section::Packages => {},
                Section::Configs => {},
                Section::Scripts => {},
            }
        }
        assert forall|x: Seq<char>| fin.section(sec).contains(x) implies !es.contains(x) by {
            assert(remove_entry(pre.section(sec), es.last()).contains(x));
            assert(pre.section(sec).contains(x) && x != es.last());
            if es.contains(x) {
                let i = choose|i: int| 0 <= i < es.len() && es[i] == x;
                assert(dl[i] == x);
                assert(dl.contains(x));
            }
        }
    }
}

/// Law: rewriting a record text in canonical form is idempotent — a second
/// rewrite with no write in between produces the identical text.
pub proof fn lemma_reformat_idempotent(t: Seq<char>)
    ensures
        render_model(parse_text(render_model(parse_text(t)))) == render_model(parse_text(t)),
{
    lemma_parse_text_wf(t);
    lemma_parse_render(parse_text(t));
}

/// Law: whatever sequence of writes built a record, no section ever holds two
/// equal entries, and adding an entry already present changes nothing.
pub proof fn lemma_write_no_dups(m: RecordModel, sec: Section, e: Seq<char>, add: bool)
    requires
        m.all_distinct(),
    ensures
        write_model(m, sec, e, add).all_distinct(),
        add && m.section(sec).contains(e) ==> write_model(m, sec, e, add) == m,
{
    lemma_add_entry(m.section(sec), e);
    lemma_remove_entry(m.section(sec), e);
    if add && m.section(sec).contains(e) {
        assert(write_model(m, sec, e, add) =~= m);
    }
}

/// Law: the empty record, the state of a fresh group, is duplicate-free, so by
/// the preservation law every record reachable through writes is too.
pub proof fn lemma_empty_record_distinct()
    ensures
        empty_record().all_distinct(),
        parse_text(Seq::<char>::empty()) == empty_record(),
{
    assert(entry_lines(Seq::<char>::empty()) =~= Seq::<Seq<char>>::empty());
}

/// Law: reading a section back — splitting a well-formed section's rendered
/// body into lines yields exactly its entries, so what a write put into a
/// section is what a read of that section returns.
pub proof fn lemma_read_back(m: RecordModel, sec: Section)
    requires
        m.wf(),
    ensures
        entry_lines(render_entries(m.section(sec))) == m.section(sec),
{
    lemma_render_entries_lines(m.section(sec));
}

/// The record after a whole sequence of writes, each an entry added to or
/// removed from one section, applied in order.
pub open spec fn apply_writes(m: RecordModel, ops: Seq<(Section, Seq<char>, bool)>) -> RecordModel
    decreases ops.len(),
{
    if ops.len() == 0 {
        m
    } else {
        let op = ops.last();
        write_model(apply_writes(m, ops.drop_last()), op.0, op.1, op.2)
    }
}

/// Law: whatever sequence of writes a record goes through, starting from a
/// duplicate-free state — the empty record of a fresh group included — no
/// section ever holds two equal entries.
pub proof fn lemma_writes_keep_distinct(m: RecordModel, ops: Seq<(Section, Seq<char>, bool)>)
    requires
        m.all_distinct(),
    ensures
        apply_writes(m, ops).all_distinct(),
    decreases ops.len(),
{
    if ops.len() > 0 {
        lemma_writes_keep_distinct(m, ops.drop_last());
        let op = ops.last();
        lemma_write_no_dups(apply_writes(m, ops.drop_last()), op.0, op.1, op.2);
    }
}

/// Law: round trip — after adding entry `e` to a duplicate-free section, the
/// section read back contains `e` exactly once; after removing `e`, it does
/// not contain `e` at all.
pub proof fn lemma_write_round_trip(m: RecordModel, sec: Section, e: Seq<char>)
    requires
        m.all_distinct(),
    ensures
        write_model(m, sec, e, true).section(sec).contains(e),
        no_dups(write_model(m, sec, e, true).section(sec)),
        !write_model(m, sec, e, false).section(sec).contains(e),
{
    lemma_add_entry(m.section(sec), e);
    lemma_remove_entry(m.section(sec), e);
    lemma_write_no_dups(m, sec, e, true);
}

} // verus!
