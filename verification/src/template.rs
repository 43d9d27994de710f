//! Path templating: a stored config path carries a portable placeholder in
//! place of the caller's home directory, so the record can move between
//! machines.  The home directory is handed in by the caller.

use vstd::prelude::*;

use crate::text::starts_with;
use crate::text::starts_with_spec;

verus! {

/// The portable token that stands for the home directory in stored paths.
pub open spec fn placeholder() -> Seq<char> {
    "home_dir"@
}

/// The placeholder token as text.
pub fn placeholder_str() -> (r: &'static str)
    ensures
        r@ == placeholder(),
{
    "home_dir"
}

/// `c` with a leading home directory replaced by the placeholder; `c` itself
/// when it does not start with the home directory or the home directory is
/// empty.
pub open spec fn template_spec(c: Seq<char>, home: Seq<char>) -> Seq<char> {
    if home.len() > 0 && starts_with_spec(c, home) {
        placeholder() + c.skip(home.len() as int)
    } else {
        c
    }
}

/// `c` with a leading placeholder replaced by the home directory; `c` itself
/// when it does not start with the placeholder.
pub open spec fn userdir_spec(c: Seq<char>, home: Seq<char>) -> Seq<char> {
    if starts_with_spec(c, placeholder()) {
        home + c.skip(placeholder().len() as int)
    } else {
        c
    }
}

/// Replaces a leading home directory in `config` by the placeholder.
pub fn to_template(config: &mut String, home: &str)
    ensures
        final (config)@ == template_spec(old(config)@, home@),
{
    let m = home.unicode_len();
    if m > 0 && starts_with(config.as_str(), home) {
        let n = config.unicode_len();
        let rest = config.as_str().substring_char(m, n);
        let mut out = String::from_str(placeholder_str());
        out.append(rest);
        proof {
            assert(out@ =~= placeholder() + old(config)@.skip(m as int));
        }
        *config = out;
    }
}

/// Replaces a leading placeholder in `config` by the home directory.
pub fn to_userdir(config: &mut String, home: &str)
    ensures
        final (config)@ == userdir_spec(old(config)@, home@),
{
    let p = placeholder_str();
    let m = p.unicode_len();
    if starts_with(config.as_str(), p) {
        let n = config.unicode_len();
        let rest = config.as_str().substring_char(m, n);
        let mut out = String::from_str(home);
        out.append(rest);
        proof {
            assert(out@ =~= home@ + old(config)@.skip(placeholder().len() as int));
        }
        *config = out;
    }
}

/// The placeholder is a non-empty run of ordinary line characters.
pub proof fn lemma_placeholder_chars()
    ensures
        placeholder() =~= seq!['h', 'o', 'm', 'e', '_', 'd', 'i', 'r'],
        placeholder().len() == 8,
        crate::text::all_line_chars(placeholder()),
{
    reveal_strlit("home_dir");
    assert(placeholder() =~= seq!['h', 'o', 'm', 'e', '_', 'd', 'i', 'r']);
    assert forall|i: int| 0 <= i < placeholder().len() implies crate::text::is_line_char(
        #[trigger] placeholder()[i],
    ) by {
        reveal_strlit("home_dir");
    }
}

/// Templating keeps a path a non-empty, break-free line.
pub proof fn lemma_template_line(p: Seq<char>, home: Seq<char>)
    requires
        p.len() > 0,
        crate::text::all_line_chars(p),
    ensures
        template_spec(p, home).len() > 0,
        crate::text::all_line_chars(template_spec(p, home)),
{
    lemma_placeholder_chars();
    if home.len() > 0 && starts_with_spec(p, home) {
        let t = placeholder() + p.skip(home.len() as int);
        assert forall|i: int| 0 <= i < t.len() implies crate::text::is_line_char(
            #[trigger] t[i],
        ) by {
            if i >= placeholder().len() {
                assert(t[i] == p[i - 8 + home.len()]);
            }
        }
    }
}

/// Templating a path under the home directory and mapping it back restores
/// the original path exactly.
pub proof fn lemma_template_round_trip(c: Seq<char>, home: Seq<char>)
    requires
        home.len() > 0,
        starts_with_spec(c, home),
    ensures
        userdir_spec(template_spec(c, home), home) == c,
{
    let t = template_spec(c, home);
    let rest = c.skip(home.len() as int);
    assert(t == placeholder() + rest);
    assert(t.take(placeholder().len() as int) =~= placeholder());
    assert(starts_with_spec(t, placeholder()));
    assert(t.skip(placeholder().len() as int) =~= rest);
    assert(home + rest =~= c);
}

} // verus!
