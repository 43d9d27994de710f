//! Character-level text utilities: exact string comparison, splitting a text
//! into its non-empty lines, locating the last occurrence of a character, and
//! decimal suffix handling.  Every operation is specified over the `Seq<char>`
//! view of the strings involved.

use vstd::prelude::*;

verus! {

/// A character that may stand inside a single line: anything but a line break.
pub open spec fn is_line_char(c: char) -> bool {
    c != '\n' && c != '\r'
}

/// Every character of `s` may stand inside a single line.
pub open spec fn all_line_chars(s: Seq<char>) -> bool {
    forall|i: int| 0 <= i < s.len() ==> is_line_char(#[trigger] s[i])
}

/// State of a left-to-right line split of `s`: the completed non-empty lines,
/// and the (possibly empty) line still open at the end.
pub open spec fn lines_acc(s: Seq<char>) -> (Seq<Seq<char>>, Seq<char>)
    decreases s.len(),
{
    if s.len() == 0 {
        (Seq::empty(), Seq::empty())
    } else {
        let (done, cur) = lines_acc(s.drop_last());
        let c = s.last();
        if c == '\n' || c == '\r' {
            if cur.len() > 0 {
                (done.push(cur), Seq::empty())
            } else {
                (done, Seq::empty())
            }
        } else {
            (done, cur.push(c))
        }
    }
}

/// The non-empty lines of `s`: what splitting on '\r' and '\n' yields once the
/// empty pieces are dropped.
pub open spec fn entry_lines(s: Seq<char>) -> Seq<Seq<char>> {
    let (done, cur) = lines_acc(s);
    if cur.len() > 0 {
        done.push(cur)
    } else {
        done
    }
}

/// Each completed line is non-empty and break-free, and so is the open tail.
pub proof fn lemma_lines_acc_wf(s: Seq<char>)
    ensures
        forall|i: int|
            0 <= i < lines_acc(s).0.len() ==> (#[trigger] lines_acc(s).0[i]).len() > 0
                && all_line_chars(lines_acc(s).0[i]),
        all_line_chars(lines_acc(s).1),
    decreases s.len(),
{
    if s.len() > 0 {
        lemma_lines_acc_wf(s.drop_last());
    }
}

/// Every line that `entry_lines` yields is non-empty and break-free.
pub proof fn lemma_entry_lines_wf(s: Seq<char>)
    ensures
        forall|i: int|
            0 <= i < entry_lines(s).len() ==> (#[trigger] entry_lines(s)[i]).len() > 0
                && all_line_chars(entry_lines(s)[i]),
{
    lemma_lines_acc_wf(s);
}

/// Splitting a concatenation whose first half ends on a line break continues
/// cleanly into the second half.
pub proof fn lemma_lines_acc_concat(a: Seq<char>, b: Seq<char>)
    requires
        lines_acc(a).1.len() == 0,
    ensures
        lines_acc(a + b).0 == lines_acc(a).0 + lines_acc(b).0,
        lines_acc(a + b).1 == lines_acc(b).1,
    decreases b.len(),
{
    if b.len() == 0 {
        assert(a + b == a);
        assert(lines_acc(a).0 + lines_acc(b).0 == lines_acc(a).0);
    } else {
        lemma_lines_acc_concat(a, b.drop_last());
        assert((a + b).drop_last() == a + b.drop_last());
        assert((a + b).last() == b.last());
        if b.last() == '\n' || b.last() == '\r' {
            if lines_acc(b.drop_last()).1.len() > 0 {
                assert(lines_acc(a).0 + lines_acc(b.drop_last()).0.push(lines_acc(b.drop_last()).1)
                    == (lines_acc(a).0 + lines_acc(b.drop_last()).0).push(
                    lines_acc(b.drop_last()).1,
                ));
            }
        }
    }
}

/// A non-empty break-free text is one single open line.
pub proof fn lemma_lines_acc_single(e: Seq<char>)
    requires
        all_line_chars(e),
    ensures
        lines_acc(e).0 == Seq::<Seq<char>>::empty(),
        lines_acc(e).1 == e,
    decreases e.len(),
{
    if e.len() > 0 {
        lemma_lines_acc_single(e.drop_last());
        assert(lines_acc(e.drop_last()).1.push(e.last()) == e);
    }
}

/// A non-empty break-free line followed by a newline splits into exactly that
/// line, with nothing left open.
pub proof fn lemma_lines_acc_line(e: Seq<char>)
    requires
        e.len() > 0,
        all_line_chars(e),
    ensures
        lines_acc(e + seq!['\n']).0 == seq![e],
        lines_acc(e + seq!['\n']).1.len() == 0,
{
    lemma_lines_acc_single(e);
    let s = e + seq!['\n'];
    assert(s.drop_last() == e);
    assert(s.last() == '\n');
    assert(Seq::<Seq<char>>::empty().push(e) == seq![e]);
}

/// Exact comparison of two string slices, by characters.
pub fn str_eq(a: &str, b: &str) -> (r: bool)
    ensures
        r == (a@ == b@),
{
    let na = a.unicode_len();
    let nb = b.unicode_len();
    if na != nb {
        return false;
    }
    let mut i: usize = 0;
    while i < na
        invariant
            na == a@.len(),
            na == b@.len(),
            i <= na,
            forall|k: int| 0 <= k < i ==> a@[k] == b@[k],
        decreases na - i,
    {
        if a.get_char(i) != b.get_char(i) {
            return false;
        }
        i += 1;
    }
    proof {
        assert(a@ =~= b@);
    }
    true
}

/// Whether `c` is a decimal digit.
pub open spec fn is_digit(c: char) -> bool {
    48 <= c as int <= 57
}

/// Whether `s` is a non-empty run of decimal digits.
pub open spec fn is_digit_seq(s: Seq<char>) -> bool {
    s.len() > 0 && (forall|i: int| 0 <= i < s.len() ==> is_digit(#[trigger] s[i]))
}

/// The value of a run of decimal digits, most significant first.
pub open spec fn digits_val(s: Seq<char>) -> int
    decreases s.len(),
{
    if s.len() == 0 {
        0
    } else {
        digits_val(s.drop_last()) * 10 + (s.last() as int - 48)
    }
}

/// The value of a digit run never shrinks as digits are appended.
pub proof fn lemma_digits_val_prefix(s: Seq<char>, i: int)
    requires
        0 <= i <= s.len(),
        forall|k: int| 0 <= k < s.len() ==> is_digit(#[trigger] s[k]),
    ensures
        digits_val(s) >= digits_val(s.take(i)),
        digits_val(s.take(i)) >= 0,
    decreases s.len() - i,
{
    if i == s.len() {
        assert(s.take(i) == s);
        lemma_digits_val_nonneg(s);
    } else {
        lemma_digits_val_prefix(s, i + 1);
        assert(s.take(i + 1).drop_last() == s.take(i));
        assert(s.take(i + 1).last() == s[i]);
        lemma_digits_val_nonneg(s.take(i));
    }
}

/// The value of a digit run is non-negative.
pub proof fn lemma_digits_val_nonneg(s: Seq<char>)
    requires
        forall|k: int| 0 <= k < s.len() ==> is_digit(#[trigger] s[k]),
    ensures
        digits_val(s) >= 0,
    decreases s.len(),
{
    if s.len() > 0 {
        lemma_digits_val_nonneg(s.drop_last());
    }
}

/// The decimal value of `s`, or `None` when `s` is not a digit run or its
/// value does not fit in `usize`.
pub fn parse_index(s: &str) -> (r: Option<usize>)
    ensures
        match r {
            Some(v) => is_digit_seq(s@) && digits_val(s@) == v as int,
            None => !is_digit_seq(s@) || digits_val(s@) > usize::MAX as int,
        },
{
    let n = s.unicode_len();
    if n == 0 {
        return None;
    }
    let mut acc: usize = 0;
    let mut i: usize = 0;
    while i < n
        invariant
            n == s@.len(),
            0 < n,
            i <= n,
            forall|k: int| 0 <= k < i ==> is_digit(#[trigger] s@[k]),
            acc as int == digits_val(s@.take(i as int)),
        decreases n - i,
    {
        let c = s.get_char(i);
        let cv = c as u32;
        if cv < 48 || cv > 57 {
            return None;
        }
        let d = (cv - 48) as usize;
        proof {
            assert(s@.take(i as int + 1).drop_last() == s@.take(i as int));
            assert(s@.take(i as int + 1).last() == s@[i as int]);
        }
        match acc.checked_mul(10) {
            Some(t) => {
                match t.checked_add(d) {
                    Some(next) => {
                        acc = next;
                    },
                    None => {
                        proof {
                            overflow_tail(s@, i as int);
                        }
                        return None;
                    },
                }
            },
            None => {
                proof {
                    overflow_tail(s@, i as int);
                }
                return None;
            },
        }
        i += 1;
    }
    proof {
        assert(s@.take(n as int) == s@);
    }
    Some(acc)
}

/// If the value of the first `i + 1` digits of `s` already exceeds
/// `usize::MAX`, so does the value of all of `s`.
proof fn overflow_tail(s: Seq<char>, i: int)
    requires
        0 <= i < s.len(),
        forall|k: int| 0 <= k <= i ==> is_digit(#[trigger] s[k]),
        digits_val(s.take(i + 1)) > usize::MAX as int,
    ensures
        !is_digit_seq(s) || digits_val(s) > usize::MAX as int,
{
    if is_digit_seq(s) {
        lemma_digits_val_prefix(s, i + 1);
    }
}

/// The digit character for a value below ten.
pub open spec fn digit_char(d: int) -> char {
    if d == 0 {
        '0'
    } else if d == 1 {
        '1'
    } else if d == 2 {
        '2'
    } else if d == 3 {
        '3'
    } else if d == 4 {
        '4'
    } else if d == 5 {
        '5'
    } else if d == 6 {
        '6'
    } else if d == 7 {
        '7'
    } else if d == 8 {
        '8'
    } else {
        '9'
    }
}

/// The decimal digits of `n`, most significant first.
pub open spec fn dec_digits(n: int) -> Seq<char>
    decreases n,
{
    if n < 10 {
        seq![digit_char(n)]
    } else {
        dec_digits(n / 10).push(digit_char(n % 10))
    }
}

/// The decimal digits of `n` form a digit run whose value is `n` again.
pub proof fn lemma_dec_digits_val(n: int)
    requires
        n >= 0,
    ensures
        is_digit_seq(dec_digits(n)),
        digits_val(dec_digits(n)) == n,
    decreases n,
{
    if n < 10 {
        let s = dec_digits(n);
        assert(s.len() == 1);
        assert(s.drop_last() =~= Seq::<char>::empty());
        assert(s.last() == digit_char(n));
        assert(digit_char(n) as int - 48 == n);
        assert(digits_val(s) == digits_val(s.drop_last()) * 10 + (s.last() as int - 48));
    } else {
        lemma_dec_digits_val(n / 10);
        assert(dec_digits(n).drop_last() == dec_digits(n / 10));
    }
}

/// The one-character string for a digit value.
fn digit_str(d: usize) -> (r: &'static str)
    requires
        d < 10,
    ensures
        r@ == seq![digit_char(d as int)],
{
    proof {
        reveal_strlit("0");
        reveal_strlit("1");
        reveal_strlit("2");
        reveal_strlit("3");
        reveal_strlit("4");
        reveal_strlit("5");
        reveal_strlit("6");
        reveal_strlit("7");
        reveal_strlit("8");
        reveal_strlit("9");
    }
    let r = if d == 0 {
        "0"
    } else if d == 1 {
        "1"
    } else if d == 2 {
        "2"
    } else if d == 3 {
        "3"
    } else if d == 4 {
        "4"
    } else if d == 5 {
        "5"
    } else if d == 6 {
        "6"
    } else if d == 7 {
        "7"
    } else if d == 8 {
        "8"
    } else {
        "9"
    };
    proof {
        assert(r@ =~= seq![digit_char(d as int)]);
    }
    r
}

/// The decimal rendering of `n`.
pub fn usize_to_string(n: usize) -> (r: String)
    ensures
        r@ == dec_digits(n as int),
    decreases n,
{
    if n < 10 {
        String::from_str(digit_str(n))
    } else {
        let mut r = usize_to_string(n / 10);
        r.append(digit_str(n % 10));
        proof {
            assert(dec_digits(n as int / 10) + seq![digit_char(n as int % 10)] =~= dec_digits(
                n as int / 10,
            ).push(digit_char(n as int % 10)));
        }
        r
    }
}

/// Splitting `s` at the last occurrence of `c`: the parts before and after
/// that occurrence, or `None` when `c` does not occur.
pub open spec fn split_last(s: Seq<char>, c: char) -> Option<(Seq<char>, Seq<char>)>
    decreases s.len(),
{
    if s.len() == 0 {
        None
    } else if s.last() == c {
        Some((s.drop_last(), Seq::empty()))
    } else {
        match split_last(s.drop_last(), c) {
            None => None,
            Some((a, b)) => Some((a, b.push(s.last()))),
        }
    }
}

/// When `c` occurs nowhere in `s`, there is nothing to split at.
pub proof fn lemma_split_last_none(s: Seq<char>, c: char)
    requires
        forall|k: int| 0 <= k < s.len() ==> s[k] != c,
    ensures
        split_last(s, c) is None,
    decreases s.len(),
{
    if s.len() > 0 {
        lemma_split_last_none(s.drop_last(), c);
    }
}

/// When position `j` holds the last occurrence of `c`, the split parts are the
/// surrounding subranges.
pub proof fn lemma_split_last_at(s: Seq<char>, c: char, j: int)
    requires
        0 <= j < s.len(),
        s[j] == c,
        forall|k: int| j < k < s.len() ==> s[k] != c,
    ensures
        split_last(s, c) == Some((s.take(j), s.subrange(j + 1, s.len() as int))),
    decreases s.len() - j,
{
    if j == s.len() - 1 {
        assert(s.drop_last() == s.take(j));
        assert(s.subrange(j + 1, s.len() as int) =~= Seq::<char>::empty());
    } else {
        lemma_split_last_at(s.drop_last(), c, j);
        assert(s.drop_last().take(j) == s.take(j));
        assert(s.drop_last().subrange(j + 1, s.len() - 1) == s.subrange(j + 1, s.len() - 1));
        assert(s.subrange(j + 1, s.len() - 1).push(s.last()) =~= s.subrange(j + 1, s.len() as int));
    }
}

/// The position of the last occurrence of `c` in `s`, if any.
pub fn rfind_char(s: &str, c: char) -> (r: Option<usize>)
    ensures
        match r {
            Some(j) => j < s@.len() && s@[j as int] == c && (forall|k: int|
                j < k < s@.len() ==> s@[k] != c),
            None => forall|k: int| 0 <= k < s@.len() ==> s@[k] != c,
        },
{
    let n = s.unicode_len();
    let mut i: usize = n;
    while i > 0
        invariant
            n == s@.len(),
            i <= n,
            forall|k: int| i <= k < n ==> s@[k] != c,
        decreases i,
    {
        i -= 1;
        if s.get_char(i) == c {
            return Some(i);
        }
    }
    None
}

/// The part of `e` after its last '/', or all of `e` when it has none.
pub open spec fn base_name_of(e: Seq<char>) -> Seq<char> {
    match split_last(e, '/') {
        None => e,
        Some((_, b)) => b,
    }
}

/// The part of `e` after its last '/', or all of `e` when it has none.
pub fn base_name<'a>(e: &'a str) -> (r: &'a str)
    ensures
        r@ == base_name_of(e@),
{
    let n = e.unicode_len();
    match rfind_char(e, '/') {
        Some(j) => {
            proof {
                lemma_split_last_at(e@, '/', j as int);
            }
            e.substring_char(j + 1, n)
        },
        None => {
            proof {
                lemma_split_last_none(e@, '/');
            }
            e
        },
    }
}

/// `e` without its trailing `_N` disambiguation suffix, when it carries one
/// whose digits fit in `usize`; otherwise `e` itself.
pub open spec fn strip_index_of(e: Seq<char>) -> Seq<char> {
    match split_last(e, '_') {
        None => e,
        Some((a, b)) => if is_digit_seq(b) && digits_val(b) <= usize::MAX as int {
            a
        } else {
            e
        },
    }
}

/// `e` without its trailing `_N` disambiguation suffix, when it carries one.
pub fn strip_index<'a>(e: &'a str) -> (r: &'a str)
    ensures
        r@ == strip_index_of(e@),
{
    let n = e.unicode_len();
    match rfind_char(e, '_') {
        Some(j) => {
            proof {
                lemma_split_last_at(e@, '_', j as int);
            }
            let tail = e.substring_char(j + 1, n);
            match parse_index(tail) {
                Some(_) => e.substring_char(0, j),
                None => e,
            }
        },
        None => {
            proof {
                lemma_split_last_none(e@, '_');
            }
            e
        },
    }
}

/// Whether `s` begins with `p`.
pub open spec fn starts_with_spec(s: Seq<char>, p: Seq<char>) -> bool {
    s.len() >= p.len() && s.take(p.len() as int) == p
}

/// Whether `s` begins with `p`.
pub fn starts_with(s: &str, p: &str) -> (r: bool)
    ensures
        r == starts_with_spec(s@, p@),
{
    let n = s.unicode_len();
    let m = p.unicode_len();
    if n < m {
        return false;
    }
    let head = s.substring_char(0, m);
    proof {
        assert(s@.take(m as int) == s@.subrange(0, m as int));
    }
    str_eq(head, p)
}

/// Whether some string of `v` reads `s`.
pub fn contains_str(v: &Vec<String>, s: &str) -> (r: bool)
    ensures
        r == v.deep_view().contains(s@),
{
    let mut i: usize = 0;
    while i < v.len()
        invariant
            i <= v.len(),
            forall|k: int| 0 <= k < i ==> v.deep_view()[k] != s@,
        decreases v.len() - i,
    {
        if str_eq(v[i].as_str(), s) {
            proof {
                assert(v.deep_view()[i as int] == s@);
            }
            return true;
        }
        i += 1;
    }
    false
}

/// The non-empty lines of `text`, split on '\r' and '\n'.
pub fn get_entries(text: &String) -> (r: Vec<String>)
    ensures
        r.deep_view() == entry_lines(text@),
{
    let s = text.as_str();
    let n = s.unicode_len();
    let mut out: Vec<String> = Vec::new();
    let mut start: usize = 0;
    let mut i: usize = 0;
    while i < n
        invariant
            n == text@.len(),
            s@ == text@,
            start <= i <= n,
            out.deep_view() == lines_acc(text@.take(i as int)).0,
            lines_acc(text@.take(i as int)).1 == text@.subrange(start as int, i as int),
        decreases n - i,
    {
        let c = s.get_char(i);
        proof {
            assert(text@.take(i as int + 1).drop_last() == text@.take(i as int));
            assert(text@.take(i as int + 1).last() == text@[i as int]);
        }
        if c == '\n' || c == '\r' {
            if i > start {
                let line = String::from_str(s.substring_char(start, i));
                let ghost old_dv = out.deep_view();
                out.push(line);
                proof {
                    assert(out.deep_view() =~= old_dv.push(line@));
                }
            }
            start = i + 1;
            proof {
                assert(text@.subrange(start as int, i as int + 1) =~= Seq::<char>::empty());
            }
        } else {
            proof {
                assert(text@.subrange(start as int, i as int + 1) =~= text@.subrange(
                    start as int,
                    i as int,
                ).push(text@[i as int]));
            }
        }
        i += 1;
    }
    proof {
        assert(text@.take(n as int) == text@);
    }
    if start < n {
        let line = String::from_str(s.substring_char(start, n));
        let ghost old_dv = out.deep_view();
        out.push(line);
        proof {
            assert(out.deep_view() =~= old_dv.push(line@));
        }
    }
    out
}

} // verus!
