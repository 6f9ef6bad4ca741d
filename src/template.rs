//! Placeholder detection and substitution for template text.
use vstd::prelude::*;
use vstd::string::*;
use crate::text::{chars_of, lines, split_lines};

verus! {

/// The character that introduces a placeholder.
pub const MARKER: char = 'X';

/// Largest placeholder index that is ever resolved against a palette.
pub const MAX_INDEX: usize = 15;

/// Whether `c` is an ASCII decimal digit.
pub open spec fn is_digit(c: char) -> bool {
    '0' <= c && c <= '9'
}

/// Numeric value of an ASCII digit.
pub open spec fn digit_value(c: char) -> nat {
    (c as u32 - '0' as u32) as nat
}

/// The index digits of a placeholder that starts at the front of `s`, if one does:
/// a marker followed by one digit, and by a second one when it is there too.
pub open spec fn placeholder_at_front(s: Seq<char>) -> Option<Seq<char>> {
    if s.len() >= 2 && s[0] == MARKER && is_digit(s[1]) {
        if s.len() >= 3 && is_digit(s[2]) {
            Some(s.subrange(1, 3))
        } else {
            Some(s.subrange(1, 2))
        }
    } else {
        None
    }
}

/// The index digits of every placeholder of `s`, left to right, one for each marker
/// that a digit follows.
pub open spec fn placeholders(s: Seq<char>) -> Seq<Seq<char>>
    decreases s.len(),
{
    if s.len() == 0 {
        Seq::empty()
    } else {
        match placeholder_at_front(s) {
            Some(d) => seq![d] + placeholders(s.drop_first()),
            None => placeholders(s.drop_first()),
        }
    }
}

/// The number that one or two decimal digits denote.
pub open spec fn index_value(d: Seq<char>) -> nat {
    if d.len() == 1 {
        digit_value(d[0])
    } else {
        10 * digit_value(d[0]) + digit_value(d[1])
    }
}

/// What a placeholder with index digits `d` reads as in template text.
pub open spec fn token(d: Seq<char>) -> Seq<char> {
    seq![MARKER] + d
}

/// The view of a palette: its color strings, in order.
pub open spec fn palette_view(colors: Seq<String>) -> Seq<Seq<char>> {
    colors.map_values(|c: String| c@)
}

/// `s` with every occurrence of `pat` replaced by `rep`, scanning left to right and
/// resuming after each replaced occurrence, as `str::replace` does.
pub open spec fn replaced(s: Seq<char>, pat: Seq<char>, rep: Seq<char>) -> Seq<char>
    decreases s.len(),
{
    if pat.len() == 0 || s.len() < pat.len() {
        s
    } else if s.subrange(0, pat.len() as int) == pat {
        rep + replaced(s.skip(pat.len() as int), pat, rep)
    } else {
        seq![s[0]] + replaced(s.drop_first(), pat, rep)
    }
}

/// Resolves placeholder digits `ds`, in order, against `palette`, starting from `line`.
/// An index above `MAX_INDEX` is left alone; one within it is replaced wherever its
/// token occurs in the line as it stands, or, without a palette entry, ends the work
/// with that index as the error.
pub open spec fn apply_placeholders(
    line: Seq<char>,
    ds: Seq<Seq<char>>,
    palette: Seq<Seq<char>>,
) -> Result<Seq<char>, nat>
    decreases ds.len(),
{
    if ds.len() == 0 {
        Ok(line)
    } else {
        let n = index_value(ds[0]);
        if n > MAX_INDEX {
            apply_placeholders(line, ds.drop_first(), palette)
        } else if n >= palette.len() {
            Err(n)
        } else {
            apply_placeholders(replaced(line, token(ds[0]), palette[n as int]), ds.drop_first(), palette)
        }
    }
}

/// A template line after substitution against `palette`, or the first in-bound index
/// that the palette has no entry for.
pub open spec fn substituted(line: Seq<char>, palette: Seq<Seq<char>>) -> Result<Seq<char>, nat> {
    apply_placeholders(line, placeholders(line), palette)
}

/// The outcome `r` with `p` put in front of its text.
pub open spec fn prefixed(p: Seq<char>, r: Result<Seq<char>, nat>) -> Result<Seq<char>, nat> {
    match r {
        Ok(text) => Ok(p + text),
        Err(n) => Err(n),
    }
}

/// The lines `ls` each substituted against `palette` and ended by a newline, or the
/// error of the first line that fails.
pub open spec fn rendered(ls: Seq<Seq<char>>, palette: Seq<Seq<char>>) -> Result<Seq<char>, nat>
    decreases ls.len(),
{
    if ls.len() == 0 {
        Ok(Seq::empty())
    } else {
        match substituted(ls[0], palette) {
            Err(n) => Err(n),
            Ok(line) => prefixed(line + seq!['\n'], rendered(ls.drop_first(), palette)),
        }
    }
}

/// Why a template could not be rendered.
#[derive(Debug, Clone, Copy, PartialEq, Eq, Structural)]
pub enum TemplateError {
    /// A placeholder's index is within `MAX_INDEX`, but the palette is too short to
    /// hold a color for it.
    MissingColor { index: usize },
}

/// Whether `r` is the executable form of the outcome `spec_r`.
pub open spec fn outcome_matches(r: Result<String, TemplateError>, spec_r: Result<Seq<char>, nat>) -> bool {
    match r {
        Ok(out) => spec_r == Ok::<Seq<char>, nat>(out@),
        Err(TemplateError::MissingColor { index }) => spec_r == Err::<Seq<char>, nat>(index as nat),
    }
}

/// Every placeholder found is one or two decimal digits.
pub proof fn lemma_placeholder_shape(s: Seq<char>)
    ensures
        forall|k: int|
            0 <= k < placeholders(s).len() ==> {
                let d = #[trigger] placeholders(s)[k];
                &&& 1 <= d.len() <= 2
                &&& forall|j: int| 0 <= j < d.len() ==> is_digit(d[j])
            },
    decreases s.len(),
{
    if s.len() > 0 {
        lemma_placeholder_shape(s.drop_first());
        let rest = placeholders(s.drop_first());
        match placeholder_at_front(s) {
            Some(d) => {
                assert(1 <= d.len() <= 2);
                assert(forall|j: int| 0 <= j < d.len() ==> is_digit(d[j]));
                assert forall|k: int| 0 < k < placeholders(s).len() implies placeholders(s)[k]
                    == rest[k - 1] by {}
                assert(placeholders(s)[0] == d);
            },
            None => {},
        }
    }
}

/// The index digits of every placeholder of `lin`, left to right; see `placeholders`.
pub fn get_color_num(lin: &str) -> (r: Vec<String>)
    ensures
        r@.map_values(|d: String| d@) == placeholders(lin@),
{
    let cs = chars_of(lin);
    let n = cs.len();
    let mut r: Vec<String> = Vec::new();
    let mut i: usize = 0;
    assert(lin@.skip(0) =~= lin@);
    assert(r@.map_values(|d: String| d@) + placeholders(lin@) =~= placeholders(lin@));
    while i < n
        invariant
            n == cs@.len(),
            cs@ == lin@,
            i <= n,
            placeholders(lin@) == r@.map_values(|d: String| d@) + placeholders(lin@.skip(i as int)),
        decreases n - i,
    {
        let ghost rest = lin@.skip(i as int);
        assert(rest.drop_first() =~= lin@.skip(i as int + 1));
        if cs[i] == MARKER && i + 1 < n && '0' <= cs[i + 1] && cs[i + 1] <= '9' {
            let end: usize = if i + 2 < n && '0' <= cs[i + 2] && cs[i + 2] <= '9' {
                i + 3
            } else {
                i + 2
            };
            let digits = String::from_str(lin.substring_char(i + 1, end));
            assert(rest.subrange(1, (end - i) as int) =~= lin@.subrange(i + 1, end as int));
            let ghost before = r@;
            r.push(digits);
            assert(r@.map_values(|d: String| d@) =~= before.map_values(|d: String| d@).push(digits@));
        }
        i = i + 1;
    }
    assert(lin@.skip(n as int) =~= Seq::<char>::empty());
    assert(r@.map_values(|d: String| d@) + placeholders(lin@.skip(n as int)) =~= r@.map_values(|d: String| d@));
    r
}

/// Whether `pat` occurs in `cs` at position `i`.
fn occurs_at(cs: &Vec<char>, pat: &Vec<char>, i: usize) -> (r: bool)
    requires
        i + pat@.len() <= cs@.len(),
    ensures
        r == (cs@.subrange(i as int, i + pat@.len()) == pat@),
{
    let m = pat.len();
    let mut j: usize = 0;
    while j < m
        invariant
            m == pat@.len(),
            i + m <= cs.len(),
            j <= m,
            cs@.subrange(i as int, i + j) == pat@.subrange(0, j as int),
        decreases m - j,
    {
        if cs[i + j] != pat[j] {
            assert(cs@.subrange(i as int, i + m)[j as int] != pat@[j as int]);
            return false;
        }
        assert(cs@.subrange(i as int, i + j + 1) =~= pat@.subrange(0, j + 1));
        j = j + 1;
    }
    assert(pat@.subrange(0, m as int) =~= pat@);
    true
}

/// `s` with every occurrence of `pat` replaced by `rep`; see `replaced`.
pub fn replace_all(s: &str, pat: &Vec<char>, rep: &str) -> (r: String)
    requires
        pat@.len() > 0,
    ensures
        r@ == replaced(s@, pat@, rep@),
{
    let cs = chars_of(s);
    let n = cs.len();
    let m = pat.len();
    let mut out = String::new();
    let mut start: usize = 0;
    let mut i: usize = 0;
    assert(s@.skip(0) =~= s@);
    assert(out@ + s@.subrange(0, 0) + replaced(s@, pat@, rep@) =~= replaced(s@, pat@, rep@));
    while i < n
        invariant
            n == cs@.len(),
            cs@ == s@,
            m == pat@.len(),
            m > 0,
            start <= i <= n,
            replaced(s@, pat@, rep@) == out@ + s@.subrange(start as int, i as int) + replaced(
                s@.skip(i as int),
                pat@,
                rep@,
            ),
        decreases n - i,
    {
        let ghost rest = s@.skip(i as int);
        if m <= n - i && occurs_at(&cs, pat, i) {
            assert(rest.subrange(0, m as int) =~= s@.subrange(i as int, i + m));
            assert(rest.skip(m as int) =~= s@.skip(i + m));
            let ghost before = out@;
            out.append(s.substring_char(start, i));
            out.append(rep);
            assert(out@ + s@.subrange((i + m) as int, (i + m) as int) =~= before + s@.subrange(
                start as int,
                i as int,
            ) + rep@);
            i = i + m;
            start = i;
        } else {
            if m <= n - i {
                assert(rest.subrange(0, m as int) =~= s@.subrange(i as int, i + m));
                assert(rest.drop_first() =~= s@.skip(i + 1));
            } else {
                assert(s@.skip(i + 1).len() < m);
                assert(rest =~= seq![s@[i as int]] + s@.skip(i + 1));
            }
            assert(s@.subrange(start as int, i + 1) =~= s@.subrange(start as int, i as int).push(
                s@[i as int],
            ));
            i = i + 1;
        }
    }
    let ghost before = out@;
    out.append(s.substring_char(start, n));
    assert(s@.skip(n as int) =~= Seq::<char>::empty());
    assert(before + s@.subrange(start as int, n as int) + Seq::<char>::empty() =~= out@);
    out
}

/// The number that the digit string `d` denotes.
fn parse_index(d: &str) -> (n: usize)
    requires
        1 <= d@.len() <= 2,
        forall|j: int| 0 <= j < d@.len() ==> is_digit(d@[j]),
    ensures
        n == index_value(d@),
{
    let cs = chars_of(d);
    let first = (cs[0] as u32 - '0' as u32) as usize;
    if cs.len() == 1 {
        first
    } else {
        10 * first + (cs[1] as u32 - '0' as u32) as usize
    }
}

/// The line `lin` with each placeholder resolved against the palette `colors`; see
/// `substituted`. An index above `MAX_INDEX` leaves its token as it is.
pub fn substitute_line(lin: &str, colors: &Vec<String>) -> (r: Result<String, TemplateError>)
    ensures
        outcome_matches(r, substituted(lin@, palette_view(colors@))),
{
    let ghost pal = palette_view(colors@);
    let idx = get_color_num(lin);
    let ghost ds = idx@.map_values(|d: String| d@);
    proof {
        lemma_placeholder_shape(lin@);
    }
    let mut cur = String::from_str(lin);
    let mut k: usize = 0;
    assert(ds.skip(0) =~= ds);
    while k < idx.len()
        invariant
            ds == idx@.map_values(|d: String| d@),
            ds == placeholders(lin@),
            pal == palette_view(colors@),
            k <= idx.len(),
            forall|j: int|
                0 <= j < ds.len() ==> {
                    let d = #[trigger] ds[j];
                    &&& 1 <= d.len() <= 2
                    &&& forall|i: int| 0 <= i < d.len() ==> is_digit(d[i])
                },
            apply_placeholders(cur@, ds.skip(k as int), pal) == substituted(lin@, pal),
        decreases idx.len() - k,
    {
        let d = idx[k].as_str();
        assert(d@ == ds[k as int]);
        assert(ds.skip(k as int).drop_first() =~= ds.skip(k + 1));
        let n = parse_index(d);
        if n <= MAX_INDEX {
            if n >= colors.len() {
                return Err(TemplateError::MissingColor { index: n });
            }
            let mut pat: Vec<char> = Vec::new();
            pat.push(MARKER);
            let dc = chars_of(d);
            pat.append(&mut dc.clone());
            assert(pat@ =~= token(d@));
            cur = replace_all(cur.as_str(), &pat, colors[n].as_str());
        }
        k = k + 1;
    }
    assert(ds.skip(k as int) =~= Seq::<Seq<char>>::empty());
    Ok(cur)
}

/// The output document for the template text `template`: every line substituted
/// against `colors` and ended by a newline, the last one included.
pub fn render_template(template: &str, colors: &Vec<String>) -> (r: Result<String, TemplateError>)
    ensures
        outcome_matches(r, rendered(lines(template@), palette_view(colors@))),
{
    let ghost pal = palette_view(colors@);
    let ls = split_lines(template);
    let ghost lv = ls@.map_values(|l: String| l@);
    let mut out = String::new();
    let mut k: usize = 0;
    assert(lv.skip(0) =~= lv);
    assert(prefixed(out@, rendered(lv, pal)) == rendered(lv, pal)) by {
        match rendered(lv, pal) {
            Ok(t) => assert(out@ + t =~= t),
            Err(_) => {},
        }
    }
    while k < ls.len()
        invariant
            lv == ls@.map_values(|l: String| l@),
            lv == lines(template@),
            pal == palette_view(colors@),
            k <= ls.len(),
            rendered(lv, pal) == prefixed(out@, rendered(lv.skip(k as int), pal)),
        decreases ls.len() - k,
    {
        assert(lv.skip(k as int).drop_first() =~= lv.skip(k + 1));
        assert(ls[k as int]@ == lv[k as int]);
        match substitute_line(ls[k].as_str(), colors) {
            Err(e) => {
                return Err(e);
            },
            Ok(line) => {
                let ghost before = out@;
                out.append(line.as_str());
                proof {
                    reveal_strlit("\n");
                }
                out.append("\n");
                assert(out@ =~= before + (line@ + seq!['\n']));
                assert(prefixed(before, prefixed(line@ + seq!['\n'], rendered(lv.skip(k + 1), pal)))
                    == prefixed(out@, rendered(lv.skip(k + 1), pal))) by {
                    match rendered(lv.skip(k + 1), pal) {
                        Ok(t) => assert(before + (line@ + seq!['\n'] + t) =~= out@ + t),
                        Err(_) => {},
                    }
                }
            },
        }
        k = k + 1;
    }
    assert(lv.skip(k as int) =~= Seq::<Seq<char>>::empty());
    assert(out@ + Seq::<char>::empty() =~= out@);
    Ok(out)
}

} // verus!
