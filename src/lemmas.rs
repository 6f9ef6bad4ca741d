//! Facts about placeholder substitution that relate its parts.
use vstd::prelude::*;
use crate::template::{
    apply_placeholders, index_value, is_digit, placeholder_at_front, placeholders, replaced,
    substituted, token, MARKER, MAX_INDEX,
};

verus! {

/// A prefix without a marker holds no placeholder and adds none.
proof fn lemma_placeholders_skip_unmarked(a: Seq<char>, b: Seq<char>)
    requires
        !a.contains(MARKER),
    ensures
        placeholders(a + b) == placeholders(b),
    decreases a.len(),
{
    if a.len() > 0 {
        assert((a + b)[0] == a[0]);
        assert((a + b).drop_first() =~= a.drop_first() + b);
        assert(!a.drop_first().contains(MARKER)) by {
            if a.drop_first().contains(MARKER) {
                let i = choose|i: int| 0 <= i < a.drop_first().len() && a.drop_first()[i] == MARKER;
                assert(a[i + 1] == MARKER);
            }
        }
        lemma_placeholders_skip_unmarked(a.drop_first(), b);
    } else {
        assert(a + b =~= b);
    }
}

/// Replacing a token whose first character a prefix lacks leaves that prefix alone.
proof fn lemma_replaced_skip(a: Seq<char>, b: Seq<char>, pat: Seq<char>, rep: Seq<char>)
    requires
        pat.len() > 0,
        !a.contains(pat[0]),
    ensures
        replaced(a + b, pat, rep) == a + replaced(b, pat, rep),
    decreases a.len(),
{
    if a.len() == 0 {
        assert(a + b =~= b);
        assert(a + replaced(b, pat, rep) =~= replaced(b, pat, rep));
    } else {
        let s = a + b;
        assert(s[0] == a[0]);
        assert(s.drop_first() =~= a.drop_first() + b);
        assert(!a.drop_first().contains(pat[0])) by {
            if a.drop_first().contains(pat[0]) {
                let i = choose|i: int| 0 <= i < a.drop_first().len() && a.drop_first()[i] == pat[0];
                assert(a[i + 1] == pat[0]);
            }
        }
        lemma_replaced_skip(a.drop_first(), b, pat, rep);
        if s.len() < pat.len() {
            assert(b.len() < pat.len());
        } else {
            assert(s.subrange(0, pat.len() as int)[0] != pat[0]);
            assert(seq![a[0]] + (a.drop_first() + replaced(b, pat, rep)) =~= a + replaced(b, pat, rep));
        }
    }
}

/// Resolving placeholders that all lie above `MAX_INDEX` changes nothing.
proof fn lemma_apply_above_bound(line: Seq<char>, ds: Seq<Seq<char>>, palette: Seq<Seq<char>>)
    requires
        forall|k: int| 0 <= k < ds.len() ==> index_value(#[trigger] ds[k]) > MAX_INDEX,
    ensures
        apply_placeholders(line, ds, palette) == Ok::<Seq<char>, nat>(line),
    decreases ds.len(),
{
    if ds.len() > 0 {
        assert(index_value(ds[0]) > MAX_INDEX);
        lemma_apply_above_bound(line, ds.drop_first(), palette);
    }
}

/// A line without placeholders comes out of substitution as it went in.
pub proof fn lemma_no_placeholder_unchanged(line: Seq<char>, palette: Seq<Seq<char>>)
    requires
        placeholders(line).len() == 0,
    ensures
        substituted(line, palette) == Ok::<Seq<char>, nat>(line),
{
}

/// A line with no marker character comes out of substitution unchanged.
pub proof fn lemma_unmarked_line_unchanged(line: Seq<char>, palette: Seq<Seq<char>>)
    requires
        !line.contains(MARKER),
    ensures
        substituted(line, palette) == Ok::<Seq<char>, nat>(line),
{
    lemma_placeholders_skip_unmarked(line, Seq::empty());
    assert(line + Seq::<char>::empty() =~= line);
}

/// Where every placeholder of a line has an index above `MAX_INDEX`, each of their
/// tokens stays in the output verbatim: the line comes out unchanged.
pub proof fn lemma_out_of_bound_tokens_kept(line: Seq<char>, palette: Seq<Seq<char>>)
    requires
        forall|k: int|
            0 <= k < placeholders(line).len() ==> index_value(#[trigger] placeholders(line)[k])
                > MAX_INDEX,
    ensures
        substituted(line, palette) == Ok::<Seq<char>, nat>(line),
{
    lemma_apply_above_bound(line, placeholders(line), palette);
}

/// Substituting a line a second time, once the first result holds no placeholder,
/// changes nothing.
pub proof fn lemma_substitution_idempotent(line: Seq<char>, palette: Seq<Seq<char>>)
    requires
        substituted(line, palette) is Ok,
        placeholders(substituted(line, palette)->Ok_0).len() == 0,
    ensures
        substituted(substituted(line, palette)->Ok_0, palette) == substituted(line, palette),
{
    lemma_no_placeholder_unchanged(substituted(line, palette)->Ok_0, palette);
}

/// A placeholder with an index within `MAX_INDEX` that the palette holds is replaced by
/// exactly that palette entry, and no marker of its token is left: for a line made of
/// text without markers around one token, the token's digits being all the digits that
/// follow the marker, or the first two of them.
pub proof fn lemma_placeholder_resolved(
    pre: Seq<char>,
    d: Seq<char>,
    post: Seq<char>,
    palette: Seq<Seq<char>>,
)
    requires
        !pre.contains(MARKER),
        !post.contains(MARKER),
        1 <= d.len() <= 2,
        forall|j: int| 0 <= j < d.len() ==> is_digit(d[j]),
        d.len() == 1 && post.len() > 0 ==> !is_digit(post[0]),
        index_value(d) <= MAX_INDEX,
        index_value(d) < palette.len(),
    ensures
        substituted(pre + token(d) + post, palette) == Ok::<Seq<char>, nat>(
            pre + palette[index_value(d) as int] + post,
        ),
{
    let t = token(d);
    let line = pre + t + post;
    let color = palette[index_value(d) as int];
    // the placeholders: `d` alone
    assert(line =~= pre + (t + post));
    lemma_placeholders_skip_unmarked(pre, t + post);
    let tp = t + post;
    if d.len() == 2 {
        assert(tp.subrange(1, 3) =~= d);
    } else {
        assert(tp.subrange(1, 2) =~= d);
    }
    assert(placeholder_at_front(tp) == Some(d));
    assert(tp.drop_first() =~= d + post);
    assert(!d.contains(MARKER)) by {
        if d.contains(MARKER) {
            let i = choose|i: int| 0 <= i < d.len() && d[i] == MARKER;
            assert(is_digit(d[i]));
        }
    }
    lemma_placeholders_skip_unmarked(d, post);
    lemma_placeholders_skip_unmarked(post, Seq::empty());
    assert(post + Seq::<char>::empty() =~= post);
    assert(placeholders(line) =~= seq![d]);
    // the replacement
    assert(t[0] == MARKER);
    lemma_replaced_skip(pre, tp, t, color);
    assert(tp.subrange(0, t.len() as int) =~= t);
    assert(tp.skip(t.len() as int) =~= post);
    lemma_replaced_skip(post, Seq::empty(), t, color);
    assert(replaced(post, t, color) == post);
    assert(replaced(line, t, color) =~= pre + color + post);
    assert(seq![d].drop_first() =~= Seq::<Seq<char>>::empty());
    assert(apply_placeholders(pre + color + post, Seq::empty(), palette) == Ok::<Seq<char>, nat>(
        pre + color + post,
    ));
    assert(seq![d][0] == d);
    assert(apply_placeholders(line, seq![d], palette) == apply_placeholders(
        replaced(line, t, color),
        seq![d].drop_first(),
        palette,
    ));
}

/// Resolution fails exactly where some placeholder's index is within `MAX_INDEX` but
/// beyond the palette.
proof fn lemma_apply_fails_iff(line: Seq<char>, ds: Seq<Seq<char>>, palette: Seq<Seq<char>>)
    ensures
        apply_placeholders(line, ds, palette) is Err <==> exists|k: int|
            0 <= k < ds.len() && index_value(#[trigger] ds[k]) <= MAX_INDEX && index_value(ds[k])
                >= palette.len(),
    decreases ds.len(),
{
    if ds.len() > 0 {
        let n = index_value(ds[0]);
        let next = if n > MAX_INDEX || n >= palette.len() {
            line
        } else {
            replaced(line, token(ds[0]), palette[n as int])
        };
        lemma_apply_fails_iff(next, ds.drop_first(), palette);
        if exists|k: int|
            0 <= k < ds.len() && index_value(#[trigger] ds[k]) <= MAX_INDEX && index_value(ds[k])
                >= palette.len() {
            let k = choose|k: int|
                0 <= k < ds.len() && index_value(#[trigger] ds[k]) <= MAX_INDEX && index_value(
                    ds[k],
                ) >= palette.len();
            if k > 0 {
                assert(ds.drop_first()[k - 1] == ds[k]);
            }
        }
        if exists|k: int|
            0 <= k < ds.drop_first().len() && index_value(#[trigger] ds.drop_first()[k])
                <= MAX_INDEX && index_value(ds.drop_first()[k]) >= palette.len() {
            let k = choose|k: int|
                0 <= k < ds.drop_first().len() && index_value(#[trigger] ds.drop_first()[k])
                    <= MAX_INDEX && index_value(ds.drop_first()[k]) >= palette.len();
            assert(ds[k + 1] == ds.drop_first()[k]);
        }
    }
}

/// Substitution of a line fails exactly where one of its placeholders has an index
/// within `MAX_INDEX` that the palette has no entry for; so with at least `MAX_INDEX + 1`
/// colors it always succeeds.
pub proof fn lemma_substitution_fails_iff(line: Seq<char>, palette: Seq<Seq<char>>)
    ensures
        substituted(line, palette) is Err <==> exists|k: int|
            0 <= k < placeholders(line).len() && index_value(#[trigger] placeholders(line)[k])
                <= MAX_INDEX && index_value(placeholders(line)[k]) >= palette.len(),
        palette.len() > MAX_INDEX ==> substituted(line, palette) is Ok,
{
    lemma_apply_fails_iff(line, placeholders(line), palette);
}

} // verus!
