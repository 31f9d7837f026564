use vstd::prelude::*;
use crate::text::{find, find_from, find_in, occurs_at, trim, trim_range};

verus! {

/// Why a line of a document was rejected.
#[derive(PartialEq, Eq, Structural, Clone, Copy, Debug)]
pub enum LineFault {
    /// The line holds a line break after trimming.
    NotSingleLine,
    /// The line has no assignment separator.
    NoSeparator,
    /// The token left of the separator is not a well-formed dotted path.
    BadToken,
}

/// A trimmed line that yields no entry: blank, a comment (`#`, `;`) or disabled (`-`).
pub open spec fn is_skipped(t: Seq<char>) -> bool {
    t.len() == 0 || t[0] == '#' || t[0] == ';' || t[0] == '-'
}

/// A token that starts or ends with `.`, or holds two `.` in a row.
pub open spec fn is_bad_token(t: Seq<char>) -> bool {
    (t.len() > 0 && (t[0] == '.' || t.last() == '.')) || exists|i: int|
        0 <= i < t.len() - 1 && #[trigger] t[i] == '.' && t[i + 1] == '.'
}

/// A line with a line break in it.
pub open spec fn has_break(t: Seq<char>) -> bool {
    t.contains('\r') || t.contains('\n')
}

/// What one line of a document says: nothing, a trimmed token and a trimmed payload
/// on either side of the first `sep`, or a fault with the text that it names.
pub open spec fn split_line(line: Seq<char>, sep: Seq<char>) -> Result<
    Option<(Seq<char>, Seq<char>)>,
    (LineFault, Seq<char>),
> {
    let t = trim(line);
    if has_break(t) {
        Err((LineFault::NotSingleLine, t))
    } else if is_skipped(t) {
        Ok(None)
    } else {
        match find(t, sep) {
            None => Err((LineFault::NoSeparator, t)),
            Some(i) => {
                let token = trim(t.subrange(0, i));
                let payload = trim(t.subrange(i + sep.len(), t.len() as int));
                if is_bad_token(token) {
                    Err((LineFault::BadToken, token))
                } else {
                    Ok(Some((token, payload)))
                }
            },
        }
    }
}

/// Ranges of a character buffer: `(start, end)`.
pub type Span = (usize, usize);

/// What `split_line_in` hands back: the spans of the token and the payload, or the fault
/// and the span of the text it names.
pub type LineSpans = Result<Option<(Span, Span)>, (LineFault, Span)>;

pub open spec fn span_ok(c: Seq<char>, p: Span) -> bool {
    p.0 <= p.1 <= c.len()
}

pub open spec fn span_text(c: Seq<char>, p: Span) -> Seq<char> {
    c.subrange(p.0 as int, p.1 as int)
}

/// The spans `r` select from `c` what `s` says.
pub open spec fn spans_match(
    c: Seq<char>,
    r: LineSpans,
    s: Result<Option<(Seq<char>, Seq<char>)>, (LineFault, Seq<char>)>,
) -> bool {
    match (r, s) {
        (Ok(None), Ok(None)) => true,
        (Ok(Some((t, p))), Ok(Some((ts, ps)))) => span_ok(c, t) && span_ok(c, p) && span_text(c, t)
            == ts && span_text(c, p) == ps,
        (Err((f, t)), Err((fs, ts))) => f == fs && span_ok(c, t) && span_text(c, t) == ts,
        _ => false,
    }
}

proof fn lemma_find_from_occurs(s: Seq<char>, pat: Seq<char>, i: int, k: int)
    requires
        find_from(s, pat, i) == Some(k),
    ensures
        occurs_at(s, pat, k),
    decreases s.len() + 1 - i,
{
    if !(i < 0 || i + pat.len() > s.len()) && !occurs_at(s, pat, i) {
        lemma_find_from_occurs(s, pat, i + 1, k);
    }
}

/// Whether the range `lo..hi` of `c` holds a line break.
fn holds_break(c: &Vec<char>, lo: usize, hi: usize) -> (r: bool)
    requires
        lo <= hi <= c.len(),
    ensures
        r == has_break(c@.subrange(lo as int, hi as int)),
{
    let ghost t = c@.subrange(lo as int, hi as int);
    let mut k = lo;
    while k < hi
        invariant
            lo <= k <= hi <= c.len(),
            t == c@.subrange(lo as int, hi as int),
            forall|j: int| 0 <= j < k - lo ==> t[j] != '\r' && t[j] != '\n',
        decreases hi - k,
    {
        if c[k] == '\r' || c[k] == '\n' {
            assert(t[k - lo] == c[k as int]);
            return true;
        }
        k = k + 1;
    }
    false
}

/// Whether the range `lo..hi` of `c` is a badly formed dotted token.
fn bad_token_in(c: &Vec<char>, lo: usize, hi: usize) -> (r: bool)
    requires
        lo <= hi <= c.len(),
    ensures
        r == is_bad_token(c@.subrange(lo as int, hi as int)),
{
    let ghost t = c@.subrange(lo as int, hi as int);
    if lo < hi && (c[lo] == '.' || c[hi - 1] == '.') {
        return true;
    }
    let mut k = lo;
    while hi > 0 && k < hi - 1
        invariant
            lo <= k <= hi <= c.len(),
            t == c@.subrange(lo as int, hi as int),
            forall|j: int| 0 <= j < k - lo ==> !(#[trigger] t[j] == '.' && t[j + 1] == '.'),
        decreases hi - k,
    {
        if c[k] == '.' && c[k + 1] == '.' {
            assert(t[k - lo] == '.' && t[k - lo + 1] == '.');
            return true;
        }
        k = k + 1;
    }
    false
}

/// Splits the line `lo..hi` of `c` on the first `sep`, as `split_line` says.
pub fn split_line_in(c: &Vec<char>, lo: usize, hi: usize, sep: &Vec<char>) -> (r: LineSpans)
    requires
        lo <= hi <= c.len(),
    ensures
        spans_match(c@, r, split_line(c@.subrange(lo as int, hi as int), sep@)),
{
    let ghost line = c@.subrange(lo as int, hi as int);
    let (a, b) = trim_range(c, lo, hi);
    let ghost t = c@.subrange(a as int, b as int);
    if holds_break(c, a, b) {
        return Err((LineFault::NotSingleLine, (a, b)));
    }
    if a == b || c[a] == '#' || c[a] == ';' || c[a] == '-' {
        return Ok(None);
    }
    match find_in(c, a, b, sep) {
        None => Err((LineFault::NoSeparator, (a, b))),
        Some(i) => {
            proof {
                lemma_find_from_occurs(t, sep@, 0, i as int);
            }
            let (ta, tb) = trim_range(c, a, a + i);
            let (pa, pb) = trim_range(c, a + i + sep.len(), b);
            assert(t.subrange(0, i as int) =~= c@.subrange(a as int, a + i));
            assert(t.subrange(i + sep.len(), t.len() as int) =~= c@.subrange(
                a + i + sep.len(),
                b as int,
            ));
            if bad_token_in(c, ta, tb) {
                Err((LineFault::BadToken, (ta, tb)))
            } else {
                Ok(Some(((ta, tb), (pa, pb))))
            }
        },
    }
}

} // verus!
