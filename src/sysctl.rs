use vstd::prelude::*;
use crate::hashmap::{tree_insert, ParamView, SysctlParameterHashMap};
use crate::line::{has_break, is_skipped, split_line, split_line_in, LineFault};
use crate::text::{chars_of, ranges_view, split_on, split_ranges, strings_in, substring, trim};

verus! {

/// The separator between token and value in a sysctl document.
pub open spec fn assign_sep() -> Seq<char> {
    seq!['=']
}

/// The map that the lines of a sysctl document build, or the first line fault.
pub open spec fn parse_lines(lines: Seq<Seq<char>>) -> Result<
    Map<Seq<char>, ParamView>,
    (LineFault, Seq<char>),
>
    decreases lines.len(),
{
    if lines.len() == 0 {
        Ok(Map::empty())
    } else {
        match parse_lines(lines.drop_last()) {
            Err(e) => Err(e),
            Ok(m) => match split_line(lines.last(), assign_sep()) {
                Err(e) => Err(e),
                Ok(None) => Ok(m),
                Ok(Some((token, value))) => Ok(tree_insert(m, split_on(token, '.'), value)),
            },
        }
    }
}

/// The map that a sysctl document builds, or the fault of its first bad line.
pub open spec fn parse_doc(text: Seq<char>) -> Result<Map<Seq<char>, ParamView>, (LineFault, Seq<char>)> {
    parse_lines(split_on(text, '\n'))
}

/// `r` is what reading the sysctl document `text` gives.
pub open spec fn parsed(text: Seq<char>, r: Result<SysctlParameterHashMap, String>) -> bool {
    match parse_doc(text) {
        Ok(m) => r matches Ok(x) && x@ == m,
        Err((f, t)) => r matches Err(e) && e@ == sysctl_message(f, t),
    }
}

/// The message for a bad line of a sysctl document.
pub open spec fn sysctl_message(f: LineFault, t: Seq<char>) -> Seq<char> {
    match f {
        LineFault::NotSingleLine => "'"@ + t + "' is not a single line"@,
        LineFault::NoSeparator => "'"@ + t + "' is not in format `token = value`"@,
        LineFault::BadToken => "Token '"@ + t + "' has an invalid hierarchical structure"@,
    }
}

/// `r` is what `parse_doc` gives, with the fault kept as it is.
pub open spec fn load_result(
    r: Result<SysctlParameterHashMap, (LineFault, String)>,
    s: Result<Map<Seq<char>, ParamView>, (LineFault, Seq<char>)>,
) -> bool {
    match (r, s) {
        (Ok(m), Ok(ms)) => m@ == ms,
        (Err((f, t)), Err((fs, ts))) => f == fs && t@ == ts,
        _ => false,
    }
}

proof fn lemma_fault_sticks(lines: Seq<Seq<char>>, k: int)
    requires
        0 <= k <= lines.len(),
        parse_lines(lines.take(k)) is Err,
    ensures
        parse_lines(lines) == parse_lines(lines.take(k)),
    decreases lines.len() - k,
{
    if k < lines.len() {
        assert(lines.take(k + 1).drop_last() =~= lines.take(k));
        lemma_fault_sticks(lines, k + 1);
    } else {
        assert(lines.take(k) =~= lines);
    }
}

/// Reads a sysctl document line by line into a map; the first bad line ends the reading
/// with its fault and the text it names.
pub fn load(text: &str) -> (r: Result<SysctlParameterHashMap, (LineFault, String)>)
    ensures
        load_result(r, parse_doc(text@)),
{
    let c = chars_of(text);
    let lines = split_ranges(&c, 0, c.len(), '\n');
    let ghost all = ranges_view(c@, lines@);
    assert(c@.subrange(0, c.len() as int) =~= c@);
    let sep = vec!['='];
    assert(sep@ =~= assign_sep());
    let mut m = SysctlParameterHashMap::new();
    assert(all.take(0) =~= Seq::<Seq<char>>::empty());
    for k in 0..lines.len()
        invariant
            c@ == text@,
            sep@ == assign_sep(),
            all == ranges_view(c@, lines@),
            all == split_on(text@, '\n'),
            forall|j: int| 0 <= j < lines.len() ==> #[trigger] lines[j].0 <= lines[j].1 <= c.len(),
            parse_lines(all.take(k as int)) == Ok::<Map<Seq<char>, ParamView>, (LineFault, Seq<char>)>(m@),
    {
        let (lo, hi) = lines[k];
        let ghost line = c@.subrange(lo as int, hi as int);
        assert(all[k as int] == line);
        assert(all.take(k + 1).drop_last() =~= all.take(k as int));
        assert(all.take(k + 1).last() == line);
        match split_line_in(&c, lo, hi, &sep) {
            Err((f, span)) => {
                let t = substring(text, span.0, span.1);
                proof {
                    lemma_fault_sticks(all, k + 1);
                }
                return Err((f, t));
            },
            Ok(None) => {},
            Ok(Some((tok, val))) => {
                let segs = split_ranges(&c, tok.0, tok.1, '.');
                let path = strings_in(text, &c, &segs);
                let value = substring(text, val.0, val.1);
                m.insert(&path, value.as_str());
            },
        }
    }
    assert(all.take(lines.len() as int) =~= all);
    Ok(m)
}

/// Reads a sysctl document (`token.path = value` per line) into a hierarchical map.
/// Blank lines and lines starting with `#`, `;` or `-` are skipped; a later line wins at
/// the path it names. The first bad line fails the whole document with its message.
pub fn parse_str(sysctl_conf: &str) -> (r: Result<SysctlParameterHashMap, String>)
    ensures
        parsed(sysctl_conf@, r),
{
    match load(sysctl_conf) {
        Ok(m) => Ok(m),
        Err((f, t)) => Err(sysctl_error(f, t)),
    }
}

/// The message for a bad line of a sysctl document.
fn sysctl_error(f: LineFault, t: String) -> (r: String)
    ensures
        r@ == sysctl_message(f, t@),
{
    match f {
        LineFault::NotSingleLine => String::from_str("'").concat(t.as_str()).concat(
            "' is not a single line",
        ),
        LineFault::NoSeparator => String::from_str("'").concat(t.as_str()).concat(
            "' is not in format `token = value`",
        ),
        LineFault::BadToken => String::from_str("Token '").concat(t.as_str()).concat(
            "' has an invalid hierarchical structure",
        ),
    }
}

/// A line that yields no entry and no error: blank, a comment or disabled, with no line
/// break left in it.
pub open spec fn is_quiet_line(l: Seq<char>) -> bool {
    is_skipped(trim(l)) && !has_break(trim(l))
}

/// Reading a document twice gives equal results: maps with the same entries, or the
/// same message.
pub proof fn parse_is_deterministic(
    text: Seq<char>,
    r1: Result<SysctlParameterHashMap, String>,
    r2: Result<SysctlParameterHashMap, String>,
)
    requires
        parsed(text, r1),
        parsed(text, r2),
    ensures
        match (r1, r2) {
            (Ok(a), Ok(b)) => a@ == b@,
            (Err(a), Err(b)) => a@ == b@,
            _ => false,
        },
{
}

proof fn lemma_quiet_lines(lines: Seq<Seq<char>>)
    requires
        forall|i: int| 0 <= i < lines.len() ==> is_quiet_line(#[trigger] lines[i]),
    ensures
        parse_lines(lines) == Ok::<Map<Seq<char>, ParamView>, (LineFault, Seq<char>)>(
            Map::empty(),
        ),
    decreases lines.len(),
{
    if lines.len() > 0 {
        assert forall|i: int| 0 <= i < lines.drop_last().len() implies is_quiet_line(
            #[trigger] lines.drop_last()[i],
        ) by {
            assert(lines.drop_last()[i] == lines[i]);
        }
        lemma_quiet_lines(lines.drop_last());
        assert(is_quiet_line(lines[lines.len() - 1]));
    }
}

/// A document made only of blank, comment and disabled lines reads as an empty map.
pub proof fn quiet_document_is_empty(text: Seq<char>)
    requires
        forall|i: int|
            0 <= i < split_on(text, '\n').len() ==> is_quiet_line(#[trigger] split_on(text, '\n')[i]),
    ensures
        parse_doc(text) == Ok::<Map<Seq<char>, ParamView>, (LineFault, Seq<char>)>(Map::empty()),
{
    lemma_quiet_lines(split_on(text, '\n'));
}

} // verus!
