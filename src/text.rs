use vstd::prelude::*;

verus! {

/// Unicode `White_Space`: the characters that `char::is_whitespace` accepts.
pub open spec fn is_ws(c: char) -> bool {
    let u = c as u32;
    (9 <= u && u <= 13) || u == 32 || u == 0x85 || u == 0xa0 || u == 0x1680 || (0x2000 <= u && u
        <= 0x200a) || u == 0x2028 || u == 0x2029 || u == 0x202f || u == 0x205f || u == 0x3000
}

/// `s` without its leading white space.
pub open spec fn trim_start(s: Seq<char>) -> Seq<char>
    decreases s.len(),
{
    if s.len() > 0 && is_ws(s[0]) {
        trim_start(s.drop_first())
    } else {
        s
    }
}

/// `s` without its trailing white space.
pub open spec fn trim_end(s: Seq<char>) -> Seq<char>
    decreases s.len(),
{
    if s.len() > 0 && is_ws(s.last()) {
        trim_end(s.drop_last())
    } else {
        s
    }
}

/// `s` without white space at either end.
pub open spec fn trim(s: Seq<char>) -> Seq<char> {
    trim_end(trim_start(s))
}

/// The pieces of `s` between occurrences of `sep`; there is always at least one,
/// and two adjacent separators give an empty piece.
pub open spec fn split_on(s: Seq<char>, sep: char) -> Seq<Seq<char>>
    decreases s.len(),
{
    if s.len() == 0 {
        seq![Seq::<char>::empty()]
    } else {
        let prev = split_on(s.drop_last(), sep);
        if s.last() == sep {
            prev.push(Seq::<char>::empty())
        } else {
            prev.update(prev.len() - 1, prev.last().push(s.last()))
        }
    }
}

/// `pat` stands in `s` from position `i` on.
pub open spec fn occurs_at(s: Seq<char>, pat: Seq<char>, i: int) -> bool {
    0 <= i && i + pat.len() <= s.len() && s.subrange(i, i + pat.len()) == pat
}

/// The first position at or after `i` where `pat` stands in `s`.
pub open spec fn find_from(s: Seq<char>, pat: Seq<char>, i: int) -> Option<int>
    decreases s.len() + 1 - i,
{
    if i < 0 || i + pat.len() > s.len() {
        None
    } else if occurs_at(s, pat, i) {
        Some(i)
    } else {
        find_from(s, pat, i + 1)
    }
}

/// The first position where `pat` stands in `s`.
pub open spec fn find(s: Seq<char>, pat: Seq<char>) -> Option<int> {
    find_from(s, pat, 0)
}

/// The texts that a list of index ranges selects from `c`.
pub open spec fn ranges_view(c: Seq<char>, r: Seq<(usize, usize)>) -> Seq<Seq<char>> {
    r.map_values(|p: (usize, usize)| c.subrange(p.0 as int, p.1 as int))
}

/// What `String`s hold, as character sequences.
pub open spec fn strings_view(v: Seq<String>) -> Seq<Seq<char>> {
    v.map_values(|s: String| s@)
}

/// Whether `c` is white space.
pub fn is_ws_char(c: char) -> (r: bool)
    ensures
        r == is_ws(c),
{
    let u = c as u32;
    (9 <= u && u <= 13) || u == 32 || u == 0x85 || u == 0xa0 || u == 0x1680 || (0x2000 <= u && u
        <= 0x200a) || u == 0x2028 || u == 0x2029 || u == 0x202f || u == 0x205f || u == 0x3000
}

/// The characters of `s`, in order.
pub fn chars_of(s: &str) -> (r: Vec<char>)
    ensures
        r@ == s@,
{
    let mut r: Vec<char> = Vec::new();
    proof {
        broadcast use vstd::string::group_string_axioms;
    }
    for c in it: s.chars()
        invariant
            r@ == it.seq().take(it.index() as int),
            it.seq() == s@,
    {
        r.push(c);
    }
    r
}

/// An owned copy of the characters `lo..hi` of `s`.
pub fn substring(s: &str, lo: usize, hi: usize) -> (r: String)
    requires
        lo <= hi <= s@.len(),
    ensures
        r@ == s@.subrange(lo as int, hi as int),
{
    s.substring_char(lo, hi).to_owned()
}

/// The range `lo..hi` of `c` narrowed to what `trim` keeps of it.
pub fn trim_range(c: &Vec<char>, lo: usize, hi: usize) -> (r: (usize, usize))
    requires
        lo <= hi <= c.len(),
    ensures
        lo <= r.0 <= r.1 <= hi,
        c@.subrange(r.0 as int, r.1 as int) == trim(c@.subrange(lo as int, hi as int)),
{
    let mut a = lo;
    while a < hi && is_ws_char(c[a])
        invariant
            lo <= a <= hi <= c.len(),
            trim_start(c@.subrange(lo as int, hi as int)) == trim_start(
                c@.subrange(a as int, hi as int),
            ),
        decreases hi - a,
    {
        assert(c@.subrange(a as int, hi as int).drop_first() =~= c@.subrange(
            a + 1,
            hi as int,
        ));
        a = a + 1;
    }
    let mut b = hi;
    while b > a && is_ws_char(c[b - 1])
        invariant
            lo <= a <= b <= hi <= c.len(),
            trim_start(c@.subrange(a as int, hi as int)) == c@.subrange(a as int, hi as int),
            trim_end(c@.subrange(a as int, hi as int)) == trim_end(
                c@.subrange(a as int, b as int),
            ),
        decreases b - a,
    {
        assert(c@.subrange(a as int, b as int).drop_last() =~= c@.subrange(
            a as int,
            b - 1,
        ));
        b = b - 1;
    }
    (a, b)
}

/// The ranges of `c` between occurrences of `sep` within `lo..hi`.
pub fn split_ranges(c: &Vec<char>, lo: usize, hi: usize, sep: char) -> (r: Vec<(usize, usize)>)
    requires
        lo <= hi <= c.len(),
    ensures
        ranges_view(c@, r@) == split_on(c@.subrange(lo as int, hi as int), sep),
        forall|k: int| 0 <= k < r.len() ==> lo <= #[trigger] r[k].0 <= r[k].1 <= hi,
{
    let mut r: Vec<(usize, usize)> = Vec::new();
    let mut start = lo;
    let mut i = lo;
    assert(c@.subrange(lo as int, lo as int) =~= Seq::<char>::empty());
    assert(ranges_view(c@, r@).push(c@.subrange(start as int, i as int)) =~= split_on(
        c@.subrange(lo as int, i as int),
        sep,
    ));
    while i < hi
        invariant
            lo <= start <= i <= hi <= c.len(),
            ranges_view(c@, r@).push(c@.subrange(start as int, i as int)) == split_on(
                c@.subrange(lo as int, i as int),
                sep,
            ),
            forall|k: int| 0 <= k < r.len() ==> lo <= #[trigger] r[k].0 <= r[k].1 <= hi,
        decreases hi - i,
    {
        let ghost prev = split_on(c@.subrange(lo as int, i as int), sep);
        assert(c@.subrange(lo as int, i + 1).drop_last() =~= c@.subrange(lo as int, i as int));
        if c[i] == sep {
            r.push((start, i));
            start = i + 1;
            assert(ranges_view(c@, r@) =~= prev);
            assert(c@.subrange(start as int, i + 1) =~= Seq::<char>::empty());
        } else {
            assert(c@.subrange(start as int, i + 1) =~= c@.subrange(start as int, i as int).push(
                c[i as int],
            ));
            assert(ranges_view(c@, r@).push(c@.subrange(start as int, i + 1)) =~= prev.update(
                prev.len() - 1,
                prev.last().push(c[i as int]),
            ));
        }
        i = i + 1;
    }
    r.push((start, hi));
    assert(ranges_view(c@, r@) =~= split_on(c@.subrange(lo as int, hi as int), sep));
    r
}

/// The first position of `pat` in the range `lo..hi` of `c`, counted from `lo`.
pub fn find_in(c: &Vec<char>, lo: usize, hi: usize, pat: &Vec<char>) -> (r: Option<usize>)
    requires
        lo <= hi <= c.len(),
    ensures
        r matches Some(i) ==> find(c@.subrange(lo as int, hi as int), pat@) == Some(i as int),
        r is None ==> find(c@.subrange(lo as int, hi as int), pat@) is None,
{
    let ghost s = c@.subrange(lo as int, hi as int);
    let n = hi - lo;
    if pat.len() > n {
        return None;
    }
    let mut i: usize = 0;
    while i <= n - pat.len()
        invariant
            s == c@.subrange(lo as int, hi as int),
            n == s.len(),
            lo <= hi <= c.len(),
            pat.len() <= n,
            i <= n - pat.len() + 1,
            find_from(s, pat@, 0) == find_from(s, pat@, i as int),
        decreases n - i,
    {
        let mut j: usize = 0;
        let mut same = true;
        while j < pat.len()
            invariant
                j <= pat.len(),
                i + pat.len() <= n,
                n == hi - lo,
                lo <= hi <= c.len(),
                s == c@.subrange(lo as int, hi as int),
                same == (forall|k: int| 0 <= k < j ==> s[i + k] == pat@[k]),
            decreases pat.len() - j,
        {
            if c[lo + i + j] != pat[j] {
                same = false;
            }
            j = j + 1;
        }
        if same {
            assert(s.subrange(i as int, i + pat.len()) =~= pat@);
            return Some(i);
        }
        assert(!occurs_at(s, pat@, i as int)) by {
            if occurs_at(s, pat@, i as int) {
                assert(forall|k: int|
                    0 <= k < pat.len() ==> s[i + k] == #[trigger] s.subrange(
                        i as int,
                        i + pat.len(),
                    )[k]);
            }
        }
        i = i + 1;
    }
    None
}

/// Owned copies of the texts that `spans` select from `s`.
pub fn strings_in(s: &str, c: &Vec<char>, spans: &Vec<(usize, usize)>) -> (r: Vec<String>)
    requires
        c@ == s@,
        forall|k: int| 0 <= k < spans.len() ==> #[trigger] spans[k].0 <= spans[k].1 <= c.len(),
    ensures
        strings_view(r@) == ranges_view(c@, spans@),
{
    let mut r: Vec<String> = Vec::new();
    for k in 0..spans.len()
        invariant
            c@ == s@,
            forall|k: int| 0 <= k < spans.len() ==> #[trigger] spans[k].0 <= spans[k].1 <= c.len(),
            strings_view(r@) == ranges_view(c@, spans@.take(k as int)),
    {
        let (lo, hi) = spans[k];
        let ghost before = r@;
        let piece = substring(s, lo, hi);
        r.push(piece);
        assert(strings_view(r@) =~= strings_view(before).push(piece@));
        assert(ranges_view(c@, spans@.take(k + 1)) =~= ranges_view(c@, spans@.take(k as int)).push(
            c@.subrange(lo as int, hi as int),
        ));
    }
    assert(spans@.take(spans.len() as int) =~= spans@);
    r
}

/// Whether the range `lo..hi` of `c` holds exactly the characters of `w`.
pub fn range_is(c: &Vec<char>, lo: usize, hi: usize, w: &Vec<char>) -> (r: bool)
    requires
        lo <= hi <= c.len(),
    ensures
        r == (c@.subrange(lo as int, hi as int) == w@),
{
    if hi - lo != w.len() {
        return false;
    }
    let mut k: usize = 0;
    while k < w.len()
        invariant
            lo <= hi <= c.len(),
            hi - lo == w.len(),
            k <= w.len(),
            forall|j: int| 0 <= j < k ==> c@[lo + j] == w@[j],
        decreases w.len() - k,
    {
        if c[lo + k] != w[k] {
            assert(c@.subrange(lo as int, hi as int)[k as int] != w@[k as int]);
            return false;
        }
        k = k + 1;
    }
    assert(c@.subrange(lo as int, hi as int) =~= w@);
    true
}

} // verus!
