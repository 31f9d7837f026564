use vstd::prelude::*;
use crate::line::{has_break, is_skipped, split_line, split_line_in, LineFault};
use crate::text::{chars_of, range_is, ranges_view, split_on, split_ranges, substring, trim};

verus! {

/// The kinds of value that a schema can ask for.
#[derive(PartialEq, Eq, Structural, Clone, Copy, Debug)]
pub enum SchemaType {
    String(),
    Bool(),
    Integer(),
}

/// A schema: full dotted paths, each with the kind of value it asks for, in the order in
/// which they were first written.
#[derive(Debug)]
pub struct SchemaHashMap {
    entries: Vec<(String, SchemaType)>,
}

/// What the entries of a schema stand for, in order.
pub open spec fn entries_view(e: Seq<(String, SchemaType)>) -> Seq<(Seq<char>, SchemaType)> {
    e.map_values(|p: (String, SchemaType)| (p.0@, p.1))
}

/// The position of the last entry of `s` under `key`.
pub open spec fn last_index(s: Seq<(Seq<char>, SchemaType)>, key: Seq<char>) -> Option<int>
    decreases s.len(),
{
    if s.len() == 0 {
        None
    } else if s.last().0 == key {
        Some(s.len() - 1)
    } else {
        last_index(s.drop_last(), key)
    }
}

/// `s` with `t` under `key`: the last entry under `key` takes `t`, or a new entry is added
/// at the end.
pub open spec fn assoc_put(s: Seq<(Seq<char>, SchemaType)>, key: Seq<char>, t: SchemaType) -> Seq<
    (Seq<char>, SchemaType),
> {
    match last_index(s, key) {
        Some(j) => s.update(j, (key, t)),
        None => s.push((key, t)),
    }
}

/// No two entries name the same path.
pub open spec fn keys_unique(s: Seq<(Seq<char>, SchemaType)>) -> bool {
    forall|i: int, j: int| 0 <= i < j < s.len() ==> #[trigger] s[i].0 != #[trigger] s[j].0
}

/// The mapping that entries stand for; a later entry for a path wins.
pub open spec fn assoc_map(s: Seq<(Seq<char>, SchemaType)>) -> Map<Seq<char>, SchemaType>
    decreases s.len(),
{
    if s.len() == 0 {
        Map::empty()
    } else {
        assoc_map(s.drop_last()).insert(s.last().0, s.last().1)
    }
}

impl View for SchemaHashMap {
    type V = Seq<(Seq<char>, SchemaType)>;

    closed spec fn view(&self) -> Seq<(Seq<char>, SchemaType)> {
        entries_view(self.entries@)
    }
}

proof fn lemma_last_index_some(s: Seq<(Seq<char>, SchemaType)>, j: int, key: Seq<char>)
    requires
        0 <= j < s.len(),
        s[j].0 == key,
        forall|k: int| j < k < s.len() ==> #[trigger] s[k].0 != key,
    ensures
        last_index(s, key) == Some(j),
    decreases s.len(),
{
    if j < s.len() - 1 {
        assert(s.drop_last()[j].0 == key);
        assert forall|k: int| j < k < s.drop_last().len() implies #[trigger] s.drop_last()[k].0
            != key by {
            assert(s.drop_last()[k] == s[k]);
        }
        lemma_last_index_some(s.drop_last(), j, key);
        assert(s[s.len() - 1].0 != key);
    }
}

proof fn lemma_last_index_none(s: Seq<(Seq<char>, SchemaType)>, key: Seq<char>)
    requires
        forall|k: int| 0 <= k < s.len() ==> #[trigger] s[k].0 != key,
    ensures
        last_index(s, key) is None,
    decreases s.len(),
{
    if s.len() > 0 {
        assert(s[s.len() - 1].0 != key);
        assert forall|k: int| 0 <= k < s.drop_last().len() implies #[trigger] s.drop_last()[k].0
            != key by {
            assert(s.drop_last()[k] == s[k]);
        }
        lemma_last_index_none(s.drop_last(), key);
    }
}

proof fn lemma_assoc_map_contains(s: Seq<(Seq<char>, SchemaType)>, key: Seq<char>)
    ensures
        assoc_map(s).contains_key(key) <==> exists|i: int| 0 <= i < s.len() && #[trigger] s[i].0 == key,
    decreases s.len(),
{
    if s.len() > 0 {
        lemma_assoc_map_contains(s.drop_last(), key);
        if assoc_map(s).contains_key(key) && s[s.len() - 1].0 != key {
            let i = choose|i: int| 0 <= i < s.len() - 1 && #[trigger] s.drop_last()[i].0 == key;
            assert(s[i].0 == key);
        }
        if exists|i: int| 0 <= i < s.len() && #[trigger] s[i].0 == key {
            let i = choose|i: int| 0 <= i < s.len() && #[trigger] s[i].0 == key;
            if i < s.len() - 1 {
                assert(s.drop_last()[i].0 == key);
            }
        }
    }
}

proof fn lemma_assoc_map_last(s: Seq<(Seq<char>, SchemaType)>, j: int, key: Seq<char>)
    requires
        0 <= j < s.len(),
        s[j].0 == key,
        forall|k: int| j < k < s.len() ==> #[trigger] s[k].0 != key,
    ensures
        assoc_map(s).contains_key(key),
        assoc_map(s)[key] == s[j].1,
    decreases s.len(),
{
    if j < s.len() - 1 {
        assert(s.drop_last()[j].0 == key);
        assert forall|k: int| j < k < s.drop_last().len() implies #[trigger] s.drop_last()[k].0
            != key by {
            assert(s.drop_last()[k] == s[k]);
        }
        lemma_assoc_map_last(s.drop_last(), j, key);
        assert(s[s.len() - 1].0 != key);
    }
}

impl SchemaHashMap {
    /// An empty schema.
    pub fn new() -> (r: Self)
        ensures
            r@ == Seq::<(Seq<char>, SchemaType)>::empty(),
    {
        let r = SchemaHashMap { entries: Vec::new() };
        assert(r@ =~= Seq::<(Seq<char>, SchemaType)>::empty());
        r
    }

    /// The position of the last entry for `path`.
    fn position(&self, path: &String) -> (r: Option<usize>)
        ensures
            r is None ==> forall|k: int| 0 <= k < self@.len() ==> #[trigger] self@[k].0 != path@,
            r matches Some(j) ==> j < self@.len() && self@[j as int].0 == path@ && forall|k: int|
                j < k < self@.len() ==> #[trigger] self@[k].0 != path@,
    {
        let mut j = self.entries.len();
        while j > 0
            invariant
                j <= self.entries.len(),
                self@.len() == self.entries.len(),
                forall|k: int| j <= k < self@.len() ==> #[trigger] self@[k].0 != path@,
            decreases j,
        {
            j = j - 1;
            assert(self@[j as int].0 == self.entries@[j as int].0@);
            if self.entries[j].0 == *path {
                return Some(j);
            }
        }
        None
    }

    /// The kind of value asked for at `path`.
    pub fn get(&self, path: &String) -> (r: Option<SchemaType>)
        ensures
            r == (if assoc_map(self@).contains_key(path@) {
                Some(assoc_map(self@)[path@])
            } else {
                None
            }),
    {
        proof {
            lemma_assoc_map_contains(self@, path@);
        }
        match self.position(path) {
            Some(j) => {
                proof {
                    lemma_assoc_map_last(self@, j as int, path@);
                }
                Some(self.entries[j].1)
            },
            None => None,
        }
    }

    /// Sets the kind of value asked for at `path`, in place where the path is already there.
    pub fn insert(&mut self, path: String, t: SchemaType)
        ensures
            final(self)@ == assoc_put(old(self)@, path@, t),
            keys_unique(old(self)@) ==> keys_unique(final(self)@),
    {
        match self.position(&path) {
            Some(j) => {
                proof {
                    lemma_last_index_some(self@, j as int, path@);
                }
                let ghost before = self.entries@;
                self.entries.remove(j);
                self.entries.insert(j, (path, t));
                assert(self@ =~= entries_view(before).update(j as int, (path@, t)));
                assert(forall|k: int| 0 <= k < self@.len() ==> #[trigger] self@[k].0 == entries_view(before)[k].0);
            },
            None => {
                proof {
                    lemma_last_index_none(self@, path@);
                }
                let ghost before = self.entries@;
                self.entries.push((path, t));
                assert(self@ =~= entries_view(before).push((path@, t)));
            },
        }
    }

    /// The number of entries.
    pub fn len(&self) -> (r: usize)
        ensures
            r == self@.len(),
    {
        self.entries.len()
    }

    /// The entry at position `i`.
    pub fn entry(&self, i: usize) -> (r: (&String, SchemaType))
        requires
            i < self@.len(),
        ensures
            r.0@ == self@[i as int].0,
            r.1 == self@[i as int].1,
    {
        (&self.entries[i].0, self.entries[i].1)
    }
}

/// Two schemas are equal when they ask the same of the same paths, whatever the order.
impl PartialEq for SchemaHashMap {
    fn eq(&self, other: &SchemaHashMap) -> (r: bool) {
        self.same(other)
    }
}

impl vstd::std_specs::cmp::PartialEqSpecImpl for SchemaHashMap {
    open spec fn obeys_eq_spec() -> bool {
        true
    }

    open spec fn eq_spec(&self, other: &SchemaHashMap) -> bool {
        assoc_map(self@) == assoc_map(other@)
    }
}

impl SchemaHashMap {
    /// Whether two schemas ask the same of the same paths, in whatever order.
    fn same(&self, o: &SchemaHashMap) -> (r: bool)
        ensures
            r == (assoc_map(self@) == assoc_map(o@)),
    {
        let n = self.len();
        for i in 0..n
            invariant
                n == self@.len(),
                forall|i2: int|
                    0 <= i2 < i ==> assoc_map(self@).contains_key(#[trigger] self@[i2].0)
                        && assoc_map(o@).contains_key(self@[i2].0) && assoc_map(o@)[self@[i2].0]
                        == assoc_map(self@)[self@[i2].0],
        {
            let (key, _) = self.entry(i);
            proof {
                lemma_assoc_map_contains(self@, key@);
            }
            if self.get(key) != o.get(key) {
                return false;
            }
        }
        let m = o.len();
        for i in 0..m
            invariant
                m == o@.len(),
                n == self@.len(),
                forall|i2: int|
                    0 <= i2 < n ==> assoc_map(self@).contains_key(#[trigger] self@[i2].0)
                        && assoc_map(o@).contains_key(self@[i2].0) && assoc_map(o@)[self@[i2].0]
                        == assoc_map(self@)[self@[i2].0],
                forall|i2: int| 0 <= i2 < i ==> assoc_map(self@).contains_key(#[trigger] o@[i2].0),
        {
            let (key, _) = o.entry(i);
            proof {
                lemma_assoc_map_contains(o@, key@);
            }
            if self.get(key).is_none() {
                return false;
            }
        }
        assert forall|k: Seq<char>| #[trigger] assoc_map(self@).contains_key(k) == assoc_map(
            o@,
        ).contains_key(k) && (assoc_map(self@).contains_key(k) ==> assoc_map(o@)[k] == assoc_map(
            self@,
        )[k]) by {
            lemma_assoc_map_contains(self@, k);
            lemma_assoc_map_contains(o@, k);
            if assoc_map(self@).contains_key(k) {
                let i = choose|i: int| 0 <= i < self@.len() && #[trigger] self@[i].0 == k;
                assert(assoc_map(o@).contains_key(self@[i].0));
            }
            if assoc_map(o@).contains_key(k) {
                let i = choose|i: int| 0 <= i < o@.len() && #[trigger] o@[i].0 == k;
                assert(assoc_map(self@).contains_key(o@[i].0));
            }
        }
        assert(assoc_map(self@) =~= assoc_map(o@));
        true
    }
}

/// The separator between path and type in a schema document.
pub open spec fn schema_sep() -> Seq<char> {
    seq!['=', '>']
}

/// The kind of value that a keyword names.
pub open spec fn type_named(p: Seq<char>) -> Option<SchemaType> {
    if p == seq!['s', 't', 'r', 'i', 'n', 'g'] {
        Some(SchemaType::String())
    } else if p == seq!['b', 'o', 'o', 'l'] {
        Some(SchemaType::Bool())
    } else if p == seq!['i', 'n', 't', 'e', 'g', 'e', 'r'] {
        Some(SchemaType::Integer())
    } else {
        None
    }
}

/// The message for a line of a schema document that the tokenizer rejects.
pub open spec fn schema_line_message(f: LineFault, t: Seq<char>) -> Seq<char> {
    match f {
        LineFault::NotSingleLine => "'"@ + t + "' is not a single line"@,
        LineFault::NoSeparator => "'"@ + t + "' is not in format `token => schema_type`"@,
        LineFault::BadToken => "Token '"@ + t + "' has an invalid hierarchical structure"@,
    }
}

/// The message for a type keyword that names no kind.
pub open spec fn type_message(path: Seq<char>, p: Seq<char>) -> Seq<char> {
    "'"@ + path + "' has an invalid schema type '"@ + p + "' (must be string, bool or integer)"@
}

/// The entries that the lines of a schema document build, or the first line's error.
pub open spec fn schema_lines(lines: Seq<Seq<char>>) -> Result<Seq<(Seq<char>, SchemaType)>, Seq<char>>
    decreases lines.len(),
{
    if lines.len() == 0 {
        Ok(Seq::empty())
    } else {
        match schema_lines(lines.drop_last()) {
            Err(e) => Err(e),
            Ok(s) => match split_line(lines.last(), schema_sep()) {
                Err((f, t)) => Err(schema_line_message(f, t)),
                Ok(None) => Ok(s),
                Ok(Some((path, p))) => match type_named(p) {
                    None => Err(type_message(path, p)),
                    Some(t) => Ok(assoc_put(s, path, t)),
                },
            },
        }
    }
}

/// The entries that a schema document builds, or the error of its first bad line.
pub open spec fn parse_doc(text: Seq<char>) -> Result<Seq<(Seq<char>, SchemaType)>, Seq<char>> {
    schema_lines(split_on(text, '\n'))
}

/// `r` is what reading the schema document `text` gives.
pub open spec fn parsed(text: Seq<char>, r: Result<SchemaHashMap, String>) -> bool {
    match parse_doc(text) {
        Ok(s) => r matches Ok(x) && x@ == s,
        Err(e) => r matches Err(x) && x@ == e,
    }
}

proof fn lemma_error_sticks(lines: Seq<Seq<char>>, k: int)
    requires
        0 <= k <= lines.len(),
        schema_lines(lines.take(k)) is Err,
    ensures
        schema_lines(lines) == schema_lines(lines.take(k)),
    decreases lines.len() - k,
{
    if k < lines.len() {
        assert(lines.take(k + 1).drop_last() =~= lines.take(k));
        lemma_error_sticks(lines, k + 1);
    } else {
        assert(lines.take(k) =~= lines);
    }
}

/// The kind that the range `lo..hi` of `c` names.
fn type_in(c: &Vec<char>, lo: usize, hi: usize) -> (r: Option<SchemaType>)
    requires
        lo <= hi <= c.len(),
    ensures
        r == type_named(c@.subrange(lo as int, hi as int)),
{
    let w = vec!['s', 't', 'r', 'i', 'n', 'g'];
    assert(w@ =~= seq!['s', 't', 'r', 'i', 'n', 'g']);
    if range_is(c, lo, hi, &w) {
        return Some(SchemaType::String());
    }
    let w = vec!['b', 'o', 'o', 'l'];
    assert(w@ =~= seq!['b', 'o', 'o', 'l']);
    if range_is(c, lo, hi, &w) {
        return Some(SchemaType::Bool());
    }
    let w = vec!['i', 'n', 't', 'e', 'g', 'e', 'r'];
    assert(w@ =~= seq!['i', 'n', 't', 'e', 'g', 'e', 'r']);
    if range_is(c, lo, hi, &w) {
        return Some(SchemaType::Integer());
    }
    None
}

/// The message for a line that the tokenizer rejects.
fn line_error(f: LineFault, t: String) -> (r: String)
    ensures
        r@ == schema_line_message(f, t@),
{
    match f {
        LineFault::NotSingleLine => String::from_str("'").concat(t.as_str()).concat(
            "' is not a single line",
        ),
        LineFault::NoSeparator => String::from_str("'").concat(t.as_str()).concat(
            "' is not in format `token => schema_type`",
        ),
        LineFault::BadToken => String::from_str("Token '").concat(t.as_str()).concat(
            "' has an invalid hierarchical structure",
        ),
    }
}

/// Reads a schema document (`token.path => type` per line, the type one of `string`,
/// `bool` and `integer`). Blank lines and lines starting with `#`, `;` or `-` are skipped;
/// a later line for a path replaces the type of an earlier one. The first bad line fails
/// the whole document with its message.
pub fn parse_str(schema_conf: &str) -> (r: Result<SchemaHashMap, String>)
    ensures
        parsed(schema_conf@, r),
        r matches Ok(x) ==> keys_unique(x@),
{
    let c = chars_of(schema_conf);
    let lines = split_ranges(&c, 0, c.len(), '\n');
    let ghost all = ranges_view(c@, lines@);
    assert(c@.subrange(0, c.len() as int) =~= c@);
    let sep = vec!['=', '>'];
    assert(sep@ =~= schema_sep());
    let mut m = SchemaHashMap::new();
    assert(all.take(0) =~= Seq::<Seq<char>>::empty());
    for k in 0..lines.len()
        invariant
            c@ == schema_conf@,
            sep@ == schema_sep(),
            all == ranges_view(c@, lines@),
            all == split_on(schema_conf@, '\n'),
            forall|j: int| 0 <= j < lines.len() ==> #[trigger] lines[j].0 <= lines[j].1 <= c.len(),
            schema_lines(all.take(k as int)) == Ok::<Seq<(Seq<char>, SchemaType)>, Seq<char>>(m@),
            keys_unique(m@),
    {
        let (lo, hi) = lines[k];
        let ghost line = c@.subrange(lo as int, hi as int);
        assert(all[k as int] == line);
        assert(all.take(k + 1).drop_last() =~= all.take(k as int));
        assert(all.take(k + 1).last() == line);
        match split_line_in(&c, lo, hi, &sep) {
            Err((f, span)) => {
                let t = substring(schema_conf, span.0, span.1);
                proof {
                    lemma_error_sticks(all, k + 1);
                }
                return Err(line_error(f, t));
            },
            Ok(None) => {},
            Ok(Some((tok, val))) => {
                let path = substring(schema_conf, tok.0, tok.1);
                match type_in(&c, val.0, val.1) {
                    Some(t) => {
                        m.insert(path, t);
                    },
                    None => {
                        let p = substring(schema_conf, val.0, val.1);
                        proof {
                            lemma_error_sticks(all, k + 1);
                        }
                        return Err(
                            String::from_str("'").concat(path.as_str()).concat(
                                "' has an invalid schema type '",
                            ).concat(p.as_str()).concat("' (must be string, bool or integer)"),
                        );
                    },
                }
            },
        }
    }
    assert(all.take(lines.len() as int) =~= all);
    Ok(m)
}

/// Reading a schema document twice gives equal results: the same entries in the same
/// order, or the same message.
pub proof fn parse_is_deterministic(
    text: Seq<char>,
    r1: Result<SchemaHashMap, String>,
    r2: Result<SchemaHashMap, String>,
)
    requires
        parsed(text, r1),
        parsed(text, r2),
    ensures
        match (r1, r2) {
            (Ok(a), Ok(b)) => a@ == b@,
            (Err(a), Err(b)) => a@ == b@,
            _ => false,
        },
{
}

proof fn lemma_quiet_lines(lines: Seq<Seq<char>>)
    requires
        forall|i: int|
            0 <= i < lines.len() ==> is_skipped(trim(#[trigger] lines[i])) && !has_break(
                trim(lines[i]),
            ),
    ensures
        schema_lines(lines) == Ok::<Seq<(Seq<char>, SchemaType)>, Seq<char>>(Seq::empty()),
    decreases lines.len(),
{
    if lines.len() > 0 {
        assert forall|i: int| 0 <= i < lines.drop_last().len() implies is_skipped(
            trim(#[trigger] lines.drop_last()[i]),
        ) && !has_break(trim(lines.drop_last()[i])) by {
            assert(lines.drop_last()[i] == lines[i]);
        }
        lemma_quiet_lines(lines.drop_last());
        assert(is_skipped(trim(lines[lines.len() - 1])));
    }
}

/// A schema document made only of blank, comment and disabled lines reads as an empty
/// schema.
pub proof fn quiet_document_is_empty(text: Seq<char>)
    requires
        forall|i: int|
            0 <= i < split_on(text, '\n').len() ==> is_skipped(
                trim(#[trigger] split_on(text, '\n')[i]),
            ) && !has_break(trim(split_on(text, '\n')[i])),
    ensures
        parse_doc(text) == Ok::<Seq<(Seq<char>, SchemaType)>, Seq<char>>(Seq::empty()),
{
    lemma_quiet_lines(split_on(text, '\n'));
}

} // verus!
