use vstd::prelude::*;
use crate::text::{chars_of, strings_view, substring};

verus! {

/// The mathematical value of an entry: a literal, or a map from segment names to entries.
pub enum ParamView {
    Leaf(Seq<char>),
    Tree(Map<Seq<char>, ParamView>),
}

/// An entry of a hierarchical map: a literal value (`V`) or a nested map (`M`).
#[derive(Debug)]
pub enum SysctlParameterValue {
    V(String),
    M(Box<SysctlParameterHashMap>),
}

/// A tree of parameters addressed by dotted paths, one segment per level.
#[derive(Debug)]
pub struct SysctlParameterHashMap {
    items: Vec<(String, SysctlParameterValue)>,
}

/// The map that a list of entries stands for; a later entry for a name wins.
pub closed spec fn items_view(items: Seq<(String, SysctlParameterValue)>) -> Map<
    Seq<char>,
    ParamView,
>
    decreases items,
{
    if items.len() == 0 {
        Map::empty()
    } else {
        let last = items[items.len() - 1];
        items_view(items.drop_last()).insert(last.0@, value_view(&last.1))
    }
}

pub closed spec fn value_view(v: &SysctlParameterValue) -> ParamView
    decreases v,
{
    match v {
        SysctlParameterValue::V(s) => ParamView::Leaf(s@),
        SysctlParameterValue::M(m) => ParamView::Tree(items_view(m.items@)),
    }
}

impl View for SysctlParameterValue {
    type V = ParamView;

    open spec fn view(&self) -> ParamView {
        value_view(self)
    }
}

impl View for SysctlParameterHashMap {
    type V = Map<Seq<char>, ParamView>;

    closed spec fn view(&self) -> Map<Seq<char>, ParamView> {
        items_view(self.items@)
    }
}


/// The entry at `path` in `m`: every segment but the last must name a nested map.
pub open spec fn tree_get(m: Map<Seq<char>, ParamView>, path: Seq<Seq<char>>) -> Option<ParamView>
    decreases path.len(),
{
    if path.len() == 0 || !m.contains_key(path[0]) {
        None
    } else if path.len() == 1 {
        Some(m[path[0]])
    } else {
        match m[path[0]] {
            ParamView::Tree(child) => tree_get(child, path.drop_first()),
            ParamView::Leaf(_) => None,
        }
    }
}

/// The nested map under `key`, or an empty one where `key` holds a literal or nothing.
pub open spec fn child_or_empty(m: Map<Seq<char>, ParamView>, key: Seq<char>) -> Map<
    Seq<char>,
    ParamView,
> {
    if m.contains_key(key) && m[key] is Tree {
        m[key]->Tree_0
    } else {
        Map::empty()
    }
}

/// `m` with the literal `value` at `path`: the last segment is overwritten, and each
/// segment before it becomes a nested map, replacing a literal that stood there.
pub open spec fn tree_insert(m: Map<Seq<char>, ParamView>, path: Seq<Seq<char>>, value: Seq<char>) -> Map<
    Seq<char>,
    ParamView,
>
    decreases path.len(),
{
    if path.len() == 0 {
        m
    } else if path.len() == 1 {
        m.insert(path[0], ParamView::Leaf(value))
    } else {
        m.insert(
            path[0],
            ParamView::Tree(tree_insert(child_or_empty(m, path[0]), path.drop_first(), value)),
        )
    }
}

/// What an optional reference to an entry stands for.
pub open spec fn entry_view(r: Option<&SysctlParameterValue>) -> Option<ParamView> {
    match r {
        Some(v) => Some(v@),
        None => None,
    }
}

/// No entry after position `j` of `items` is named `key`.
pub open spec fn is_last_key(items: Seq<(String, SysctlParameterValue)>, j: int, key: Seq<char>) -> bool {
    forall|k: int| j < k < items.len() ==> #[trigger] items[k].0@ != key
}

proof fn lemma_items_view_contains(items: Seq<(String, SysctlParameterValue)>, key: Seq<char>)
    ensures
        items_view(items).contains_key(key) <==> exists|i: int|
            0 <= i < items.len() && #[trigger] items[i].0@ == key,
    decreases items.len(),
{
    if items.len() > 0 {
        lemma_items_view_contains(items.drop_last(), key);
        if items_view(items).contains_key(key) && items[items.len() - 1].0@ != key {
            let i = choose|i: int| 0 <= i < items.len() - 1 && #[trigger] items.drop_last()[i].0@ == key;
            assert(items[i].0@ == key);
        }
        if exists|i: int| 0 <= i < items.len() && #[trigger] items[i].0@ == key {
            let i = choose|i: int| 0 <= i < items.len() && #[trigger] items[i].0@ == key;
            if i < items.len() - 1 {
                assert(items.drop_last()[i].0@ == key);
            }
        }
    }
}

proof fn lemma_items_view_last(items: Seq<(String, SysctlParameterValue)>, j: int, key: Seq<char>)
    requires
        0 <= j < items.len(),
        items[j].0@ == key,
        is_last_key(items, j, key),
    ensures
        items_view(items).contains_key(key),
        items_view(items)[key] == value_view(&items[j].1),
    decreases items.len(),
{
    if j < items.len() - 1 {
        let d = items.drop_last();
        assert(d[j].0@ == key);
        assert(is_last_key(d, j, key)) by {
            assert forall|k: int| j < k < d.len() implies #[trigger] d[k].0@ != key by {
                assert(d[k] == items[k]);
            }
        }
        lemma_items_view_last(d, j, key);
        assert(items[items.len() - 1].0@ != key);
    }
}

proof fn lemma_items_view_update(
    items: Seq<(String, SysctlParameterValue)>,
    j: int,
    e: (String, SysctlParameterValue),
)
    requires
        0 <= j < items.len(),
        items[j].0@ == e.0@,
        is_last_key(items, j, e.0@),
    ensures
        items_view(items.update(j, e)) == items_view(items).insert(e.0@, value_view(&e.1)),
    decreases items.len(),
{
    let u = items.update(j, e);
    if j == items.len() - 1 {
        assert(u.drop_last() =~= items.drop_last());
        assert(items_view(u) =~= items_view(items).insert(e.0@, value_view(&e.1)));
    } else {
        let d = items.drop_last();
        assert(is_last_key(d, j, e.0@)) by {
            assert forall|k: int| j < k < d.len() implies #[trigger] d[k].0@ != e.0@ by {
                assert(d[k] == items[k]);
            }
        }
        lemma_items_view_update(d, j, e);
        assert(u.drop_last() =~= d.update(j, e));
        assert(items[items.len() - 1].0@ != e.0@);
        assert(items_view(u) =~= items_view(items).insert(e.0@, value_view(&e.1)));
    }
}

impl SysctlParameterHashMap {
    /// An empty map.
    pub fn new() -> (r: Self)
        ensures
            r@ == Map::<Seq<char>, ParamView>::empty(),
    {
        SysctlParameterHashMap { items: Vec::new() }
    }

    /// The position of the last entry named `key`.
    fn lookup(&self, key: &String) -> (r: Option<usize>)
        ensures
            r is None ==> !self@.contains_key(key@),
            r matches Some(j) ==> j < self.items.len() && self.items@[j as int].0@ == key@
                && is_last_key(self.items@, j as int, key@) && self@.contains_key(key@)
                && self@[key@] == self.items@[j as int].1@,
    {
        let mut j = self.items.len();
        while j > 0
            invariant
                j <= self.items.len(),
                is_last_key(self.items@, j as int - 1, key@),
            decreases j,
        {
            j = j - 1;
            if self.items[j].0 == *key {
                proof {
                    lemma_items_view_last(self.items@, j as int, key@);
                }
                return Some(j);
            }
        }
        proof {
            lemma_items_view_contains(self.items@, key@);
        }
        None
    }

    /// Puts `e` in place of the entry at `found`, the last one under its name, or adds it.
    fn put(&mut self, found: Option<usize>, e: (String, SysctlParameterValue))
        requires
            found is None ==> !old(self)@.contains_key(e.0@),
            found matches Some(j) ==> j < old(self).items.len() && old(self).items@[j as int].0@
                == e.0@ && is_last_key(old(self).items@, j as int, e.0@),
        ensures
            final(self)@ == old(self)@.insert(e.0@, e.1@),
    {
        match found {
            Some(j) => {
                proof {
                    lemma_items_view_update(self.items@, j as int, e);
                }
                let ghost before = self.items@;
                self.items.remove(j);
                self.items.insert(j, e);
                assert(self.items@ =~= before.update(j as int, e));
            },
            None => {
                let ghost before = self.items@;
                self.items.push(e);
                assert(self.items@.drop_last() =~= before);
            },
        }
    }

    /// The entry at `path`, from segment `i` on.
    fn get_from(&self, path: &Vec<String>, i: usize) -> (r: Option<&SysctlParameterValue>)
        requires
            i <= path.len(),
        ensures
            entry_view(r) == tree_get(self@, strings_view(path@).skip(i as int)),
        decreases path.len() - i,
    {
        let ghost p = strings_view(path@).skip(i as int);
        if i >= path.len() {
            return None;
        }
        assert(p[0] == path@[i as int]@);
        assert(p.drop_first() =~= strings_view(path@).skip(i + 1));
        match self.lookup(&path[i]) {
            None => None,
            Some(j) => {
                if i + 1 == path.len() {
                    Some(&self.items[j].1)
                } else {
                    match &self.items[j].1 {
                        SysctlParameterValue::M(child) => child.get_from(path, i + 1),
                        SysctlParameterValue::V(_) => None,
                    }
                }
            },
        }
    }

    /// The entry at `path`; nothing for an empty path, or where a segment before the last
    /// names a literal or nothing.
    pub fn get(&self, path: &Vec<String>) -> (r: Option<&SysctlParameterValue>)
        ensures
            entry_view(r) == tree_get(self@, strings_view(path@)),
    {
        assert(strings_view(path@).skip(0) =~= strings_view(path@));
        self.get_from(path, 0)
    }

    /// Puts the literal `value` at `path`, from segment `i` on.
    fn insert_from(&mut self, path: &Vec<String>, i: usize, value: &str)
        requires
            i <= path.len(),
        ensures
            final(self)@ == tree_insert(old(self)@, strings_view(path@).skip(i as int), value@),
        decreases path.len() - i,
    {
        let ghost p = strings_view(path@).skip(i as int);
        if i >= path.len() {
            return;
        }
        assert(p[0] == path@[i as int]@);
        assert(p.drop_first() =~= strings_view(path@).skip(i + 1));
        let found = self.lookup(&path[i]);
        if i + 1 == path.len() {
            self.put(found, (path[i].clone(), SysctlParameterValue::V(value.to_owned())));
        } else {
            match found {
                Some(j) => {
                    let ghost before = self.items@;
                    let (k, v) = self.items.remove(j);
                    let mut child = match v {
                        SysctlParameterValue::M(c) => *c,
                        SysctlParameterValue::V(_) => SysctlParameterHashMap::new(),
                    };
                    assert(child@ == child_or_empty(old(self)@, path@[i as int]@));
                    child.insert_from(path, i + 1, value);
                    let e = (k, SysctlParameterValue::M(Box::new(child)));
                    let ghost ge = e;
                    proof {
                        lemma_items_view_update(before, j as int, ge);
                    }
                    self.items.insert(j, e);
                    assert(self.items@ =~= before.update(j as int, ge));
                },
                None => {
                    let mut child = SysctlParameterHashMap::new();
                    child.insert_from(path, i + 1, value);
                    self.put(None, (path[i].clone(), SysctlParameterValue::M(Box::new(child))));
                },
            }
        }
    }

    /// Puts the literal `value` at `path`. The last segment takes `value` whatever it held;
    /// each segment before it becomes a nested map where it held a literal or nothing.
    /// An empty path changes nothing.
    pub fn insert(&mut self, path: &Vec<String>, value: &str)
        ensures
            final(self)@ == tree_insert(old(self)@, strings_view(path@), value@),
    {
        assert(strings_view(path@).skip(0) =~= strings_view(path@));
        self.insert_from(path, 0, value);
    }
}

impl SysctlParameterValue {
    /// Whether two entries stand for the same value; the order of nested entries does not count.
    fn same(&self, o: &SysctlParameterValue) -> (r: bool)
        ensures
            r == (self@ == o@),
        decreases self,
    {
        match (self, o) {
            (SysctlParameterValue::V(a), SysctlParameterValue::V(b)) => *a == *b,
            (SysctlParameterValue::M(a), SysctlParameterValue::M(b)) => a.same(b),
            (SysctlParameterValue::V(_), SysctlParameterValue::M(_)) => false,
            (SysctlParameterValue::M(_), SysctlParameterValue::V(_)) => false,
        }
    }
}

impl SysctlParameterHashMap {
    /// Whether two maps hold the same entries, in whatever order.
    fn same(&self, o: &SysctlParameterHashMap) -> (r: bool)
        ensures
            r == (self@ == o@),
        decreases self,
    {
        let n = self.items.len();
        for i in 0..n
            invariant
                n == self.items.len(),
                forall|i2: int|
                    0 <= i2 < i ==> self@.contains_key(#[trigger] self.items@[i2].0@) && o@.contains_key(
                        self.items@[i2].0@,
                    ) && o@[self.items@[i2].0@]
                        == self@[self.items@[i2].0@],
        {
            let key = &self.items[i].0;
            proof {
                lemma_items_view_contains(self.items@, key@);
            }
            let a = self.lookup(key);
            let b = o.lookup(key);
            match (a, b) {
                (Some(a), Some(b)) => {
                    assert(decreases_to!(self => self.items@[a as int].1));
                    if !self.items[a].1.same(&o.items[b].1) {
                        return false;
                    }
                },
                _ => {
                    return false;
                },
            }
        }
        let m = o.items.len();
        for i in 0..m
            invariant
                m == o.items.len(),
                n == self.items.len(),
                forall|i2: int|
                    0 <= i2 < n ==> self@.contains_key(#[trigger] self.items@[i2].0@) && o@.contains_key(
                        self.items@[i2].0@,
                    ) && o@[self.items@[i2].0@] == self@[self.items@[i2].0@],
                forall|i2: int| 0 <= i2 < i ==> self@.contains_key(#[trigger] o.items@[i2].0@),
        {
            let key = &o.items[i].0;
            proof {
                lemma_items_view_contains(o.items@, key@);
            }
            if self.lookup(key).is_none() {
                return false;
            }
        }
        assert forall|k: Seq<char>| #[trigger] self@.contains_key(k) == o@.contains_key(k) && (
        self@.contains_key(k) ==> o@[k] == self@[k]) by {
            lemma_items_view_contains(self.items@, k);
            lemma_items_view_contains(o.items@, k);
            if self@.contains_key(k) {
                let i = choose|i: int| 0 <= i < self.items.len() && #[trigger] self.items@[i].0@ == k;
                assert(o@.contains_key(self.items@[i].0@));
            }
            if o@.contains_key(k) {
                let i = choose|i: int| 0 <= i < o.items.len() && #[trigger] o.items@[i].0@ == k;
                assert(self@.contains_key(o.items@[i].0@));
            }
        }
        assert(self@ =~= o@);
        true
    }
}

/// Two maps are equal when they hold the same entries, whatever order they were written in.
impl PartialEq for SysctlParameterHashMap {
    fn eq(&self, other: &SysctlParameterHashMap) -> (r: bool) {
        self.same(other)
    }
}

impl vstd::std_specs::cmp::PartialEqSpecImpl for SysctlParameterHashMap {
    open spec fn obeys_eq_spec() -> bool {
        true
    }

    open spec fn eq_spec(&self, other: &SysctlParameterHashMap) -> bool {
        self@ == other@
    }
}

/// Two entries are equal when they stand for the same literal or the same nested map.
impl PartialEq for SysctlParameterValue {
    fn eq(&self, other: &SysctlParameterValue) -> (r: bool) {
        self.same(other)
    }
}

impl vstd::std_specs::cmp::PartialEqSpecImpl for SysctlParameterValue {
    open spec fn obeys_eq_spec() -> bool {
        true
    }

    open spec fn eq_spec(&self, other: &SysctlParameterValue) -> bool {
        self@ == other@
    }
}

/// `s` with each `"` written as `\"`.
pub open spec fn escape_quotes(s: Seq<char>) -> Seq<char>
    decreases s.len(),
{
    if s.len() == 0 {
        s
    } else {
        escape_quotes(s.drop_last()) + if s.last() == '"' {
            seq!['\\', '"']
        } else {
            seq![s.last()]
        }
    }
}

/// `s` between double quotes, with its own quotes escaped.
pub open spec fn quoted(s: Seq<char>) -> Seq<char> {
    seq!['"'] + escape_quotes(s) + seq!['"']
}

/// The text of an entry: a quoted literal, or a nested map as `render_map` writes it.
pub open spec fn render_value(v: &SysctlParameterValue) -> Seq<char>
    decreases v,
{
    match v {
        SysctlParameterValue::V(s) => quoted(s@),
        SysctlParameterValue::M(m) => render_map(m),
    }
}

/// The entries of a map as `"name": value`, separated by `, `, in the order they are kept.
pub open spec fn render_list(items: Seq<(String, SysctlParameterValue)>) -> Seq<char>
    decreases items,
{
    if items.len() == 0 {
        Seq::empty()
    } else {
        let last = items[items.len() - 1];
        render_list(items.drop_last()) + (if items.len() > 1 {
            seq![',', ' ']
        } else {
            Seq::empty()
        }) + quoted(last.0@) + seq![':', ' '] + render_value(&last.1)
    }
}

/// The text of a map: its entries between braces (see `lemma_render_map`).
pub closed spec fn render_map(m: &SysctlParameterHashMap) -> Seq<char>
    decreases m,
{
    seq!['{'] + render_list(m.items@) + seq!['}']
}

/// The entries of a map in the order in which they are kept.
pub closed spec fn entries(m: &SysctlParameterHashMap) -> Seq<(String, SysctlParameterValue)> {
    m.items@
}

/// A map is written as its entries, in the order of `entries`, between braces.
pub proof fn lemma_render_map(m: &SysctlParameterHashMap)
    ensures
        render_map(m) == seq!['{'] + render_list(entries(m)) + seq!['}'],
{
}

/// A name is in the map exactly when some entry carries it; the value under it is that of
/// the last entry that carries it.
pub proof fn lemma_entries_view(m: &SysctlParameterHashMap, key: Seq<char>)
    ensures
        m@.contains_key(key) <==> exists|i: int|
            0 <= i < entries(m).len() && #[trigger] entries(m)[i].0@ == key,
        forall|j: int|
            0 <= j < entries(m).len() && #[trigger] entries(m)[j].0@ == key && is_last_key(
                entries(m),
                j,
                key,
            ) ==> m@[key] == entries(m)[j].1@,
{
    let e = entries(m);
    assert(e == m.items@);
    lemma_items_view_contains(m.items@, key);
    if m@.contains_key(key) {
        let i = choose|i: int| 0 <= i < m.items@.len() && #[trigger] m.items@[i].0@ == key;
        assert(e[i].0@ == key);
    }
    assert forall|j: int|
        0 <= j < entries(m).len() && #[trigger] entries(m)[j].0@ == key && is_last_key(
            entries(m),
            j,
            key,
        ) implies m@[key] == entries(m)[j].1@ by {
        lemma_items_view_last(m.items@, j, key);
    }
}

/// `s` between double quotes, with its own quotes escaped.
fn quote(s: &str) -> (r: String)
    ensures
        r@ == quoted(s@),
{
    let c = chars_of(s);
    let mut r = String::from_str("\"");
    proof {
        broadcast use vstd::string::group_string_axioms;

        reveal_strlit("\"");
        reveal_strlit("\\\"");
    }
    let mut start: usize = 0;
    assert(s@.take(0) =~= Seq::<char>::empty());
    for i in 0..c.len()
        invariant
            c@ == s@,
            start <= i,
            r@ + s@.subrange(start as int, i as int) == seq!['"'] + escape_quotes(s@.take(i as int)),
    {
        assert(s@.take(i + 1).drop_last() =~= s@.take(i as int));
        assert(s@.take(i + 1).last() == c@[i as int]);
        proof {
            broadcast use vstd::string::group_string_axioms;

            reveal_strlit("\\\"");
        }
        if c[i] == '"' {
            let ghost r0 = r@;
            let ghost st0 = start;
            let piece = substring(s, start, i);
            r.append(piece.as_str());
            r.append("\\\"");
            start = i + 1;
            let ghost done = s@.take(i + 1);
            assert(r@ == r0 + s@.subrange(st0 as int, i as int) + seq!['\\', '"']);
            assert(escape_quotes(done) == escape_quotes(s@.take(i as int)) + seq!['\\', '"']);
            assert(s@.subrange(start as int, i + 1) =~= Seq::<char>::empty());
            assert("\\\""@ =~= seq!['\\', '"']);
            assert(r@ + s@.subrange(start as int, i + 1) =~= seq!['"'] + escape_quotes(done));
        } else {
            let ghost ch = c@[i as int];
            let ghost done = s@.take(i + 1);
            let ghost pending = s@.subrange(start as int, i as int);
            assert(s@.subrange(start as int, i + 1) =~= pending.push(ch));
            assert(escape_quotes(done) == escape_quotes(s@.take(i as int)) + seq![ch]);
            assert((r@ + pending).push(ch) =~= r@ + s@.subrange(start as int, i + 1));
            assert(r@ + s@.subrange(start as int, i + 1) =~= seq!['"'] + escape_quotes(done));
        }
    }
    let piece = substring(s, start, c.len());
    r.append(piece.as_str());
    r.append("\"");
    assert("\""@ =~= seq!['"']);
    assert(s@.take(c.len() as int) =~= s@);
    assert(r@ =~= quoted(s@));
    r
}

impl SysctlParameterValue {
    /// The text of this entry: a literal in double quotes with its own `"` escaped, or a
    /// nested map as `SysctlParameterHashMap::render` writes it.
    pub fn render(&self) -> (r: String)
        ensures
            r@ == render_value(self),
        decreases self,
    {
        match self {
            SysctlParameterValue::V(s) => quote(s.as_str()),
            SysctlParameterValue::M(m) => m.render(),
        }
    }
}

impl SysctlParameterHashMap {
    /// The number of entries.
    pub fn len(&self) -> (r: usize)
        ensures
            r == entries(self).len(),
    {
        self.items.len()
    }

    /// The entry at position `i`: its name and its value.
    pub fn entry(&self, i: usize) -> (r: (&String, &SysctlParameterValue))
        requires
            i < entries(self).len(),
        ensures
            *r.0 == entries(self)[i as int].0,
            *r.1 == entries(self)[i as int].1,
    {
        (&self.items[i].0, &self.items[i].1)
    }

    /// The text of this map for people to read: `{"name": value, ...}`, nested maps in
    /// braces of their own. It is not meant to be read back.
    pub fn render(&self) -> (r: String)
        ensures
            r@ == render_map(self),
        decreases self,
    {
        proof {
            broadcast use vstd::string::group_string_axioms;

            reveal_strlit("{");
            reveal_strlit("}");
            reveal_strlit(", ");
            reveal_strlit(": ");
        }
        let mut r = String::from_str("{");
        let n = self.items.len();
        assert(self.items@.take(0) =~= Seq::<(String, SysctlParameterValue)>::empty());
        for i in 0..n
            invariant
                n == self.items.len(),
                r@ == seq!['{'] + render_list(self.items@.take(i as int)),
        {
            let ghost t = self.items@.take(i + 1);
            assert(t.drop_last() =~= self.items@.take(i as int));
            assert(t[t.len() - 1] == self.items@[i as int]);
            proof {
                broadcast use vstd::string::group_string_axioms;

                reveal_strlit(", ");
                reveal_strlit(": ");
            }
            if i > 0 {
                r.append(", ");
                assert(", "@ =~= seq![',', ' ']);
            }
            let key = quote(self.items[i].0.as_str());
            r.append(key.as_str());
            r.append(": ");
            assert(": "@ =~= seq![':', ' ']);
            assert(decreases_to!(self => self.items@[i as int].1));
            let v = self.items[i].1.render();
            r.append(v.as_str());
            assert(r@ =~= seq!['{'] + render_list(t));
        }
        r.append("}");
        assert("}"@ =~= seq!['}']);
        assert(self.items@.take(n as int) =~= self.items@);
        assert(r@ =~= render_map(self));
        r
    }
}

/// What an entry stands for: a literal for `V`, the nested map's value for `M`.
pub proof fn lemma_value_view(v: &SysctlParameterValue)
    ensures
        v matches SysctlParameterValue::V(s) ==> v@ == ParamView::Leaf(s@),
        v matches SysctlParameterValue::M(m) ==> v@ == ParamView::Tree(m@),
{
}

/// Reading a path right after writing a literal there gives that literal back.
pub proof fn lemma_get_after_insert(m: Map<Seq<char>, ParamView>, path: Seq<Seq<char>>, value: Seq<char>)
    requires
        path.len() >= 1,
    ensures
        tree_get(tree_insert(m, path, value), path) == Some(ParamView::Leaf(value)),
    decreases path.len(),
{
    if path.len() > 1 {
        lemma_get_after_insert(child_or_empty(m, path[0]), path.drop_first(), value);
    }
}

/// Of two literals written at one path, the later is what the path reads.
pub proof fn overwrite_law(
    m: Map<Seq<char>, ParamView>,
    path: Seq<Seq<char>>,
    v1: Seq<char>,
    v2: Seq<char>,
)
    requires
        path.len() >= 1,
    ensures
        tree_get(tree_insert(tree_insert(m, path, v1), path, v2), path) == Some(
            ParamView::Leaf(v2),
        ),
{
    lemma_get_after_insert(tree_insert(m, path, v1), path, v2);
}

/// A literal written at the one-segment path `a` removes whatever was nested under `a`:
/// a path below `a` that was written before reads as nothing afterwards.
pub proof fn shape_replacement_law(
    m: Map<Seq<char>, ParamView>,
    a: Seq<char>,
    below: Seq<Seq<char>>,
    v1: Seq<char>,
    v2: Seq<char>,
)
    requires
        below.len() >= 1,
    ensures
        tree_get(tree_insert(tree_insert(m, seq![a] + below, v1), seq![a], v2), seq![a] + below)
            is None,
{
    let p = seq![a] + below;
    assert(p[0] == a);
    assert(seq![a][0] == a);
}

} // verus!
