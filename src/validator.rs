use vstd::prelude::*;
use crate::hashmap::{lemma_value_view, tree_get, ParamView, SysctlParameterHashMap, SysctlParameterValue};
use crate::schema::{SchemaHashMap, SchemaType};
use crate::text::{chars_of, range_is, split_on, split_ranges, strings_in, strings_view};

verus! {

/// `true` or `false`, as `bool`'s `FromStr` reads them.
pub open spec fn is_bool_literal(v: Seq<char>) -> bool {
    v == seq!['t', 'r', 'u', 'e'] || v == seq!['f', 'a', 'l', 's', 'e']
}

pub open spec fn is_digit(c: char) -> bool {
    48 <= (c as u32) && (c as u32) <= 57
}

/// The number that a string of decimal digits writes.
pub open spec fn digits_value(d: Seq<char>) -> nat
    decreases d.len(),
{
    if d.len() == 0 {
        0
    } else {
        digits_value(d.drop_last()) * 10 + ((d.last() as u32) - 48) as nat
    }
}

/// The digits of `v`, without one leading `+`.
pub open spec fn unsigned_digits(v: Seq<char>) -> Seq<char> {
    if v.len() > 0 && v[0] == '+' {
        v.drop_first()
    } else {
        v
    }
}

/// A decimal number that fits in a `u64`, as `u64`'s `FromStr` reads it: an optional `+`,
/// then at least one digit.
pub open spec fn is_u64_literal(v: Seq<char>) -> bool {
    let d = unsigned_digits(v);
    d.len() > 0 && (forall|i: int| 0 <= i < d.len() ==> is_digit(#[trigger] d[i])) && digits_value(d)
        <= u64::MAX
}

/// Whether literal `v` at `path` is of kind `t`, and the message where it is not.
pub open spec fn value_check(path: Seq<char>, v: Seq<char>, t: SchemaType) -> Result<(), Seq<char>> {
    match t {
        SchemaType::String() => Ok(()),
        SchemaType::Bool() => if is_bool_literal(v) {
            Ok(())
        } else {
            Err("'"@ + path + "' has not a bool value '"@ + v + "'"@)
        },
        SchemaType::Integer() => if is_u64_literal(v) {
            Ok(())
        } else {
            Err("'"@ + path + "' has not a integer value '"@ + v + "'"@)
        },
    }
}

/// Whether `m` holds at `path` a literal of kind `t`, and the message where it does not.
pub open spec fn entry_check(m: Map<Seq<char>, ParamView>, path: Seq<char>, t: SchemaType) -> Result<
    (),
    Seq<char>,
> {
    match tree_get(m, split_on(path, '.')) {
        None => Err("'"@ + path + "' is not found"@),
        Some(ParamView::Tree(_)) => Err("'"@ + path + "' is not a literal value, is a submap"@),
        Some(ParamView::Leaf(v)) => value_check(path, v, t),
    }
}

/// The first schema entry that `m` fails, in order, or success.
pub open spec fn schema_check(m: Map<Seq<char>, ParamView>, s: Seq<(Seq<char>, SchemaType)>) -> Result<
    (),
    Seq<char>,
>
    decreases s.len(),
{
    if s.len() == 0 {
        Ok(())
    } else {
        match entry_check(m, s[0].0, s[0].1) {
            Err(e) => Err(e),
            Ok(_) => schema_check(m, s.drop_first()),
        }
    }
}

proof fn lemma_digits_grow(d: Seq<char>, k: int)
    requires
        0 <= k <= d.len(),
        forall|i: int| 0 <= i < d.len() ==> is_digit(#[trigger] d[i]),
    ensures
        digits_value(d.take(k)) <= digits_value(d),
    decreases d.len() - k,
{
    if k < d.len() {
        lemma_digits_grow(d, k + 1);
        assert(d.take(k + 1).drop_last() =~= d.take(k));
        assert(is_digit(d[k]));
    } else {
        assert(d.take(k) =~= d);
    }
}

/// Whether `v` is `true` or `false`.
fn bool_literal(c: &Vec<char>) -> (r: bool)
    ensures
        r == is_bool_literal(c@),
{
    let t = vec!['t', 'r', 'u', 'e'];
    let f = vec!['f', 'a', 'l', 's', 'e'];
    assert(t@ =~= seq!['t', 'r', 'u', 'e']);
    assert(f@ =~= seq!['f', 'a', 'l', 's', 'e']);
    assert(c@.subrange(0, c.len() as int) =~= c@);
    range_is(c, 0, c.len(), &t) || range_is(c, 0, c.len(), &f)
}

/// Whether `c` is a decimal number that fits in a `u64`.
fn u64_literal(c: &Vec<char>) -> (r: bool)
    ensures
        r == is_u64_literal(c@),
{
    let start: usize = if c.len() > 0 && c[0] == '+' {
        1
    } else {
        0
    };
    let ghost d = unsigned_digits(c@);
    assert(d =~= c@.subrange(start as int, c.len() as int));
    if start == c.len() {
        return false;
    }
    let mut acc: u64 = 0;
    let mut k = start;
    while k < c.len()
        invariant
            start <= k <= c.len(),
            d == c@.subrange(start as int, c.len() as int),
            d == unsigned_digits(c@),
            forall|i: int| 0 <= i < k - start ==> is_digit(#[trigger] d[i]),
            acc == digits_value(d.take(k - start)),
        decreases c.len() - k,
    {
        let ch = c[k];
        if !(48 <= (ch as u32) && (ch as u32) <= 57) {
            assert(d[k - start] == ch);
            return false;
        }
        let dg = (ch as u32 - 48) as u64;
        assert(d.take(k + 1 - start).drop_last() =~= d.take(k - start));
        assert(d.take(k + 1 - start).last() == ch);
        if acc > (u64::MAX - dg) / 10 {
            proof {
                assert(acc * 10 + dg > u64::MAX) by (nonlinear_arith)
                    requires
                        acc > (u64::MAX - dg) / 10,
                        dg <= 9,
                ;
                if forall|i: int| 0 <= i < d.len() ==> is_digit(#[trigger] d[i]) {
                    lemma_digits_grow(d, k + 1 - start);
                }
            }
            return false;
        }
        assert(acc * 10 + dg <= u64::MAX) by (nonlinear_arith)
            requires
                acc <= (u64::MAX - dg) / 10,
                dg <= 9,
        ;
        acc = acc * 10 + dg;
        k = k + 1;
    }
    assert(d.take(c.len() - start) =~= d);
    true
}

/// Checks that the literal `value` at `path` is of kind `schema_type`: any literal is a
/// string, a bool is `true` or `false`, an integer a decimal number that fits in a `u64`.
pub fn validate_value(path: &str, value: &str, schema_type: SchemaType) -> (r: Result<(), String>)
    ensures
        match value_check(path@, value@, schema_type) {
            Ok(_) => r is Ok,
            Err(e) => r matches Err(x) && x@ == e,
        },
{
    let c = chars_of(value);
    match schema_type {
        SchemaType::String() => Ok(()),
        SchemaType::Bool() => {
            if bool_literal(&c) {
                Ok(())
            } else {
                Err(
                    String::from_str("'").concat(path).concat("' has not a bool value '").concat(
                        value,
                    ).concat("'"),
                )
            }
        },
        SchemaType::Integer() => {
            if u64_literal(&c) {
                Ok(())
            } else {
                Err(
                    String::from_str("'").concat(path).concat("' has not a integer value '").concat(
                        value,
                    ).concat("'"),
                )
            }
        },
    }
}

/// Checks one schema entry against the map.
fn validate_entry(m: &SysctlParameterHashMap, path: &String, t: SchemaType) -> (r: Result<(), String>)
    ensures
        match entry_check(m@, path@, t) {
            Ok(_) => r is Ok,
            Err(e) => r matches Err(x) && x@ == e,
        },
{
    let c = chars_of(path.as_str());
    let segs = split_ranges(&c, 0, c.len(), '.');
    assert(c@.subrange(0, c.len() as int) =~= c@);
    let p = strings_in(path.as_str(), &c, &segs);
    assert(strings_view(p@) == split_on(path@, '.'));
    match m.get(&p) {
        None => Err(String::from_str("'").concat(path.as_str()).concat("' is not found")),
        Some(v) => {
            proof {
                lemma_value_view(v);
            }
            match v {
                SysctlParameterValue::M(_) => Err(
                    String::from_str("'").concat(path.as_str()).concat(
                        "' is not a literal value, is a submap",
                    ),
                ),
                SysctlParameterValue::V(s) => validate_value(path.as_str(), s.as_str(), t),
            }
        },
    }
}

/// Checks every entry of `schema`, in order, against `sysctl_conf`: the path must be
/// there, hold a literal and not a nested map, and the literal must be of the kind the
/// entry asks for. The first entry that fails gives the error.
pub fn validate(sysctl_conf: SysctlParameterHashMap, schema: SchemaHashMap) -> (r: Result<(), String>)
    ensures
        match schema_check(sysctl_conf@, schema@) {
            Ok(_) => r is Ok,
            Err(e) => r matches Err(x) && x@ == e,
        },
{
    let n = schema.len();
    assert(schema@.skip(0) =~= schema@);
    for i in 0..n
        invariant
            n == schema@.len(),
            schema_check(sysctl_conf@, schema@) == schema_check(sysctl_conf@, schema@.skip(i as int)),
    {
        let (path, t) = schema.entry(i);
        assert(schema@.skip(i as int)[0] == schema@[i as int]);
        assert(schema@.skip(i as int).drop_first() =~= schema@.skip(i + 1));
        match validate_entry(&sysctl_conf, path, t) {
            Ok(()) => {},
            Err(e) => {
                return Err(e);
            },
        }
    }
    assert(schema@.skip(n as int) =~= Seq::<(Seq<char>, SchemaType)>::empty());
    Ok(())
}

} // verus!
