//! Equality of parsed values: two trees are equal when their views are, so
//! objects compare as maps, whatever the order of their entries.
use vstd::prelude::*;

use crate::value::{entries_map, value_view, values_view, JsonObject, Number};

verus! {

/// The index of the last entry of `s` whose key is `k`, or -1.
pub open spec fn last_key_index(s: Seq<(String, JsonObject)>, k: Seq<char>) -> int
    decreases s.len(),
{
    if s.len() == 0 {
        -1
    } else if s[s.len() - 1].0@ == k {
        s.len() - 1
    } else {
        last_key_index(s.subrange(0, s.len() - 1), k)
    }
}

proof fn lemma_values_view_index(s: Seq<JsonObject>)
    ensures
        values_view(s).len() == s.len(),
        forall|i: int| 0 <= i < s.len() ==> values_view(s)[i] == value_view(#[trigger] s[i]),
    decreases s.len(),
{
    if s.len() > 0 {
        let pre = s.subrange(0, s.len() - 1);
        lemma_values_view_index(pre);
        assert forall|i: int| 0 <= i < s.len() implies values_view(s)[i] == value_view(
            #[trigger] s[i],
        ) by {
            if i < s.len() - 1 {
                assert(pre[i] == s[i]);
            }
        }
    }
}

/// A key is in the map of entries exactly when some entry has it, and then
/// the map gives the value of its last entry.
proof fn lemma_entries_map_key(s: Seq<(String, JsonObject)>, k: Seq<char>)
    ensures
        -1 <= last_key_index(s, k) < s.len(),
        entries_map(s).contains_key(k) <==> last_key_index(s, k) >= 0,
        last_key_index(s, k) >= 0 ==> s[last_key_index(s, k)].0@ == k && entries_map(s)[k]
            == value_view(s[last_key_index(s, k)].1),
        (exists|i: int| 0 <= i < s.len() && s[i].0@ == k) ==> last_key_index(s, k) >= 0,
    decreases s.len(),
{
    if s.len() > 0 {
        let pre = s.subrange(0, s.len() - 1);
        lemma_entries_map_key(pre, k);
        if s[s.len() - 1].0@ != k {
            if exists|i: int| 0 <= i < s.len() && s[i].0@ == k {
                let i = choose|i: int| 0 <= i < s.len() && s[i].0@ == k;
                assert(pre[i] == s[i]);
            }
        }
    }
}

/// The index of the last entry of `es` whose key is `key`.
fn find_last(es: &Vec<(String, JsonObject)>, key: &String) -> (r: Option<usize>)
    ensures
        r matches Some(i) ==> i == last_key_index(es@, key@),
        r is None <==> last_key_index(es@, key@) < 0,
{
    let mut i: usize = es.len();
    assert(es@.subrange(0, i as int) =~= es@);
    while i > 0
        invariant
            i <= es@.len(),
            last_key_index(es@.subrange(0, i as int), key@) == last_key_index(es@, key@),
        decreases i,
    {
        assert(es@.subrange(0, i as int).subrange(0, i - 1) =~= es@.subrange(0, i - 1));
        if es[i - 1].0 == *key {
            return Some(i - 1);
        }
        i -= 1;
    }
    None
}

fn numbers_equal(a: &Number, b: &Number) -> (r: bool)
    ensures
        r == (a@ == b@),
{
    match a {
        Number::Float(s) => match b {
            Number::Float(t) => *s == *t,
            _ => false,
        },
        Number::Integer(i) => match b {
            Number::Integer(j) => *i == *j,
            _ => false,
        },
    }
}

/// Whether two trees have the same view.
pub fn values_equal(a: &JsonObject, b: &JsonObject) -> (r: bool)
    ensures
        r == (a@ == b@),
    decreases a,
{
    match a {
        JsonObject::Array(x) => {
            let y = match b {
                JsonObject::Array(y) => y,
                _ => return false,
            };

            proof {
                lemma_values_view_index(x@);
                lemma_values_view_index(y@);
            }
            if x.len() != y.len() {
                return false;
            }
            let mut i: usize = 0;
            while i < x.len()
                invariant
                    *a == JsonObject::Array(*x),
                    *b == JsonObject::Array(*y),
                    i <= x@.len(),
                    x@.len() == y@.len(),
                    values_view(x@).len() == x@.len(),
                    values_view(y@).len() == y@.len(),
                    forall|j: int| 0 <= j < x@.len() ==> values_view(x@)[j] == value_view(#[trigger] x@[j]),
                    forall|j: int| 0 <= j < y@.len() ==> values_view(y@)[j] == value_view(#[trigger] y@[j]),
                    forall|j: int| 0 <= j < i ==> values_view(x@)[j] == values_view(y@)[j],
                decreases x@.len() - i,
            {
                assert(decreases_to!(*a => a->Array_0));
                assert(decreases_to!(*x => x@[i as int]));
                if !values_equal(&x[i], &y[i]) {
                    assert(values_view(x@)[i as int] != values_view(y@)[i as int]);
                    return false;
                }
                i += 1;
            }
            assert(values_view(x@) =~= values_view(y@));
            true
        },
        JsonObject::Object(x) => {
            let y = match b {
                JsonObject::Object(y) => y,
                _ => return false,
            };
            let mut i: usize = 0;
            while i < x.len()
                invariant
                    *a == JsonObject::Object(*x),
                    *b == JsonObject::Object(*y),
                    i <= x@.len(),
                    forall|j: int|
                        0 <= j < i ==> {
                            let k = (#[trigger] x@[j]).0@;
                            entries_map(x@).contains_key(k) && entries_map(y@).contains_key(k)
                                && entries_map(x@)[k] == entries_map(
                                y@,
                            )[k]
                        },
                decreases x@.len() - i,
            {
                let key = &x[i].0;
                proof {
                    assert(x@[i as int].0@ == key@);
                    lemma_entries_map_key(x@, key@);
                    lemma_entries_map_key(y@, key@);
                    assert(entries_map(x@).contains_key(key@));
                }
                let lx = match find_last(x, key) {
                    Some(l) => l,
                    None => return false,
                };
                let ly = match find_last(y, key) {
                    Some(l) => l,
                    None => {
                        assert(!entries_map(y@).contains_key(key@));
                        return false;
                    },
                };
                assert(decreases_to!(*a => a->Object_0));
                assert(decreases_to!(*x => x@[lx as int]));
                assert(decreases_to!(x@[lx as int] => x@[lx as int].1));
                if !values_equal(&x[lx].1, &y[ly].1) {
                    assert(entries_map(x@)[key@] != entries_map(y@)[key@]);
                    return false;
                }
                i += 1;
            }
            let mut j: usize = 0;
            while j < y.len()
                invariant
                    *a == JsonObject::Object(*x),
                    *b == JsonObject::Object(*y),
                    j <= y@.len(),
                    forall|m: int|
                        0 <= m < x@.len() ==> {
                            let k = (#[trigger] x@[m]).0@;
                            entries_map(x@).contains_key(k) && entries_map(y@).contains_key(k)
                                && entries_map(x@)[k] == entries_map(
                                y@,
                            )[k]
                        },
                    forall|m: int|
                        0 <= m < j ==> entries_map(x@).contains_key((#[trigger] y@[m]).0@),
                decreases y@.len() - j,
            {
                proof {
                    lemma_entries_map_key(x@, y@[j as int].0@);
                    lemma_entries_map_key(y@, y@[j as int].0@);
                    assert(entries_map(y@).contains_key(y@[j as int].0@));
                }
                if find_last(x, &y[j].0).is_none() {
                    assert(!entries_map(x@).contains_key(y@[j as int].0@));
                    return false;
                }
                j += 1;
            }
            assert forall|k: Seq<char>| #[trigger] entries_map(x@).contains_key(k) implies entries_map(y@).contains_key(k) && entries_map(x@)[k] == entries_map(y@)[k] by {
                lemma_entries_map_key(x@, k);
                let m = last_key_index(x@, k);
                assert(x@[m].0@ == k);
            }
            assert forall|k: Seq<char>| #[trigger] entries_map(y@).contains_key(k) implies entries_map(x@).contains_key(k) by {
                lemma_entries_map_key(y@, k);
                let m = last_key_index(y@, k);
                assert(y@[m].0@ == k);
            }
            assert(entries_map(x@) =~= entries_map(y@));
            true
        },
        JsonObject::Bool(p) => match b {
            JsonObject::Bool(q) => *p == *q,
            _ => false,
        },
        JsonObject::Null => match b {
            JsonObject::Null => true,
            _ => false,
        },
        JsonObject::Number(m) => match b {
            JsonObject::Number(n) => numbers_equal(m, n),
            _ => false,
        },
        JsonObject::String(s) => match b {
            JsonObject::String(t) => *s == *t,
            _ => false,
        },
    }
}

impl PartialEq for JsonObject {
    fn eq(&self, other: &JsonObject) -> (r: bool) {
        values_equal(self, other)
    }
}

impl vstd::std_specs::cmp::PartialEqSpecImpl for JsonObject {
    open spec fn obeys_eq_spec() -> bool {
        true
    }

    open spec fn eq_spec(&self, other: &JsonObject) -> bool {
        self@ == other@
    }
}

} // verus!
