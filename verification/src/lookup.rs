//! Reading the value at a path, and what an assignment does to what is read there.
use vstd::prelude::*;

use crate::assign::{lemma_key_index_char, lemma_key_index_from_facts};
use crate::json::{
    elements, is_empty_array, is_empty_object, key_index, members, pad_nulls, set_path, Json,
};
use crate::path::Segment;

verus! {

/// The value at `path` in `node`: a name selects the first member so named, an index the
/// element at it; `None` where a step finds nothing.
pub open spec fn get_path(node: Json, path: Seq<Segment>) -> Option<Json>
    decreases path.len(),
{
    if path.len() == 0 {
        Some(node)
    } else {
        let rest = path.drop_first();
        match path[0] {
            Segment::Property(p) => match node {
                Json::Object(m) => match key_index(m, p) {
                    Some(i) => get_path(m[i].1, rest),
                    None => None,
                },
                _ => None,
            },
            Segment::Index(i) => match node {
                Json::Array(a) => if i < a.len() {
                    get_path(a[i as int], rest)
                } else {
                    None
                },
                _ => None,
            },
        }
    }
}

/// Assigning `value` where `old` stands keeps `old`: `value` is an empty object and `old`
/// an object, or `value` is an empty array and `old` an array.
pub open spec fn keeps_container(old: Option<Json>, value: Json) -> bool {
    match old {
        Some(o) => (is_empty_object(value) && o is Object) || (is_empty_array(value)
            && o is Array),
        None => false,
    }
}

/// Renaming nothing: replacing the member at `i`, whose name is `k`, by another member
/// named `k` keeps `i` the first index named `k`.
proof fn lemma_key_index_update(m: Seq<(Seq<char>, Json)>, k: Seq<char>, i: int, x: Json)
    requires
        key_index(m, k) == Some(i),
    ensures
        key_index(m.update(i, (k, x)), k) == Some(i),
{
    lemma_key_index_char(m, k);
    let m2 = m.update(i, (k, x));
    assert forall|l: int| 0 <= l < i implies m2[l].0 != k by {
        assert(m2[l] == m[l]);
    }
    lemma_key_index_from_facts(m2, k, Some(i));
}

/// A member named `k` added at the end of members without that name is found at the end.
proof fn lemma_key_index_push(m: Seq<(Seq<char>, Json)>, k: Seq<char>, x: Json)
    requires
        key_index(m, k) is None,
    ensures
        key_index(m.push((k, x)), k) == Some(m.len() as int),
{
    lemma_key_index_char(m, k);
    let m2 = m.push((k, x));
    assert forall|l: int| 0 <= l < m.len() implies m2[l].0 != k by {
        assert(m2[l] == m[l]);
    }
    lemma_key_index_from_facts(m2, k, Some(m.len() as int));
}

/// Reading at a path after assigning `v` there gives `v`, unless the assignment was of
/// an empty object where an object stood, or of an empty array where an array stood.
pub proof fn lemma_read_after_write(r: Json, p: Seq<Segment>, v: Json)
    requires
        !keeps_container(get_path(r, p), v),
    ensures
        get_path(set_path(r, p, v), p) == Some(v),
    decreases p.len(),
{
    if p.len() > 0 {
        let rest = p.drop_first();
        match p[0] {
            Segment::Property(k) => {
                let m = members(r);
                match key_index(m, k) {
                    Some(i) => {
                        lemma_key_index_char(m, k);
                        assert(r is Object);
                        lemma_read_after_write(m[i].1, rest, v);
                        lemma_key_index_update(m, k, i, set_path(m[i].1, rest, v));
                    },
                    None => {
                        lemma_read_after_write(Json::Null, rest, v);
                        lemma_key_index_push(m, k, set_path(Json::Null, rest, v));
                    },
                }
            },
            Segment::Index(i) => {
                let a = pad_nulls(elements(r), i + 1);
                if r is Array && i < elements(r).len() {
                    assert(a[i as int] == elements(r)[i as int]);
                } else {
                    assert(a[i as int] == Json::Null);
                    if rest.len() > 0 {
                        assert(get_path(Json::Null, rest) is None);
                    }
                }
                lemma_read_after_write(a[i as int], rest, v);
            },
        }
    }
}

/// Assigning an empty object where an object stands, or an empty array where an array
/// stands, changes nothing.
pub proof fn lemma_empty_container_keeps(r: Json, p: Seq<Segment>, v: Json)
    requires
        keeps_container(get_path(r, p), v),
    ensures
        set_path(r, p, v) == r,
    decreases p.len(),
{
    if p.len() > 0 {
        let rest = p.drop_first();
        match p[0] {
            Segment::Property(k) => {
                let m = members(r);
                let i = key_index(m, k).unwrap();
                lemma_key_index_char(m, k);
                lemma_empty_container_keeps(m[i].1, rest, v);
                assert(m.update(i, (k, m[i].1)) =~= m);
            },
            Segment::Index(i) => {
                let a = elements(r);
                assert(pad_nulls(a, i + 1) == a);
                lemma_empty_container_keeps(a[i as int], rest, v);
                assert(a.update(i as int, a[i as int]) =~= a);
            },
        }
    }
}

/// Assigning at an index at or past the end of an array fills the gap with nulls.
pub proof fn lemma_index_pads_with_nulls(a: Seq<Json>, i: nat, v: Json)
    requires
        a.len() <= i,
    ensures
        set_path(Json::Array(a), seq![Segment::Index(i)], v) == Json::Array(
            a + Seq::new((i - a.len()) as nat, |_k: int| Json::Null) + seq![v],
        ),
{
    let p = seq![Segment::Index(i)];
    let padded = pad_nulls(a, i + 1);
    assert(p.drop_first() =~= Seq::<Segment>::empty());
    assert(set_path(Json::Null, p.drop_first(), v) == v);
    assert(padded.update(i as int, v) =~= a + Seq::new((i - a.len()) as nat, |_k: int| Json::Null)
        + seq![v]);
}

/// The paths `p` and `q` part somewhere: at some step they name different members or
/// elements, or one names a member where the other names an element.
pub open spec fn diverge(p: Seq<Segment>, q: Seq<Segment>) -> bool
    decreases p.len(),
{
    p.len() > 0 && q.len() > 0 && (p[0] != q[0] || diverge(p.drop_first(), q.drop_first()))
}

/// Members with the same names in the same order find every name at the same index.
proof fn lemma_key_index_same_names(
    m: Seq<(Seq<char>, Json)>,
    m2: Seq<(Seq<char>, Json)>,
    k: Seq<char>,
)
    requires
        m.len() == m2.len(),
        forall|j: int| 0 <= j < m.len() ==> #[trigger] m[j].0 == m2[j].0,
    ensures
        key_index(m, k) == key_index(m2, k),
{
    lemma_key_index_char(m, k);
    match key_index(m, k) {
        Some(i) => {
            assert(m2[i].0 == m[i].0);
            assert forall|l: int| 0 <= l < i implies m2[l].0 != k by {
                assert(m2[l].0 == m[l].0);
            }
        },
        None => {
            assert forall|l: int| 0 <= l < m2.len() implies m2[l].0 != k by {
                assert(m2[l].0 == m[l].0);
            }
        },
    }
    lemma_key_index_from_facts(m2, k, key_index(m, k));
}

/// Assigning at a place that exists leaves what is read at every path that parts from it
/// unchanged.
pub proof fn lemma_write_keeps_others(r: Json, p: Seq<Segment>, v: Json, q: Seq<Segment>)
    requires
        get_path(r, p) is Some,
        diverge(p, q),
    ensures
        get_path(set_path(r, p, v), q) == get_path(r, q),
    decreases p.len(),
{
    let rest = p.drop_first();
    let qrest = q.drop_first();
    match p[0] {
        Segment::Property(k) => {
            let m = members(r);
            let i = key_index(m, k).unwrap();
            lemma_key_index_char(m, k);
            let x = set_path(m[i].1, rest, v);
            let m2 = m.update(i, (k, x));
            assert(set_path(r, p, v) == Json::Object(m2));
            assert forall|j: int| 0 <= j < m.len() implies #[trigger] m[j].0 == m2[j].0 by {}
            if p[0] == q[0] {
                lemma_key_index_update(m, k, i, x);
                lemma_write_keeps_others(m[i].1, rest, v, qrest);
            } else {
                match q[0] {
                    Segment::Property(k2) => {
                        lemma_key_index_same_names(m, m2, k2);
                        lemma_key_index_char(m, k2);
                        match key_index(m, k2) {
                            Some(j) => {
                                assert(j != i);
                                assert(m2[j] == m[j]);
                            },
                            None => {},
                        }
                    },
                    Segment::Index(_) => {},
                }
            }
        },
        Segment::Index(i) => {
            let a = elements(r);
            assert(pad_nulls(a, i + 1) == a);
            let x = set_path(a[i as int], rest, v);
            let a2 = a.update(i as int, x);
            assert(set_path(r, p, v) == Json::Array(a2));
            if p[0] == q[0] {
                lemma_write_keeps_others(a[i as int], rest, v, qrest);
            } else {
                match q[0] {
                    Segment::Index(i2) => {
                        if i2 < a.len() {
                            assert(a2[i2 as int] == a[i2 as int]);
                        }
                    },
                    Segment::Property(_) => {},
                }
            }
        },
    }
}

} // verus!
