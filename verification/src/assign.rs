//! What a sequence of assignments does to a JSON value: the assignments that the gron
//! text of a value makes rebuild that value.
use vstd::prelude::*;

use crate::gron::empty_like;
use crate::json::{elements, key_index, key_index_from, members, pad_nulls, set_path, Json};
use crate::path::Segment;

verus! {

/// Every object in `v` names each member once, and every index of every array in `v`
/// fits in `usize`.
pub open spec fn well_formed(v: Json) -> bool
    decreases v, 0int,
{
    match v {
        Json::Object(m) => members_well_formed(m, 0),
        Json::Array(a) => a.len() <= usize::MAX + 1 && elements_well_formed(a, 0),
        _ => true,
    }
}

pub open spec fn members_well_formed(m: Seq<(Seq<char>, Json)>, i: int) -> bool
    decreases m, m.len() - i,
{
    !(0 <= i < m.len()) || (key_index(m.take(i), m[i].0) is None && well_formed(m[i].1)
        && members_well_formed(m, i + 1))
}

pub open spec fn elements_well_formed(a: Seq<Json>, i: int) -> bool
    decreases a, a.len() - i,
{
    !(0 <= i < a.len()) || (well_formed(a[i]) && elements_well_formed(a, i + 1))
}

/// The assignments that the gron text of `v` at the path `q` makes, in order: `v` itself,
/// or the empty object or array, at `q`, then those of each member or element.
pub open spec fn assignments(v: Json, q: Seq<Segment>) -> Seq<(Seq<Segment>, Json)>
    decreases v, 0int,
{
    seq![(q, empty_like(v))] + match v {
        Json::Object(m) => member_assignments(m, q, 0),
        Json::Array(a) => element_assignments(a, q, 0),
        _ => Seq::empty(),
    }
}

pub open spec fn member_assignments(m: Seq<(Seq<char>, Json)>, q: Seq<Segment>, i: int) -> Seq<
    (Seq<Segment>, Json),
>
    decreases m, m.len() - i,
{
    if !(0 <= i < m.len()) {
        Seq::empty()
    } else {
        assignments(m[i].1, q.push(Segment::Property(m[i].0))) + member_assignments(m, q, i + 1)
    }
}

pub open spec fn element_assignments(a: Seq<Json>, q: Seq<Segment>, i: int) -> Seq<
    (Seq<Segment>, Json),
>
    decreases a, a.len() - i,
{
    if !(0 <= i < a.len()) {
        Seq::empty()
    } else {
        assignments(a[i], q.push(Segment::Index(i as nat))) + element_assignments(a, q, i + 1)
    }
}

/// `r` after the assignments `asg`, in order.
pub open spec fn apply_all(r: Json, asg: Seq<(Seq<Segment>, Json)>) -> Json
    decreases asg.len(),
{
    if asg.len() == 0 {
        r
    } else {
        apply_all(set_path(r, asg[0].0, asg[0].1), asg.drop_first())
    }
}

/// The place at `q` in `r` is free: every step but the last leads through an existing
/// member or element, the last names a member that does not exist yet or the element
/// just after the end of its array; at the root, `r` is neither object nor array.
pub open spec fn slot_empty(r: Json, q: Seq<Segment>) -> bool
    decreases q.len(),
{
    if q.len() == 0 {
        !(r is Object) && !(r is Array)
    } else {
        match q[0] {
            Segment::Property(p) => r is Object && match key_index(members(r), p) {
                None => q.len() == 1,
                Some(i) => q.len() > 1 && slot_empty(members(r)[i].1, q.drop_first()),
            },
            Segment::Index(i) => r is Array && if q.len() == 1 {
                elements(r).len() == i
            } else {
                i < elements(r).len() && slot_empty(elements(r)[i as int], q.drop_first())
            },
        }
    }
}

proof fn lemma_key_index_from_char(m: Seq<(Seq<char>, Json)>, k: Seq<char>, i: int)
    requires
        0 <= i <= m.len(),
    ensures
        match key_index_from(m, k, i) {
            Some(j) => i <= j < m.len() && m[j].0 == k && forall|l: int|
                i <= l < j ==> m[l].0 != k,
            None => forall|l: int| i <= l < m.len() ==> m[l].0 != k,
        },
    decreases m.len() - i,
{
    if i < m.len() && m[i].0 != k {
        lemma_key_index_from_char(m, k, i + 1);
    }
}

/// `key_index(m, k)` is the first index whose name is `k`.
pub(crate) proof fn lemma_key_index_char(m: Seq<(Seq<char>, Json)>, k: Seq<char>)
    ensures
        match key_index(m, k) {
            Some(j) => 0 <= j < m.len() && m[j].0 == k && forall|l: int| 0 <= l < j ==> m[l].0 != k,
            None => forall|l: int| 0 <= l < m.len() ==> m[l].0 != k,
        },
{
    lemma_key_index_from_char(m, k, 0);
}

/// A name that occurs nowhere has no index; one that occurs first at `j` has index `j`.
pub(crate) proof fn lemma_key_index_from_facts(m: Seq<(Seq<char>, Json)>, k: Seq<char>, j: Option<int>)
    requires
        match j {
            Some(j) => 0 <= j < m.len() && m[j].0 == k && forall|l: int| 0 <= l < j ==> m[l].0 != k,
            None => forall|l: int| 0 <= l < m.len() ==> m[l].0 != k,
        },
    ensures
        key_index(m, k) == j,
{
    lemma_key_index_char(m, k);
    match key_index(m, k) {
        Some(a) => {
            match j {
                Some(b) => {
                    if a < b {
                        assert(m[a].0 != k);
                    } else if b < a {
                        assert(m[b].0 != k);
                    }
                },
                None => {
                    assert(m[a].0 != k);
                },
            }
        },
        None => {
            match j {
                Some(b) => {
                    assert(m[b].0 != k);
                },
                None => {},
            }
        },
    }
}

pub proof fn lemma_apply_all_concat(
    r: Json,
    a: Seq<(Seq<Segment>, Json)>,
    b: Seq<(Seq<Segment>, Json)>,
)
    ensures
        apply_all(r, a + b) == apply_all(apply_all(r, a), b),
    decreases a.len(),
{
    if a.len() == 0 {
        assert(a + b =~= b);
    } else {
        assert((a + b).drop_first() =~= a.drop_first() + b);
        assert((a + b)[0] == a[0]);
        lemma_apply_all_concat(set_path(r, a[0].0, a[0].1), a.drop_first(), b);
    }
}

/// Filling a free place with an object, then adding a member named `k` to it, is the
/// same as filling the place with the object that already holds that member; and the
/// member's place is free in between.
proof fn lemma_slot_object(
    r: Json,
    q: Seq<Segment>,
    ms: Seq<(Seq<char>, Json)>,
    k: Seq<char>,
    x: Json,
)
    requires
        slot_empty(r, q),
        key_index(ms, k) is None,
    ensures
        slot_empty(set_path(r, q, Json::Object(ms)), q.push(Segment::Property(k))),
        set_path(set_path(r, q, Json::Object(ms)), q.push(Segment::Property(k)), x) == set_path(
            r,
            q,
            Json::Object(ms.push((k, x))),
        ),
    decreases q.len(),
{
    let kq = q.push(Segment::Property(k));
    assert(kq[q.len() as int] == Segment::Property(k));
    if q.len() == 0 {
        assert(kq.drop_first() =~= Seq::<Segment>::empty());
        lemma_key_index_char(ms, k);
        lemma_key_index_from_facts(ms.push((k, x)), k, Some(ms.len() as int));
        assert(set_path(Json::Null, kq.drop_first(), x) == x);
    } else {
        let rest = q.drop_first();
        let krest = rest.push(Segment::Property(k));
        let full = Json::Object(ms.push((k, x)));
        assert(kq.drop_first() =~= krest);
        assert(kq[0] == q[0]);
        match q[0] {
            Segment::Property(p) => {
                let m = members(r);
                lemma_key_index_char(m, p);
                match key_index(m, p) {
                    None => {
                        assert(rest =~= Seq::<Segment>::empty());
                        let y = set_path(Json::Null, rest, Json::Object(ms));
                        assert(y == Json::Object(ms));
                        let m2 = m.push((p, y));
                        lemma_key_index_from_facts(m2, p, Some(m.len() as int));
                        lemma_slot_object(Json::Null, rest, ms, k, x);
                        let m3 = m.push((p, set_path(Json::Null, rest, full)));
                        assert(m2.update(m.len() as int, (p, set_path(y, krest, x))) =~= m3);
                    },
                    Some(i) => {
                        let y = set_path(m[i].1, rest, Json::Object(ms));
                        let m2 = m.update(i, (p, y));
                        lemma_key_index_from_facts(m2, p, Some(i));
                        lemma_slot_object(m[i].1, rest, ms, k, x);
                        assert(m2.update(i, (p, set_path(y, krest, x))) =~= m.update(
                            i,
                            (p, set_path(m[i].1, rest, full)),
                        ));
                    },
                }
            },
            Segment::Index(i) => {
                let a = elements(r);
                if q.len() == 1 {
                    assert(rest =~= Seq::<Segment>::empty());
                    let pa = pad_nulls(a, i + 1);
                    assert(pa =~= a.push(Json::Null));
                    let a2 = pa.update(i as int, Json::Object(ms));
                    assert(pad_nulls(a2, i + 1) == a2);
                    lemma_slot_object(Json::Null, rest, ms, k, x);
                    assert(a2.update(i as int, set_path(a2[i as int], krest, x)) =~= pa.update(
                        i as int,
                        set_path(pa[i as int], rest, full),
                    ));
                } else {
                    assert(pad_nulls(a, i + 1) == a);
                    let y = set_path(a[i as int], rest, Json::Object(ms));
                    let a2 = a.update(i as int, y);
                    assert(pad_nulls(a2, i + 1) == a2);
                    lemma_slot_object(a[i as int], rest, ms, k, x);
                    assert(a2.update(i as int, set_path(y, krest, x)) =~= a.update(
                        i as int,
                        set_path(a[i as int], rest, full),
                    ));
                }
            },
        }
    }
}

/// Filling a free place with an array, then adding an element at its end, is the same
/// as filling the place with the array that already holds that element; and the
/// element's place is free in between.
proof fn lemma_slot_array(r: Json, q: Seq<Segment>, es: Seq<Json>, x: Json)
    requires
        slot_empty(r, q),
    ensures
        slot_empty(set_path(r, q, Json::Array(es)), q.push(Segment::Index(es.len()))),
        set_path(set_path(r, q, Json::Array(es)), q.push(Segment::Index(es.len())), x) == set_path(
            r,
            q,
            Json::Array(es.push(x)),
        ),
    decreases q.len(),
{
    let kq = q.push(Segment::Index(es.len()));
    assert(kq[q.len() as int] == Segment::Index(es.len()));
    if q.len() == 0 {
        assert(kq.drop_first() =~= Seq::<Segment>::empty());
        assert(pad_nulls(es, es.len() + 1) =~= es.push(Json::Null));
        assert(set_path(Json::Null, kq.drop_first(), x) == x);
        assert(es.push(Json::Null).update(es.len() as int, x) =~= es.push(x));
    } else {
        let rest = q.drop_first();
        let irest = rest.push(Segment::Index(es.len()));
        let full = Json::Array(es.push(x));
        assert(kq.drop_first() =~= irest);
        assert(kq[0] == q[0]);
        match q[0] {
            Segment::Property(p) => {
                let m = members(r);
                lemma_key_index_char(m, p);
                match key_index(m, p) {
                    None => {
                        assert(rest =~= Seq::<Segment>::empty());
                        let y = set_path(Json::Null, rest, Json::Array(es));
                        let m2 = m.push((p, y));
                        lemma_key_index_from_facts(m2, p, Some(m.len() as int));
                        lemma_slot_array(Json::Null, rest, es, x);
                        assert(m2.update(m.len() as int, (p, set_path(y, irest, x))) =~= m.push(
                            (p, set_path(Json::Null, rest, full)),
                        ));
                    },
                    Some(i) => {
                        let y = set_path(m[i].1, rest, Json::Array(es));
                        let m2 = m.update(i, (p, y));
                        lemma_key_index_from_facts(m2, p, Some(i));
                        lemma_slot_array(m[i].1, rest, es, x);
                        assert(m2.update(i, (p, set_path(y, irest, x))) =~= m.update(
                            i,
                            (p, set_path(m[i].1, rest, full)),
                        ));
                    },
                }
            },
            Segment::Index(i) => {
                let a = elements(r);
                if q.len() == 1 {
                    assert(rest =~= Seq::<Segment>::empty());
                    let pa = pad_nulls(a, i + 1);
                    assert(pa =~= a.push(Json::Null));
                    let a2 = pa.update(i as int, Json::Array(es));
                    assert(pad_nulls(a2, i + 1) == a2);
                    lemma_slot_array(Json::Null, rest, es, x);
                    assert(a2.update(i as int, set_path(a2[i as int], irest, x)) =~= pa.update(
                        i as int,
                        set_path(pa[i as int], rest, full),
                    ));
                } else {
                    assert(pad_nulls(a, i + 1) == a);
                    let y = set_path(a[i as int], rest, Json::Array(es));
                    let a2 = a.update(i as int, y);
                    assert(pad_nulls(a2, i + 1) == a2);
                    lemma_slot_array(a[i as int], rest, es, x);
                    assert(a2.update(i as int, set_path(y, irest, x)) =~= a.update(
                        i as int,
                        set_path(a[i as int], rest, full),
                    ));
                }
            },
        }
    }
}

/// The assignments of the gron text of `v` at a free place `q` fill that place with `v`.
pub proof fn lemma_assignments(v: Json, q: Seq<Segment>, r: Json)
    requires
        slot_empty(r, q),
        well_formed(v),
    ensures
        apply_all(r, assignments(v, q)) == set_path(r, q, v),
    decreases v, 0int,
{
    let first = seq![(q, empty_like(v))];
    assert(first.drop_first() =~= Seq::<(Seq<Segment>, Json)>::empty());
    assert(first[0] == (q, empty_like(v)));
    assert(apply_all(set_path(r, q, empty_like(v)), first.drop_first()) == set_path(
        r,
        q,
        empty_like(v),
    ));
    assert(apply_all(r, first) == set_path(r, q, empty_like(v)));
    match v {
        Json::Object(m) => {
            lemma_apply_all_concat(r, first, member_assignments(m, q, 0));
            assert(m.take(0) =~= Seq::<(Seq<char>, Json)>::empty());
            lemma_member_assignments(m, q, r, 0);
        },
        Json::Array(a) => {
            lemma_apply_all_concat(r, first, element_assignments(a, q, 0));
            assert(a.take(0) =~= Seq::<Json>::empty());
            lemma_element_assignments(a, q, r, 0);
        },
        _ => {
            assert(assignments(v, q) =~= first);
        },
    }
}

proof fn lemma_member_assignments(m: Seq<(Seq<char>, Json)>, q: Seq<Segment>, r: Json, i: int)
    requires
        slot_empty(r, q),
        0 <= i <= m.len(),
        members_well_formed(m, i),
    ensures
        apply_all(set_path(r, q, Json::Object(m.take(i))), member_assignments(m, q, i))
            == set_path(r, q, Json::Object(m)),
    decreases m, m.len() - i,
{
    if i == m.len() {
        assert(m.take(i) =~= m);
    } else {
        let cur = set_path(r, q, Json::Object(m.take(i)));
        let kq = q.push(Segment::Property(m[i].0));
        lemma_slot_object(r, q, m.take(i), m[i].0, m[i].1);
        lemma_assignments(m[i].1, kq, cur);
        lemma_apply_all_concat(cur, assignments(m[i].1, kq), member_assignments(m, q, i + 1));
        assert(m.take(i).push((m[i].0, m[i].1)) =~= m.take(i + 1));
        lemma_member_assignments(m, q, r, i + 1);
    }
}

proof fn lemma_element_assignments(a: Seq<Json>, q: Seq<Segment>, r: Json, i: int)
    requires
        slot_empty(r, q),
        0 <= i <= a.len(),
        elements_well_formed(a, i),
    ensures
        apply_all(set_path(r, q, Json::Array(a.take(i))), element_assignments(a, q, i)) == set_path(
            r,
            q,
            Json::Array(a),
        ),
    decreases a, a.len() - i,
{
    if i == a.len() {
        assert(a.take(i) =~= a);
    } else {
        let cur = set_path(r, q, Json::Array(a.take(i)));
        let kq = q.push(Segment::Index(i as nat));
        assert(a.take(i).len() == i);
        lemma_slot_array(r, q, a.take(i), a[i]);
        lemma_assignments(a[i], kq, cur);
        lemma_apply_all_concat(cur, assignments(a[i], kq), element_assignments(a, q, i + 1));
        assert(a.take(i).push(a[i]) =~= a.take(i + 1));
        lemma_element_assignments(a, q, r, i + 1);
    }
}

/// The assignments of the gron text of a well-formed value `v`, applied to null, give `v`.
pub proof fn lemma_assignments_rebuild(v: Json)
    requires
        well_formed(v),
    ensures
        apply_all(Json::Null, assignments(v, Seq::empty())) == v,
{
    lemma_assignments(v, Seq::empty(), Json::Null);
}

/// The member at `j` is well-formed and named by no member before it.
pub open spec fn member_ok(m: Seq<(Seq<char>, Json)>, j: int) -> bool {
    key_index(m.take(j), m[j].0) is None && well_formed(m[j].1)
}

proof fn lemma_members_well_formed_iff(m: Seq<(Seq<char>, Json)>, i: int)
    requires
        0 <= i,
    ensures
        members_well_formed(m, i) <==> forall|j: int|
            i <= j < m.len() ==> #[trigger] member_ok(m, j),
    decreases m.len() - i,
{
    if i < m.len() {
        lemma_members_well_formed_iff(m, i + 1);
        if forall|j: int| i <= j < m.len() ==> #[trigger] member_ok(m, j) {
            assert(member_ok(m, i));
        }
        if members_well_formed(m, i) {
            assert(member_ok(m, i));
            assert forall|j: int| i <= j < m.len() implies #[trigger] member_ok(m, j) by {
                if j > i {
                    assert(i + 1 <= j);
                }
            }
        }
    }
}

proof fn lemma_elements_well_formed_iff(a: Seq<Json>, i: int)
    requires
        0 <= i,
    ensures
        elements_well_formed(a, i) <==> forall|j: int|
            i <= j < a.len() ==> #[trigger] well_formed(a[j]),
    decreases a.len() - i,
{
    if i < a.len() {
        lemma_elements_well_formed_iff(a, i + 1);
        if forall|j: int| i <= j < a.len() ==> #[trigger] well_formed(a[j]) {
            assert(well_formed(a[i]));
        }
        if elements_well_formed(a, i) {
            assert forall|j: int| i <= j < a.len() implies #[trigger] well_formed(a[j]) by {
                if j > i {
                    assert(i + 1 <= j);
                }
            }
        }
    }
}

/// The members of a well-formed value are well-formed and named once each.
proof fn lemma_members_of_well_formed(r: Json)
    requires
        well_formed(r),
    ensures
        forall|j: int| 0 <= j < members(r).len() ==> #[trigger] member_ok(members(r), j),
{
    lemma_members_well_formed_iff(members(r), 0);
}

/// Names that are unchanged, in the same order, are found at the same indices.
proof fn lemma_key_index_names(m: Seq<(Seq<char>, Json)>, m2: Seq<(Seq<char>, Json)>, k: Seq<char>)
    requires
        m.len() == m2.len(),
        forall|j: int| 0 <= j < m.len() ==> #[trigger] m[j].0 == m2[j].0,
    ensures
        key_index(m, k) == key_index(m2, k),
{
    lemma_key_index_char(m, k);
    match key_index(m, k) {
        Some(i) => {
            assert(m2[i].0 == m[i].0);
            assert forall|l: int| 0 <= l < i implies m2[l].0 != k by {
                assert(m2[l].0 == m[l].0);
            }
        },
        None => {
            assert forall|l: int| 0 <= l < m2.len() implies m2[l].0 != k by {
                assert(m2[l].0 == m[l].0);
            }
        },
    }
    lemma_key_index_from_facts(m2, k, key_index(m, k));
}

/// Assigning a well-formed value at a path in a well-formed value gives a well-formed
/// value.
pub proof fn lemma_set_path_well_formed(r: Json, p: Seq<Segment>, v: Json)
    requires
        well_formed(r),
        well_formed(v),
        forall|j: int| 0 <= j < p.len() ==> (#[trigger] p[j] matches Segment::Index(i) ==> i
            <= usize::MAX),
    ensures
        well_formed(set_path(r, p, v)),
    decreases p.len(),
{
    if p.len() > 0 {
        let rest = p.drop_first();
        assert forall|j: int| 0 <= j < rest.len() implies (#[trigger] rest[j] matches
            Segment::Index(i) ==> i <= usize::MAX) by {
            assert(rest[j] == p[j + 1]);
        }
        match p[0] {
            Segment::Property(k) => {
                let m = members(r);
                lemma_members_of_well_formed(r);
                let m2 = match key_index(m, k) {
                    Some(i) => {
                        lemma_key_index_char(m, k);
                        assert(member_ok(m, i));
                        lemma_set_path_well_formed(m[i].1, rest, v);
                        m.update(i, (k, set_path(m[i].1, rest, v)))
                    },
                    None => {
                        lemma_set_path_well_formed(Json::Null, rest, v);
                        m.push((k, set_path(Json::Null, rest, v)))
                    },
                };
                assert(set_path(r, p, v) == Json::Object(m2));
                assert forall|j: int| 0 <= j < m2.len() implies #[trigger] member_ok(m2, j) by {
                    match key_index(m, k) {
                        Some(i) => {
                            assert(member_ok(m, j));
                            let before = m.take(j);
                            let before2 = m2.take(j);
                            assert(before2.len() == before.len());
                            assert forall|l: int| 0 <= l < before.len() implies
                                #[trigger] before[l].0 == before2[l].0 by {}
                            lemma_key_index_names(before, before2, m2[j].0);
                        },
                        None => {
                            if j < m.len() {
                                assert(member_ok(m, j));
                                assert(m2.take(j) =~= m.take(j));
                            } else {
                                assert(m2.take(j) =~= m);
                            }
                        },
                    }
                }
                lemma_members_well_formed_iff(m2, 0);
            },
            Segment::Index(i) => {
                let a0 = elements(r);
                let a = pad_nulls(a0, i + 1);
                lemma_elements_well_formed_iff(a0, 0);
                assert forall|j: int| 0 <= j < a.len() implies #[trigger] well_formed(a[j]) by {
                    if j < a0.len() {
                        assert(a[j] == a0[j]);
                    } else {
                        assert(a[j] == Json::Null);
                    }
                }
                lemma_set_path_well_formed(a[i as int], rest, v);
                let a2 = a.update(i as int, set_path(a[i as int], rest, v));
                assert forall|j: int| 0 <= j < a2.len() implies #[trigger] well_formed(a2[j]) by {
                    if j != i {
                        assert(a2[j] == a[j]);
                    }
                }
                lemma_elements_well_formed_iff(a2, 0);
            },
        }
    }
}

} // verus!
