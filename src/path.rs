use vstd::prelude::*;

use crate::node::{
    find_key, keys_of, lemma_position_absent, lemma_position_none, lemma_position_of,
    lemma_position_push_other, lemma_position_push, lemma_position_range,
    lemma_position_update, position_of, Doc, Node,
};

verus! {

/// The segments of a dotted path: the text split at every `.`.
pub open spec fn split_dots(s: Seq<char>) -> Seq<Seq<char>>
    decreases s.len(),
{
    if s.len() == 0 {
        seq![Seq::empty()]
    } else {
        let prev = split_dots(s.drop_last());
        if s.last() == '.' {
            prev.push(Seq::empty())
        } else {
            prev.update(prev.len() - 1, prev.last().push(s.last()))
        }
    }
}

pub proof fn lemma_split_nonempty(s: Seq<char>)
    ensures
        split_dots(s).len() >= 1,
    decreases s.len(),
{
    if s.len() > 0 {
        lemma_split_nonempty(s.drop_last());
    }
}

/// The document after writing the text `value` at the path `segs` into `d`;
/// `None` where the write would descend through a non-object or replace an object.
pub open spec fn write_doc(d: Doc, segs: Seq<Seq<char>>, value: Seq<char>) -> Option<Doc>
    decreases segs.len(),
{
    if segs.len() == 0 {
        None
    } else {
        match d {
            Doc::Object(es) => {
                let k = segs[0];
                let i = position_of(keys_of(es), k);
                if segs.len() == 1 {
                    if i < 0 {
                        Some(Doc::Object(es.push((k, Doc::Str(value)))))
                    } else if es[i].1 is Object {
                        None
                    } else {
                        Some(Doc::Object(es.update(i, (k, Doc::Str(value)))))
                    }
                } else {
                    let child = if i < 0 {
                        Doc::Object(Seq::empty())
                    } else {
                        es[i].1
                    };
                    match write_doc(child, segs.drop_first(), value) {
                        Some(c) => Some(
                            Doc::Object(
                                if i < 0 {
                                    es.push((k, c))
                                } else {
                                    es.update(i, (k, c))
                                },
                            ),
                        ),
                        None => None,
                    }
                }
            },
            _ => None,
        }
    }
}

/// The value found by following the path `segs` from `d`.
pub open spec fn read_doc(d: Doc, segs: Seq<Seq<char>>) -> Option<Doc>
    decreases segs.len(),
{
    if segs.len() == 0 {
        Some(d)
    } else {
        match d {
            Doc::Object(es) => {
                let i = position_of(keys_of(es), segs[0]);
                if i < 0 {
                    None
                } else {
                    read_doc(es[i].1, segs.drop_first())
                }
            },
            _ => None,
        }
    }
}

/// The value under `k` in the object `d`, or an empty object where there is none.
pub open spec fn child_at(d: Doc, k: Seq<char>) -> Doc {
    let es = d->Object_0;
    let i = position_of(keys_of(es), k);
    if i < 0 {
        Doc::Object(Seq::empty())
    } else {
        es[i].1
    }
}

/// A successful write yields an object holding, under the first segment, the
/// value or the child that the rest of the path wrote.
proof fn lemma_write_step(d: Doc, segs: Seq<Seq<char>>, value: Seq<char>)
    requires
        segs.len() >= 1,
        write_doc(d, segs, value) is Some,
    ensures
        d is Object,
        write_doc(d, segs, value)->Some_0 is Object,
        ({
            let es2 = write_doc(d, segs, value)->Some_0->Object_0;
            let p = position_of(keys_of(es2), segs[0]);
            &&& p >= 0
            &&& segs.len() == 1 ==> es2[p].1 == Doc::Str(value)
            &&& segs.len() > 1 ==> write_doc(child_at(d, segs[0]), segs.drop_first(), value)
                == Some(es2[p].1)
        }),
{
    let es = d->Object_0;
    let k = segs[0];
    let i = position_of(keys_of(es), k);
    lemma_position_range(keys_of(es), k);
    let x = if segs.len() == 1 {
        Doc::Str(value)
    } else {
        write_doc(child_at(d, k), segs.drop_first(), value)->Some_0
    };
    if i < 0 {
        lemma_position_push(es, k, x);
    } else {
        lemma_position_update(es, k, x);
    }
}

/// Writing a value and reading it back along the same path gives the value.
pub proof fn lemma_read_after_write(d: Doc, segs: Seq<Seq<char>>, value: Seq<char>)
    requires
        segs.len() >= 1,
        write_doc(d, segs, value) is Some,
    ensures
        read_doc(write_doc(d, segs, value)->Some_0, segs) == Some(Doc::Str(value)),
    decreases segs.len(),
{
    lemma_write_step(d, segs, value);
    let es2 = write_doc(d, segs, value)->Some_0->Object_0;
    let p = position_of(keys_of(es2), segs[0]);
    if segs.len() > 1 {
        lemma_read_after_write(child_at(d, segs[0]), segs.drop_first(), value);
    } else {
        assert(segs.drop_first().len() == 0);
    }
    assert(read_doc(es2[p].1, segs.drop_first()) == Some(Doc::Str(value)));
}

/// Writing into an object along a path of new keys never conflicts.
pub proof fn lemma_write_fresh(segs: Seq<Seq<char>>, value: Seq<char>)
    requires
        segs.len() >= 1,
    ensures
        write_doc(Doc::Object(Seq::empty()), segs, value) is Some,
    decreases segs.len(),
{
    let es = Seq::<(Seq<char>, Doc)>::empty();
    lemma_position_none(keys_of(es), segs[0]);
    if segs.len() > 1 {
        lemma_write_fresh(segs.drop_first(), value);
    }
}

/// Any dotted path written into an empty root reads back as the value written.
pub proof fn lemma_empty_root_round_trip(key: Seq<char>, value: Seq<char>)
    ensures
        write_doc(Doc::Object(Seq::empty()), split_dots(key), value) is Some,
        read_doc(
            write_doc(Doc::Object(Seq::empty()), split_dots(key), value)->Some_0,
            split_dots(key),
        ) == Some(Doc::Str(value)),
{
    lemma_split_nonempty(key);
    lemma_write_fresh(split_dots(key), value);
    lemma_read_after_write(Doc::Object(Seq::empty()), split_dots(key), value);
}

/// Once a value stands at a path, a longer path through it conflicts.
pub proof fn lemma_value_then_longer_conflicts(
    d: Doc,
    segs: Seq<Seq<char>>,
    value: Seq<char>,
    c: Seq<char>,
    other: Seq<char>,
)
    requires
        segs.len() >= 1,
        write_doc(d, segs, value) is Some,
    ensures
        write_doc(write_doc(d, segs, value)->Some_0, segs.push(c), other) is None,
    decreases segs.len(),
{
    lemma_write_step(d, segs, value);
    let long = segs.push(c);
    assert(long.drop_first() =~= segs.drop_first().push(c));
    assert(long[0] == segs[0]);
    assert(long.drop_first().len() >= 1);
    let es2 = write_doc(d, segs, value)->Some_0->Object_0;
    let p = position_of(keys_of(es2), segs[0]);
    if segs.len() > 1 {
        lemma_value_then_longer_conflicts(
            child_at(d, segs[0]),
            segs.drop_first(),
            value,
            c,
            other,
        );
    }
    assert(write_doc(es2[p].1, long.drop_first(), other) is None);
}

/// Once a longer path has been written, writing a value at its prefix conflicts.
pub proof fn lemma_longer_then_value_conflicts(
    d: Doc,
    segs: Seq<Seq<char>>,
    c: Seq<char>,
    value: Seq<char>,
    other: Seq<char>,
)
    requires
        segs.len() >= 1,
        write_doc(d, segs.push(c), value) is Some,
    ensures
        write_doc(write_doc(d, segs.push(c), value)->Some_0, segs, other) is None,
    decreases segs.len(),
{
    let long = segs.push(c);
    lemma_write_step(d, long, value);
    assert(long.drop_first() =~= segs.drop_first().push(c));
    assert(long[0] == segs[0]);
    if segs.len() == 1 {
        lemma_write_step(child_at(d, segs[0]), long.drop_first(), value);
    } else {
        lemma_longer_then_value_conflicts(
            child_at(d, segs[0]),
            segs.drop_first(),
            c,
            value,
            other,
        );
    }
}

/// Writing `a.b` and then `a.c` into an empty root gives one object `a`
/// holding both `b` and `c`, in that order.
pub proof fn lemma_shared_prefix(
    a: Seq<char>,
    b: Seq<char>,
    c: Seq<char>,
    v1: Seq<char>,
    v2: Seq<char>,
)
    requires
        b != c,
    ensures
        write_doc(Doc::Object(Seq::empty()), seq![a, b], v1) is Some,
        write_doc(
            write_doc(Doc::Object(Seq::empty()), seq![a, b], v1)->Some_0,
            seq![a, c],
            v2,
        ) == Some(Doc::Object(seq![(a, Doc::Object(seq![(b, Doc::Str(v1)), (c, Doc::Str(v2))]))])),
{
    let empty = Seq::<(Seq<char>, Doc)>::empty();
    lemma_position_none(keys_of(empty), a);
    lemma_position_none(keys_of(empty), b);
    assert(seq![a, b].drop_first() =~= seq![b]);
    assert(seq![a, c].drop_first() =~= seq![c]);
    let inner = seq![(b, Doc::Str(v1))];
    assert(keys_of(inner) =~= seq![b]);
    lemma_position_none(keys_of(inner), c);
    let outer = seq![(a, Doc::Object(inner))];
    assert(keys_of(outer) =~= seq![a]);
    lemma_position_of(keys_of(outer), a, 0);
    assert(empty.push((b, Doc::Str(v1))) =~= inner);
    assert(empty.push((a, Doc::Object(inner))) =~= outer);
    assert(write_doc(Doc::Object(empty), seq![b], v1) == Some(Doc::Object(inner)));
    assert(write_doc(Doc::Object(empty), seq![a, b], v1) == Some(Doc::Object(outer)));
    assert(inner.push((c, Doc::Str(v2))) =~= seq![(b, Doc::Str(v1)), (c, Doc::Str(v2))]);
    assert(write_doc(Doc::Object(inner), seq![c], v2) == Some(
        Doc::Object(seq![(b, Doc::Str(v1)), (c, Doc::Str(v2))]),
    ));
    assert(outer.update(0, (a, Doc::Object(seq![(b, Doc::Str(v1)), (c, Doc::Str(v2))])))
        =~= seq![(a, Doc::Object(seq![(b, Doc::Str(v1)), (c, Doc::Str(v2))]))]);
}

/// Writing `a.b` twice into an empty root keeps only the second value, under
/// a single key `b`.
pub proof fn lemma_last_write_wins(a: Seq<char>, b: Seq<char>, v1: Seq<char>, v2: Seq<char>)
    ensures
        write_doc(Doc::Object(Seq::empty()), seq![a, b], v1) is Some,
        write_doc(
            write_doc(Doc::Object(Seq::empty()), seq![a, b], v1)->Some_0,
            seq![a, b],
            v2,
        ) == Some(Doc::Object(seq![(a, Doc::Object(seq![(b, Doc::Str(v2))]))])),
{
    let empty = Seq::<(Seq<char>, Doc)>::empty();
    lemma_position_none(keys_of(empty), a);
    lemma_position_none(keys_of(empty), b);
    assert(seq![a, b].drop_first() =~= seq![b]);
    let inner = seq![(b, Doc::Str(v1))];
    assert(keys_of(inner) =~= seq![b]);
    lemma_position_of(keys_of(inner), b, 0);
    let outer = seq![(a, Doc::Object(inner))];
    assert(keys_of(outer) =~= seq![a]);
    lemma_position_of(keys_of(outer), a, 0);
    assert(empty.push((b, Doc::Str(v1))) =~= inner);
    assert(empty.push((a, Doc::Object(inner))) =~= outer);
    assert(write_doc(Doc::Object(empty), seq![b], v1) == Some(Doc::Object(inner)));
    assert(write_doc(Doc::Object(empty), seq![a, b], v1) == Some(Doc::Object(outer)));
    assert(inner.update(0, (b, Doc::Str(v2))) =~= seq![(b, Doc::Str(v2))]);
    assert(write_doc(Doc::Object(inner), seq![b], v2) == Some(
        Doc::Object(seq![(b, Doc::Str(v2))]),
    ));
    assert(outer.update(0, (a, Doc::Object(seq![(b, Doc::Str(v2))]))) =~= seq![
        (a, Doc::Object(seq![(b, Doc::Str(v2))])),
    ]);
}

/// A tree of objects with pairwise distinct keys whose leaves are all text.
pub open spec fn plain(d: Doc) -> bool
    decreases d,
{
    match d {
        Doc::Object(es) => {
            &&& forall|i: int, j: int|
                0 <= i < j < es.len() ==> #[trigger] es[i].0 != #[trigger] es[j].0
            &&& forall|i: int| 0 <= i < es.len() ==> plain(#[trigger] es[i].1)
        },
        Doc::Str(_) => true,
        _ => false,
    }
}

/// Writing text into a plain document keeps it plain.
pub proof fn lemma_write_keeps_plain(d: Doc, segs: Seq<Seq<char>>, value: Seq<char>)
    requires
        plain(d),
        write_doc(d, segs, value) is Some,
    ensures
        plain(write_doc(d, segs, value)->Some_0),
    decreases segs.len(),
{
    let es = d->Object_0;
    let k = segs[0];
    let i = position_of(keys_of(es), k);
    lemma_position_range(keys_of(es), k);
    let x = if segs.len() == 1 {
        Doc::Str(value)
    } else {
        write_doc(child_at(d, k), segs.drop_first(), value)->Some_0
    };
    if segs.len() > 1 {
        let empty = Seq::<(Seq<char>, Doc)>::empty();
        assert(plain(Doc::Object(empty)));
        lemma_write_keeps_plain(child_at(d, k), segs.drop_first(), value);
    }
    assert(plain(x));
    if i < 0 {
        let es2 = es.push((k, x));
        assert forall|a: int, b: int| 0 <= a < b < es2.len() implies #[trigger] es2[a].0
            != #[trigger] es2[b].0 by {
            if b == es.len() && es[a].0 == k {
                assert(keys_of(es)[a] == k);
                lemma_position_absent(keys_of(es), k, a);
            }
        }
        assert(forall|a: int| 0 <= a < es2.len() ==> plain(#[trigger] es2[a].1));
        assert(write_doc(d, segs, value) == Some(Doc::Object(es2)));
    } else {
        let es2 = es.update(i, (k, x));
        assert(keys_of(es)[i] == k);
        assert(forall|a: int| 0 <= a < es2.len() ==> plain(#[trigger] es2[a].1));
        assert(write_doc(d, segs, value) == Some(Doc::Object(es2)));
    }
}

/// Writing into a document whose objects have distinct keys keeps them distinct.
pub proof fn lemma_write_keeps_wf(d: Doc, segs: Seq<Seq<char>>, value: Seq<char>)
    requires
        d.wf(),
        write_doc(d, segs, value) is Some,
    ensures
        write_doc(d, segs, value)->Some_0.wf(),
    decreases segs.len(),
{
    let es = d->Object_0;
    let k = segs[0];
    let i = position_of(keys_of(es), k);
    lemma_position_range(keys_of(es), k);
    let x = if segs.len() == 1 {
        Doc::Str(value)
    } else {
        write_doc(child_at(d, k), segs.drop_first(), value)->Some_0
    };
    if segs.len() > 1 {
        let empty = Seq::<(Seq<char>, Doc)>::empty();
        assert(Doc::Object(empty).wf());
        lemma_write_keeps_wf(child_at(d, k), segs.drop_first(), value);
    }
    assert(x.wf());
    if i < 0 {
        let es2 = es.push((k, x));
        assert forall|a: int, b: int| 0 <= a < b < es2.len() implies #[trigger] es2[a].0
            != #[trigger] es2[b].0 by {
            if b == es.len() && es[a].0 == k {
                assert(keys_of(es)[a] == k);
                lemma_position_absent(keys_of(es), k, a);
            }
        }
        assert(forall|a: int| 0 <= a < es2.len() ==> (#[trigger] es2[a]).1.wf());
        assert(write_doc(d, segs, value) == Some(Doc::Object(es2)));
    } else {
        let es2 = es.update(i, (k, x));
        assert(keys_of(es)[i] == k);
        assert(forall|a: int| 0 <= a < es2.len() ==> (#[trigger] es2[a]).1.wf());
        assert(write_doc(d, segs, value) == Some(Doc::Object(es2)));
    }
}

/// Writing at `segs` in `d` meets a conflict: a proper prefix of the path
/// holds something other than an object, or the whole path holds an object.
pub open spec fn conflicts(d: Doc, segs: Seq<Seq<char>>) -> bool {
    ||| exists|n: int|
        0 <= n < segs.len() && #[trigger] read_doc(d, segs.take(n)) is Some && !(read_doc(
            d,
            segs.take(n),
        )->Some_0 is Object)
    ||| read_doc(d, segs) is Some && read_doc(d, segs)->Some_0 is Object
}

/// A write fails exactly when it meets a conflict.
pub proof fn lemma_write_fails_iff_conflict(d: Doc, segs: Seq<Seq<char>>, value: Seq<char>)
    requires
        segs.len() >= 1,
    ensures
        write_doc(d, segs, value) is None <==> conflicts(d, segs),
    decreases segs.len(),
{
    assert(segs.take(0) =~= Seq::<Seq<char>>::empty());
    if !(d is Object) {
        assert(read_doc(d, segs.take(0)) == Some(d));
        return;
    }
    let es = d->Object_0;
    let k = segs[0];
    let i = position_of(keys_of(es), k);
    let rest = segs.drop_first();
    lemma_position_range(keys_of(es), k);
    assert(read_doc(d, segs.take(0)) == Some(d));
    assert forall|n: int| 1 <= n <= segs.len() implies #[trigger] read_doc(d, segs.take(n)) == (
    if i < 0 {
        None
    } else {
        read_doc(es[i].1, rest.take(n - 1))
    }) by {
        assert(segs.take(n)[0] == k);
        assert(segs.take(n).drop_first() =~= rest.take(n - 1));
    }
    assert(segs.take(segs.len() as int) =~= segs);
    assert(rest.take(rest.len() as int) =~= rest);
    if segs.len() == 1 {
        if exists|n: int|
            0 <= n < segs.len() && #[trigger] read_doc(d, segs.take(n)) is Some && !(read_doc(
                d,
                segs.take(n),
            )->Some_0 is Object) {
            let n = choose|n: int|
                0 <= n < segs.len() && #[trigger] read_doc(d, segs.take(n)) is Some && !(read_doc(
                    d,
                    segs.take(n),
                )->Some_0 is Object);
            assert(n == 0);
        }
    } else if i < 0 {
        lemma_write_fresh(rest, value);
        if exists|n: int|
            0 <= n < segs.len() && #[trigger] read_doc(d, segs.take(n)) is Some && !(read_doc(
                d,
                segs.take(n),
            )->Some_0 is Object) {
            let n = choose|n: int|
                0 <= n < segs.len() && #[trigger] read_doc(d, segs.take(n)) is Some && !(read_doc(
                    d,
                    segs.take(n),
                )->Some_0 is Object);
            assert(n >= 1);
        }
    } else {
        let child = es[i].1;
        lemma_write_fails_iff_conflict(child, rest, value);
        assert(child_at(d, k) == child);
        if conflicts(d, segs) {
            if exists|n: int|
                0 <= n < segs.len() && #[trigger] read_doc(d, segs.take(n)) is Some && !(read_doc(
                    d,
                    segs.take(n),
                )->Some_0 is Object) {
                let n = choose|n: int|
                    0 <= n < segs.len() && #[trigger] read_doc(d, segs.take(n)) is Some && !(
                    read_doc(d, segs.take(n))->Some_0 is Object);
                assert(n >= 1);
                assert(read_doc(child, rest.take(n - 1)) is Some);
            }
            assert(conflicts(child, rest));
        }
        if conflicts(child, rest) {
            if exists|n: int|
                0 <= n < rest.len() && #[trigger] read_doc(child, rest.take(n)) is Some && !(
                read_doc(child, rest.take(n))->Some_0 is Object) {
                let n = choose|n: int|
                    0 <= n < rest.len() && #[trigger] read_doc(child, rest.take(n)) is Some && !(
                    read_doc(child, rest.take(n))->Some_0 is Object);
                assert(read_doc(d, segs.take(n + 1)) == read_doc(child, rest.take(n)));
            }
            assert(conflicts(d, segs));
        }
    }
}

/// `q` is a prefix of `segs` (possibly all of it).
pub open spec fn is_prefix(q: Seq<Seq<char>>, segs: Seq<Seq<char>>) -> bool {
    q.len() <= segs.len() && segs.take(q.len() as int) == q
}

/// The entries of `d2` are those of `d` with the entry under `k` placed at
/// `p`, which is `k`'s position in `d2`; entries under other keys keep theirs.
proof fn lemma_other_keys_kept(d: Doc, segs: Seq<Seq<char>>, value: Seq<char>, k2: Seq<char>)
    requires
        segs.len() >= 1,
        write_doc(d, segs, value) is Some,
        k2 != segs[0],
    ensures
        d is Object,
        ({
            let es = d->Object_0;
            let es2 = write_doc(d, segs, value)->Some_0->Object_0;
            let j = position_of(keys_of(es), k2);
            &&& position_of(keys_of(es2), k2) == j
            &&& j >= 0 ==> es2[j] == es[j]
        }),
{
    let es = d->Object_0;
    let k = segs[0];
    let i = position_of(keys_of(es), k);
    lemma_position_range(keys_of(es), k);
    lemma_position_range(keys_of(es), k2);
    let x = if segs.len() == 1 {
        Doc::Str(value)
    } else {
        write_doc(child_at(d, k), segs.drop_first(), value)->Some_0
    };
    if i < 0 {
        lemma_position_push_other(es, k, x, k2);
    } else {
        assert(keys_of(es.update(i, (k, x))) =~= keys_of(es));
    }
}

/// A successful write leaves every path that is not a prefix of its own
/// reading as before.
pub proof fn lemma_write_frame(d: Doc, segs: Seq<Seq<char>>, value: Seq<char>, q: Seq<Seq<char>>)
    requires
        segs.len() >= 1,
        write_doc(d, segs, value) is Some,
        !is_prefix(q, segs),
    ensures
        read_doc(write_doc(d, segs, value)->Some_0, q) == read_doc(d, q),
    decreases segs.len(),
{
    let d2 = write_doc(d, segs, value)->Some_0;
    let k = segs[0];
    assert(segs.take(0) =~= Seq::<Seq<char>>::empty());
    assert(q.len() >= 1) by {
        if q.len() == 0 {
            assert(q =~= segs.take(0));
        }
    }
    lemma_write_step(d, segs, value);
    let es = d->Object_0;
    let es2 = d2->Object_0;
    let i = position_of(keys_of(es), k);
    let p = position_of(keys_of(es2), k);
    lemma_position_range(keys_of(es), k);
    if q[0] != k {
        lemma_other_keys_kept(d, segs, value, q[0]);
        let j = position_of(keys_of(es), q[0]);
        if j >= 0 {
            assert(read_doc(d2, q) == read_doc(es2[j].1, q.drop_first()));
            assert(read_doc(d, q) == read_doc(es[j].1, q.drop_first()));
        }
    } else {
        let q1 = q.drop_first();
        let rest = segs.drop_first();
        assert(q1.len() >= 1) by {
            if q1.len() == 0 {
                assert(segs.take(1) =~= q);
            }
        }
        if segs.len() == 1 {
            assert(es2[p].1 == Doc::Str(value));
            if i >= 0 {
                assert(!(es[i].1 is Object));
                assert(read_doc(d, q) == read_doc(es[i].1, q1));
            }
            assert(read_doc(d2, q) == read_doc(Doc::Str(value), q1));
        } else {
            assert(!is_prefix(q1, rest)) by {
                if is_prefix(q1, rest) {
                    assert forall|j: int| 0 <= j < q.len() implies segs.take(q.len() as int)[j]
                        == q[j] by {
                        if j > 0 {
                            assert(rest.take(q1.len() as int)[j - 1] == q1[j - 1]);
                        }
                    }
                    assert(segs.take(q.len() as int) =~= q);
                }
            }
            lemma_write_frame(child_at(d, k), rest, value, q1);
            assert(read_doc(d2, q) == read_doc(es2[p].1, q1));
            if i >= 0 {
                assert(read_doc(d, q) == read_doc(es[i].1, q1));
            }
            if i < 0 {
                let empty = Seq::<(Seq<char>, Doc)>::empty();
                lemma_position_none(keys_of(empty), q1[0]);
            }
        }
    }
}

/// Writing at a path that already holds something other than an object
/// succeeds.
pub proof fn lemma_overwrite_succeeds(d: Doc, segs: Seq<Seq<char>>, value: Seq<char>)
    requires
        segs.len() >= 1,
        read_doc(d, segs) is Some,
        !(read_doc(d, segs)->Some_0 is Object),
    ensures
        write_doc(d, segs, value) is Some,
    decreases segs.len(),
{
    let es = d->Object_0;
    let k = segs[0];
    let i = position_of(keys_of(es), k);
    lemma_position_range(keys_of(es), k);
    if segs.len() == 1 {
        assert(segs.drop_first().len() == 0);
        assert(read_doc(d, segs) == Some(es[i].1));
    } else {
        lemma_overwrite_succeeds(es[i].1, segs.drop_first(), value);
        assert(child_at(d, k) == es[i].1);
    }
}

/// Overwriting a path that already holds a value keeps the keys, and their
/// order, of every object along the path.
pub proof fn lemma_overwrite_keeps_keys(d: Doc, segs: Seq<Seq<char>>, value: Seq<char>, n: int)
    requires
        segs.len() >= 1,
        write_doc(d, segs, value) is Some,
        read_doc(d, segs) is Some,
        0 <= n < segs.len(),
    ensures
        read_doc(d, segs.take(n)) is Some,
        read_doc(d, segs.take(n))->Some_0 is Object,
        read_doc(write_doc(d, segs, value)->Some_0, segs.take(n)) is Some,
        read_doc(write_doc(d, segs, value)->Some_0, segs.take(n))->Some_0 is Object,
        keys_of(read_doc(write_doc(d, segs, value)->Some_0, segs.take(n))->Some_0->Object_0)
            == keys_of(read_doc(d, segs.take(n))->Some_0->Object_0),
    decreases segs.len(),
{
    let d2 = write_doc(d, segs, value)->Some_0;
    let k = segs[0];
    let rest = segs.drop_first();
    lemma_write_step(d, segs, value);
    let es = d->Object_0;
    let i = position_of(keys_of(es), k);
    lemma_position_range(keys_of(es), k);
    assert(i >= 0);
    let x = if segs.len() == 1 {
        Doc::Str(value)
    } else {
        write_doc(child_at(d, k), rest, value)->Some_0
    };
    assert(d2 == Doc::Object(es.update(i, (k, x))));
    assert(keys_of(es.update(i, (k, x))) =~= keys_of(es));
    if n == 0 {
        assert(segs.take(0) =~= Seq::<Seq<char>>::empty());
    } else {
        assert(segs.take(n)[0] == k);
        assert(segs.take(n).drop_first() =~= rest.take(n - 1));
        lemma_overwrite_keeps_keys(es[i].1, rest, value, n - 1);
    }
}

/// What can go wrong while building a document.
#[derive(Debug, PartialEq, Eq)]
pub enum BuildError {
    /// A column of the table has no destination path in the mapping.
    Configuration(String),
    /// A path descends through a value that is not an object, or would
    /// replace an object by a value.
    StructuralConflict(String),
    /// The table cannot be read; the text says why.
    SourceFormat(String),
}

/// The model of a [`BuildError`].
pub enum Fault {
    Configuration(Seq<char>),
    StructuralConflict(Seq<char>),
    SourceFormat,
}

impl BuildError {
    pub open spec fn view(self) -> Fault {
        match self {
            BuildError::Configuration(c) => Fault::Configuration(c@),
            BuildError::StructuralConflict(p) => Fault::StructuralConflict(p@),
            BuildError::SourceFormat(_) => Fault::SourceFormat,
        }
    }
}

/// Splits a dotted path at every `.`.
pub fn split_path(key: &str) -> (r: Vec<String>)
    ensures
        r@.map_values(|s: String| s@) == split_dots(key@),
{
    let n = key.unicode_len();
    let mut segs: Vec<String> = Vec::new();
    let mut start: usize = 0;
    let mut i: usize = 0;
    assert(key@.subrange(0, 0) =~= Seq::<char>::empty());
    assert(split_dots(Seq::<char>::empty()) == seq![Seq::<char>::empty()]);
    assert(segs@.map_values(|s: String| s@).push(key@.subrange(0, 0)) =~= split_dots(
        key@.subrange(0, 0),
    ));
    while i < n
        invariant
            n == key@.len(),
            start <= i <= n,
            segs@.map_values(|s: String| s@).push(key@.subrange(start as int, i as int))
                == split_dots(key@.subrange(0, i as int)),
        decreases n - i,
    {
        let c = key.get_char(i);
        let ghost prefix = key@.subrange(0, i as int + 1);
        assert(prefix.drop_last() == key@.subrange(0, i as int));
        if c == '.' {
            let seg = key.substring_char(start, i).to_owned();
            segs.push(seg);
            start = i + 1;
            assert(key@.subrange(start as int, i as int + 1) =~= Seq::<char>::empty());
        } else {
            assert(key@.subrange(start as int, i as int + 1) =~= key@.subrange(
                start as int,
                i as int,
            ).push(c));
        }
        i = i + 1;
        assert(segs@.map_values(|s: String| s@).push(key@.subrange(start as int, i as int))
            =~= split_dots(key@.subrange(0, i as int)));
    }
    let last = key.substring_char(start, n).to_owned();
    segs.push(last);
    assert(key@.subrange(0, n as int) =~= key@);
    assert(segs@.map_values(|s: String| s@) =~= split_dots(key@));
    segs
}


/// The segments of `segs` from `pos` on, as text.
pub open spec fn segs_from(segs: Seq<String>, pos: int) -> Seq<Seq<char>> {
    segs.map_values(|s: String| s@).skip(pos)
}

proof fn lemma_object_keys(es: Vec<(String, Node)>)
    ensures
        Node::Object(es)@ is Object,
        keys_of(Node::Object(es)@->Object_0) == es@.map_values(|e: (String, Node)| e.0@),
{
    assert(keys_of(Node::Object(es)@->Object_0) =~= es@.map_values(|e: (String, Node)| e.0@));
}

/// Writes `value` at the path `segs[pos..]` into `node`; hands the node back
/// unchanged on a conflict.
fn write_segments(node: Node, segs: &Vec<String>, pos: usize, value: &str) -> (r: Result<
    Node,
    Node,
>)
    requires
        pos < segs@.len(),
    ensures
        match write_doc(node@, segs_from(segs@, pos as int), value@) {
            Some(d) => r is Ok && r->Ok_0@ == d,
            None => r is Err && r->Err_0@ == node@,
        },
    decreases segs@.len() - pos,
{
    let ghost path = segs_from(segs@, pos as int);
    let ghost d = node@;
    assert(path[0] == segs@[pos as int]@);
    assert(path.drop_first() =~= segs_from(segs@, pos as int + 1));
    match node {
        Node::Object(mut es) => {
            let ghost old_es = es;
            proof {
                lemma_object_keys(es);
                lemma_position_range(keys_of(d->Object_0), path[0]);
            }
            let idx = find_key(&es, &segs[pos]);
            if segs.len() - pos == 1 {
                match idx {
                    None => {
                        let leaf = Node::Str(value.to_owned());
                        assert(leaf@ == Doc::Str(value@));
                        es.push((segs[pos].clone(), leaf));
                        assert(Node::Object(es)@->Object_0 =~= d->Object_0.push(
                            (path[0], Doc::Str(value@)),
                        ));
                        Ok(Node::Object(es))
                    },
                    Some(i) => {
                        assert(d->Object_0[i as int].1 == es@[i as int].1@);
                        if matches!(es[i].1, Node::Object(_)) {
                            Err(Node::Object(es))
                        } else {
                            let leaf = Node::Str(value.to_owned());
                            assert(leaf@ == Doc::Str(value@));
                            es.set(i, (segs[pos].clone(), leaf));
                            assert(Node::Object(es)@->Object_0 =~= d->Object_0.update(
                                i as int,
                                (path[0], Doc::Str(value@)),
                            ));
                            Ok(Node::Object(es))
                        }
                    },
                }
            } else {
                match idx {
                    None => {
                        let fresh = Node::Object(Vec::new());
                        assert(fresh@->Object_0 =~= Seq::<(Seq<char>, Doc)>::empty());
                        match write_segments(fresh, segs, pos + 1, value) {
                            Ok(c) => {
                                es.push((segs[pos].clone(), c));
                                assert(Node::Object(es)@->Object_0 =~= d->Object_0.push(
                                    (path[0], c@),
                                ));
                                Ok(Node::Object(es))
                            },
                            Err(_) => Err(Node::Object(es)),
                        }
                    },
                    Some(i) => {
                        let (k, child) = es.remove(i);
                        assert(child@ == d->Object_0[i as int].1);
                        assert(k@ == path[0]);
                        match write_segments(child, segs, pos + 1, value) {
                            Ok(c) => {
                                es.insert(i, (k, c));
                                assert(Node::Object(es)@->Object_0 =~= d->Object_0.update(
                                    i as int,
                                    (path[0], c@),
                                ));
                                Ok(Node::Object(es))
                            },
                            Err(c) => {
                                es.insert(i, (k, c));
                                assert(Node::Object(es)@->Object_0 =~= d->Object_0);
                                Err(Node::Object(es))
                            },
                        }
                    },
                }
            }
        },
        other => {
            assert(path.len() > 0);
            Err(other)
        },
    }
}

/// Writes the text `value` at the dotted path `key` inside `root`, creating the
/// objects on the way that are missing. On a conflict `root` is left as it was.
pub fn insert_in_root(root: &mut Node, key: &str, value: &str) -> (r: Result<(), BuildError>)
    ensures
        match write_doc(old(root)@, split_dots(key@), value@) {
            Some(d) => r is Ok && final(root)@ == d,
            None => r is Err && r->Err_0@ == Fault::StructuralConflict(key@) && final(root)@ == old(
                root,
            )@,
        },
        old(root)@.wf() ==> final(root)@.wf(),
{
    let segs = split_path(key);
    proof {
        lemma_split_nonempty(key@);
    }
    assert(segs_from(segs@, 0) =~= split_dots(key@));
    let mut cur = Node::Null;
    std::mem::swap(&mut cur, root);
    proof {
        if old(root)@.wf() && write_doc(old(root)@, split_dots(key@), value@) is Some {
            lemma_write_keeps_wf(old(root)@, split_dots(key@), value@);
        }
    }
    match write_segments(cur, &segs, 0, value) {
        Ok(n) => {
            *root = n;
            Ok(())
        },
        Err(n) => {
            *root = n;
            Err(BuildError::StructuralConflict(key.to_owned()))
        },
    }
}

/// The value at the dotted path `key` inside `root`, if every segment is found.
pub fn lookup_path<'a>(root: &'a Node, key: &str) -> (r: Option<&'a Node>)
    ensures
        match read_doc(root@, split_dots(key@)) {
            Some(d) => r is Some && r->Some_0@ == d,
            None => r is None,
        },
{
    let segs = split_path(key);
    let ghost all = split_dots(key@);
    let mut cur: &Node = root;
    let mut pos: usize = 0;
    assert(segs_from(segs@, 0) =~= all);
    while pos < segs.len()
        invariant
            pos <= segs@.len(),
            all == split_dots(key@),
            read_doc(root@, all) == read_doc(cur@, segs_from(segs@, pos as int)),
        decreases segs@.len() - pos,
    {
        let ghost path = segs_from(segs@, pos as int);
        assert(path[0] == segs@[pos as int]@);
        assert(path.drop_first() =~= segs_from(segs@, pos as int + 1));
        match cur {
            Node::Object(es) => {
                proof {
                    lemma_object_keys(*es);
                }
                match find_key(es, &segs[pos]) {
                    Some(i) => {
                        assert(cur@->Object_0[i as int].1 == es@[i as int].1@);
                        cur = &es[i].1;
                    },
                    None => {
                        return None;
                    },
                }
            },
            _ => {
                return None;
            },
        }
        pos = pos + 1;
    }
    assert(segs_from(segs@, pos as int).len() == 0);
    Some(cur)
}

} // verus!
