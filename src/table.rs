//! Tables keyed by strings, held as a vector of entries where a later entry
//! under a key overrides an earlier one.
use vstd::prelude::*;

verus! {

/// The entries as mathematical values.
pub open spec fn table_view<V: View>(t: Seq<(String, V)>) -> Seq<(Seq<char>, V::V)> {
    Seq::new(t.len(), |i: int| (t[i].0@, t[i].1@))
}

/// `after` is `before` with `value` set under `key`.
pub open spec fn stored<V: View>(
    after: Seq<(String, V)>,
    before: Seq<(String, V)>,
    key: Seq<char>,
    value: V::V,
) -> bool {
    forall|k: Seq<char>|
        #[trigger] latest(table_view(after), k) == if k == key {
            Some(value)
        } else {
            latest(table_view(before), k)
        }
}

/// The value of the latest entry under `key`.
pub open spec fn latest<W>(log: Seq<(Seq<char>, W)>, key: Seq<char>) -> Option<W>
    decreases log.len(),
{
    if log.len() == 0 {
        None
    } else if log.last().0 == key {
        Some(log.last().1)
    } else {
        latest(log.drop_last(), key)
    }
}

proof fn lemma_latest_update<W>(
    log: Seq<(Seq<char>, W)>,
    i: int,
    key: Seq<char>,
    v: W,
    other: Seq<char>,
)
    requires
        0 <= i < log.len(),
        log[i].0 == key,
        forall|j: int| i < j < log.len() ==> #[trigger] log[j].0 != key,
    ensures
        latest(log.update(i, (key, v)), other) == if other == key {
            Some(v)
        } else {
            latest(log, other)
        },
    decreases log.len(),
{
    let u = log.update(i, (key, v));
    if i < log.len() - 1 {
        assert(u.drop_last() =~= log.drop_last().update(i, (key, v)));
        lemma_latest_update(log.drop_last(), i, key, v, other);
    } else {
        assert(u.drop_last() =~= log.drop_last());
    }
}

/// The position of the latest entry under `key`.
pub fn position<V: View>(t: &Vec<(String, V)>, key: &String) -> (r: Option<usize>)
    ensures
        match r {
            None => latest(table_view(t@), key@) is None,
            Some(i) => i < t@.len() && t@[i as int].0@ == key@
                && latest(table_view(t@), key@) == Some(t@[i as int].1@)
                && forall|j: int| i < j < t@.len() ==> #[trigger] t@[j].0@ != key@,
        },
{
    let ghost lv = table_view(t@);
    let mut i = t.len();
    assert(lv.take(i as int) =~= lv);
    while i > 0
        invariant
            i <= t@.len(),
            lv == table_view(t@),
            latest(lv, key@) == latest(lv.take(i as int), key@),
            forall|j: int| i <= j < t@.len() ==> #[trigger] t@[j].0@ != key@,
        decreases i,
    {
        assert(lv.take(i as int).drop_last() =~= lv.take(i - 1));
        if t[i - 1].0 == *key {
            return Some(i - 1);
        }
        i = i - 1;
    }
    None
}

/// Sets the value under `key`, replacing its latest entry or adding one.
pub fn put<V: View>(t: &mut Vec<(String, V)>, key: String, value: V)
    ensures
        stored(final(t)@, old(t)@, key@, value@),
{
    let ghost before = table_view(t@);
    let ghost kv = (key@, value@);
    match position(t, &key) {
        Some(i) => {
            t.set(i, (key, value));
            assert(table_view(t@) =~= before.update(i as int, kv));
            assert forall|k: Seq<char>| #[trigger] latest(table_view(t@), k) == if k == kv.0 {
                Some(kv.1)
            } else {
                latest(before, k)
            } by {
                lemma_latest_update(before, i as int, kv.0, kv.1, k);
            }
        },
        None => {
            t.push((key, value));
            assert(table_view(t@) =~= before.push(kv));
            assert(table_view(t@).drop_last() =~= before);
        },
    }
}

/// The entries with their keys as mathematical values.
pub open spec fn entries<V>(t: Seq<(String, V)>) -> Seq<(Seq<char>, V)> {
    Seq::new(t.len(), |i: int| (t[i].0@, t[i].1))
}

/// No key occurs twice.
pub open spec fn unique_keys<V>(t: Seq<(String, V)>) -> bool {
    forall|i: int, j: int| 0 <= i < j < t.len() ==> #[trigger] t[i].0@ != #[trigger] t[j].0@
}

/// With unique keys, the entry under a key is the one the table holds.
pub proof fn lemma_latest_at<V>(t: Seq<(String, V)>, i: int)
    requires
        unique_keys(t),
        0 <= i < t.len(),
    ensures
        latest(entries(t), t[i].0@) == Some(t[i].1),
    decreases t.len(),
{
    if i < t.len() - 1 {
        assert(entries(t).drop_last() =~= entries(t.drop_last()));
        lemma_latest_at(t.drop_last(), i);
    }
}

/// A key no entry holds has no value.
pub proof fn lemma_latest_absent<V>(t: Seq<(String, V)>, k: Seq<char>)
    requires
        forall|i: int| 0 <= i < t.len() ==> #[trigger] t[i].0@ != k,
    ensures
        latest(entries(t), k) is None,
    decreases t.len(),
{
    if t.len() > 0 {
        assert(entries(t).drop_last() =~= entries(t.drop_last()));
        lemma_latest_absent(t.drop_last(), k);
    }
}

/// A value under a key comes from an entry under that key.
pub proof fn lemma_latest_some<V>(t: Seq<(String, V)>, k: Seq<char>)
    requires
        latest(entries(t), k) is Some,
    ensures
        exists|i: int| 0 <= i < t.len() && #[trigger] t[i].0@ == k && latest(entries(t), k) == Some(t[i].1),
    decreases t.len(),
{
    if t.len() > 0 {
        assert(entries(t).drop_last() =~= entries(t.drop_last()));
        if t.last().0@ != k {
            lemma_latest_some(t.drop_last(), k);
            let i = choose|i: int| 0 <= i < t.drop_last().len() && #[trigger] t.drop_last()[i].0@ == k
                && latest(entries(t.drop_last()), k) == Some(t.drop_last()[i].1);
            assert(t[i].0@ == k);
        } else {
            assert(t[t.len() - 1].0@ == k);
        }
    }
}

/// The position of the entry under `key` in a table with unique keys.
pub fn find_entry<V>(t: &Vec<(String, V)>, key: &String) -> (r: Option<usize>)
    requires
        unique_keys(t@),
    ensures
        match r {
            None => latest(entries(t@), key@) is None,
            Some(i) => i < t@.len() && t@[i as int].0@ == key@
                && latest(entries(t@), key@) == Some(t@[i as int].1),
        },
{
    for i in 0..t.len()
        invariant
            unique_keys(t@),
            forall|j: int| 0 <= j < i ==> #[trigger] t@[j].0@ != key@,
    {
        if t[i].0 == *key {
            proof {
                lemma_latest_at(t@, i as int);
            }
            return Some(i);
        }
    }
    proof {
        lemma_latest_absent(t@, key@);
    }
    None
}

/// Sets the entry under `key`, replacing the one there or adding one.
pub fn put_entry<V>(t: &mut Vec<(String, V)>, key: String, value: V)
    requires
        unique_keys(old(t)@),
    ensures
        unique_keys(final(t)@),
        forall|k: Seq<char>|
            #[trigger] latest(entries(final(t)@), k) == if k == key@ {
                Some(value)
            } else {
                latest(entries(old(t)@), k)
            },
{
    let ghost before = t@;
    let ghost kv = (key@, value);
    match find_entry(t, &key) {
        Some(i) => {
            t.set(i, (key, value));
            assert(entries(t@) =~= entries(before).update(i as int, kv));
            assert forall|j: int| i < j < before.len() implies #[trigger] entries(before)[j].0 != kv.0 by {
                assert(before[j].0@ != before[i as int].0@);
            }
            assert forall|k: Seq<char>| #[trigger] latest(entries(t@), k) == if k == kv.0 {
                Some(kv.1)
            } else {
                latest(entries(before), k)
            } by {
                lemma_latest_update(entries(before), i as int, kv.0, kv.1, k);
            }
        },
        None => {
            assert forall|j: int| 0 <= j < before.len() implies #[trigger] before[j].0@ != kv.0 by {
                if before[j].0@ == kv.0 {
                    lemma_latest_at(before, j);
                }
            }
            t.push((key, value));
            assert(entries(t@) =~= entries(before).push(kv));
            assert(entries(t@).drop_last() =~= entries(before));
        },
    }
}

} // verus!
