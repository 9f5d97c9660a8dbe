use vstd::prelude::*;

verus! {

/// An association list with distinct `u64` keys.
pub open spec fn table_wf<V>(m: Seq<(u64, V)>) -> bool {
    forall|i: int, j: int|
        0 <= i < j < m.len() ==> (#[trigger] m[i]).0 != (#[trigger] m[j]).0
}

/// Whether the table holds exactly this entry.
pub open spec fn table_has<V>(m: Seq<(u64, V)>, key: u64, value: V) -> bool {
    exists|i: int| 0 <= i < m.len() && m[i] == (key, value)
}

/// Whether the table holds any entry under this key.
pub open spec fn table_has_key<V>(m: Seq<(u64, V)>, key: u64) -> bool {
    exists|i: int| 0 <= i < m.len() && (#[trigger] m[i]).0 == key
}

/// The position of the entry under `key`, if any.
pub fn table_find<V>(m: &Vec<(u64, V)>, key: u64) -> (r: Option<usize>)
    ensures
        r matches Some(i) ==> i < m@.len() && m@[i as int].0 == key,
        r is None ==> !table_has_key(m@, key),
{
    let mut i: usize = 0;
    while i < m.len()
        invariant
            i <= m@.len(),
            forall|j: int| 0 <= j < i ==> (#[trigger] m@[j]).0 != key,
        decreases m@.len() - i,
    {
        if m[i].0 == key {
            return Some(i);
        }
        i = i + 1;
    }
    None
}

/// Bind `key` to `value`, replacing any earlier binding.
pub fn table_put<V>(m: &mut Vec<(u64, V)>, key: u64, value: V)
    requires
        table_wf(old(m)@),
    ensures
        table_wf(final(m)@),
        table_has(final(m)@, key, value),
        table_has_key(final(m)@, key),
        forall|k2: u64, v2: V|
            k2 != key ==> (table_has(final(m)@, k2, v2) <==> table_has(old(m)@, k2, v2)),
        forall|k2: u64|
            k2 != key ==> (table_has_key(final(m)@, k2) <==> table_has_key(old(m)@, k2)),
{
    let found = table_find(m, key);
    match found {
        Some(i) => {
            m.set(i, (key, value));
            proof {
                assert(final(m)@[i as int] == (key, value));
                assert forall|k2: u64, v2: V| k2 != key implies (table_has(m@, k2, v2)
                    <==> table_has(old(m)@, k2, v2)) by {
                    if table_has(m@, k2, v2) {
                        let j = choose|j: int| 0 <= j < m@.len() && m@[j] == (k2, v2);
                        assert(old(m)@[j] == (k2, v2));
                    }
                    if table_has(old(m)@, k2, v2) {
                        let j = choose|j: int| 0 <= j < old(m)@.len() && old(m)@[j] == (k2, v2);
                        assert(j != i);
                        assert(m@[j] == (k2, v2));
                    }
                }
                assert forall|k2: u64| k2 != key implies (table_has_key(m@, k2) <==> table_has_key(
                    old(m)@,
                    k2,
                )) by {
                    if table_has_key(m@, k2) {
                        let j = choose|j: int| 0 <= j < m@.len() && (#[trigger] m@[j]).0 == k2;
                        assert(old(m)@[j].0 == k2);
                    }
                    if table_has_key(old(m)@, k2) {
                        let j = choose|j: int|
                            0 <= j < old(m)@.len() && (#[trigger] old(m)@[j]).0 == k2;
                        assert(j != i);
                        assert(m@[j].0 == k2);
                    }
                }
            }
        },
        None => {
            m.push((key, value));
            proof {
                assert(final(m)@[final(m)@.len() - 1] == (key, value));
                assert forall|k2: u64, v2: V| k2 != key implies (table_has(m@, k2, v2)
                    <==> table_has(old(m)@, k2, v2)) by {
                    if table_has(m@, k2, v2) {
                        let j = choose|j: int| 0 <= j < m@.len() && m@[j] == (k2, v2);
                        assert(j < old(m)@.len());
                        assert(old(m)@[j] == (k2, v2));
                    }
                    if table_has(old(m)@, k2, v2) {
                        let j = choose|j: int| 0 <= j < old(m)@.len() && old(m)@[j] == (k2, v2);
                        assert(m@[j] == (k2, v2));
                    }
                }
                assert forall|k2: u64| k2 != key implies (table_has_key(m@, k2) <==> table_has_key(
                    old(m)@,
                    k2,
                )) by {
                    if table_has_key(m@, k2) {
                        let j = choose|j: int| 0 <= j < m@.len() && (#[trigger] m@[j]).0 == k2;
                        assert(j < old(m)@.len());
                        assert(old(m)@[j].0 == k2);
                    }
                    if table_has_key(old(m)@, k2) {
                        let j = choose|j: int|
                            0 <= j < old(m)@.len() && (#[trigger] old(m)@[j]).0 == k2;
                        assert(m@[j].0 == k2);
                    }
                }
            }
        },
    }
}

/// Drop the binding of `key`, if any.
pub fn table_remove_key<V>(m: &mut Vec<(u64, V)>, key: u64)
    requires
        table_wf(old(m)@),
    ensures
        table_wf(final(m)@),
        !table_has_key(final(m)@, key),
        forall|k2: u64, v2: V|
            k2 != key ==> (table_has(final(m)@, k2, v2) <==> table_has(old(m)@, k2, v2)),
        forall|k2: u64|
            k2 != key ==> (table_has_key(final(m)@, k2) <==> table_has_key(old(m)@, k2)),
{
    let found = table_find(m, key);
    match found {
        Some(i) => {
            m.remove(i);
            proof {
                assert forall|j: int| 0 <= j < m@.len() implies (#[trigger] m@[j]).0 != key by {
                    if j < i {
                        assert(m@[j] == old(m)@[j]);
                    } else {
                        assert(m@[j] == old(m)@[j + 1]);
                    }
                }
                assert forall|k2: u64, v2: V| k2 != key implies (table_has(m@, k2, v2)
                    <==> table_has(old(m)@, k2, v2)) by {
                    if table_has(m@, k2, v2) {
                        let j = choose|j: int| 0 <= j < m@.len() && m@[j] == (k2, v2);
                        if j < i {
                            assert(old(m)@[j] == (k2, v2));
                        } else {
                            assert(old(m)@[j + 1] == (k2, v2));
                        }
                    }
                    if table_has(old(m)@, k2, v2) {
                        let j = choose|j: int| 0 <= j < old(m)@.len() && old(m)@[j] == (k2, v2);
                        if j < i {
                            assert(m@[j] == (k2, v2));
                        } else {
                            assert(m@[j - 1] == (k2, v2));
                        }
                    }
                }
                assert forall|k2: u64| k2 != key implies (table_has_key(m@, k2) <==> table_has_key(
                    old(m)@,
                    k2,
                )) by {
                    if table_has_key(m@, k2) {
                        let j = choose|j: int| 0 <= j < m@.len() && (#[trigger] m@[j]).0 == k2;
                        if j < i {
                            assert(old(m)@[j].0 == k2);
                        } else {
                            assert(old(m)@[j + 1].0 == k2);
                        }
                    }
                    if table_has_key(old(m)@, k2) {
                        let j = choose|j: int|
                            0 <= j < old(m)@.len() && (#[trigger] old(m)@[j]).0 == k2;
                        if j < i {
                            assert(m@[j].0 == k2);
                        } else {
                            assert(m@[j - 1].0 == k2);
                        }
                    }
                }
            }
        },
        None => {},
    }
}

} // verus!
