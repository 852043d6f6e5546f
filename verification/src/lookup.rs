use vstd::prelude::*;

verus! {

/// The first element of `s` whose key is `k`, if any.
pub open spec fn find_by<T>(s: Seq<T>, key: spec_fn(T) -> u64, k: u64) -> Option<T>
    decreases s.len(),
{
    if s.len() == 0 {
        None
    } else if key(s[0]) == k {
        Some(s[0])
    } else {
        find_by(s.drop_first(), key, k)
    }
}

/// No two elements of `s` share a key.
pub open spec fn unique_keys<T>(s: Seq<T>, key: spec_fn(T) -> u64) -> bool {
    forall|i: int, j: int| 0 <= i < j < s.len() ==> key(#[trigger] s[i]) != key(#[trigger] s[j])
}

/// An element at a position whose earlier positions all carry other keys is
/// what the lookup returns.
pub proof fn lemma_find_found<T>(s: Seq<T>, key: spec_fn(T) -> u64, k: u64, i: int)
    requires
        0 <= i < s.len(),
        key(s[i]) == k,
        forall|j: int| 0 <= j < i ==> key(#[trigger] s[j]) != k,
    ensures
        find_by(s, key, k) == Some(s[i]),
    decreases i,
{
    if i > 0 {
        lemma_find_found(s.drop_first(), key, k, i - 1);
    }
}

/// When no position carries `k`, the lookup yields nothing, and conversely.
pub proof fn lemma_find_none_iff<T>(s: Seq<T>, key: spec_fn(T) -> u64, k: u64)
    ensures
        (find_by(s, key, k) is None) <==> (forall|j: int|
            0 <= j < s.len() ==> key(#[trigger] s[j]) != k),
    decreases s.len(),
{
    if s.len() > 0 {
        lemma_find_none_iff(s.drop_first(), key, k);
        assert forall|j: int| 0 <= j < s.drop_first().len() implies (#[trigger] s.drop_first()[j])
            == s[j + 1] by {}
        assert forall|j: int| 1 <= j < s.len() implies (#[trigger] s[j]) == s.drop_first()[j
            - 1] by {}
        assert(find_by(s, key, k) == if key(s[0]) == k {
            Some(s[0])
        } else {
            find_by(s.drop_first(), key, k)
        });
    }
}

/// What the lookup returns is an element of `s` carrying key `k`.
pub proof fn lemma_find_some_member<T>(s: Seq<T>, key: spec_fn(T) -> u64, k: u64)
    requires
        find_by(s, key, k) is Some,
    ensures
        exists|i: int|
            0 <= i < s.len() && #[trigger] s[i] == find_by(s, key, k)->Some_0 && key(s[i]) == k,
    decreases s.len(),
{
    if s.len() > 0 {
        if key(s[0]) == k {
        } else {
            lemma_find_some_member(s.drop_first(), key, k);
            let i = choose|i: int|
                0 <= i < s.drop_first().len() && #[trigger] s.drop_first()[i] == find_by(
                    s.drop_first(),
                    key,
                    k,
                )->Some_0 && key(s.drop_first()[i]) == k;
            assert(s[i + 1] == s.drop_first()[i]);
        }
    }
}

/// Appending an element whose key the lookup does not know yet leaves every
/// other key's answer alone and makes the new key resolve to it.
pub proof fn lemma_find_push<T>(s: Seq<T>, key: spec_fn(T) -> u64, v: T, k: u64)
    requires
        find_by(s, key, key(v)) is None,
    ensures
        find_by(s.push(v), key, k) == if k == key(v) {
            Some(v)
        } else {
            find_by(s, key, k)
        },
    decreases s.len(),
{
    let t = s.push(v);
    if s.len() == 0 {
        assert(t[0] == v);
        assert(t.drop_first() =~= Seq::<T>::empty());
        assert(find_by(t.drop_first(), key, k) is None);
    } else {
        lemma_find_push(s.drop_first(), key, v, k);
        assert(t[0] == s[0]);
        assert(t.drop_first() =~= s.drop_first().push(v));
        assert(find_by(t, key, k) == if key(t[0]) == k {
            Some(t[0])
        } else {
            find_by(t.drop_first(), key, k)
        });
    }
}

/// Updating the position that holds `k` makes `k` resolve to the new element.
pub proof fn lemma_find_update<T>(s: Seq<T>, key: spec_fn(T) -> u64, v: T, i: int)
    requires
        0 <= i < s.len(),
        key(s[i]) == key(v),
        unique_keys(s, key),
    ensures
        find_by(s.update(i, v), key, key(v)) == Some(v),
    decreases i,
{
    let t = s.update(i, v);
    if i == 0 {
        assert(t[0] == v);
    } else {
        assert(t[0] == s[0]);
        assert(key(s[0]) != key(v));
        assert(t.drop_first() =~= s.drop_first().update(i - 1, v));
        assert forall|a: int, b: int|
            0 <= a < b < s.drop_first().len() implies key(#[trigger] s.drop_first()[a]) != key(
            #[trigger] s.drop_first()[b]) by {
            assert(s.drop_first()[a] == s[a + 1]);
            assert(s.drop_first()[b] == s[b + 1]);
        }
        lemma_find_update(s.drop_first(), key, v, i - 1);
    }
}

/// Updating the position that holds `k` leaves every other key's answer alone.
pub proof fn lemma_find_update_other<T>(s: Seq<T>, key: spec_fn(T) -> u64, v: T, i: int, k: u64)
    requires
        0 <= i < s.len(),
        key(s[i]) == key(v),
        k != key(v),
    ensures
        find_by(s.update(i, v), key, k) == find_by(s, key, k),
    decreases i,
{
    let t = s.update(i, v);
    if i == 0 {
        assert(t[0] == v);
        assert(t.drop_first() =~= s.drop_first());
    } else {
        assert(t[0] == s[0]);
        if key(s[0]) != k {
            assert(t.drop_first() =~= s.drop_first().update(i - 1, v));
            lemma_find_update_other(s.drop_first(), key, v, i - 1, k);
        }
    }
}

/// Removing the position that holds `k` erases `k`'s answer when keys are
/// unique.
pub proof fn lemma_find_remove<T>(s: Seq<T>, key: spec_fn(T) -> u64, i: int)
    requires
        0 <= i < s.len(),
        unique_keys(s, key),
    ensures
        find_by(s.remove(i), key, key(s[i])) is None,
    decreases i,
{
    let t = s.remove(i);
    let k = key(s[i]);
    assert forall|a: int, b: int|
        0 <= a < b < s.drop_first().len() implies key(#[trigger] s.drop_first()[a]) != key(
        #[trigger] s.drop_first()[b]) by {
        assert(s.drop_first()[a] == s[a + 1]);
        assert(s.drop_first()[b] == s[b + 1]);
    }
    if i == 0 {
        assert(t =~= s.drop_first());
        assert forall|j: int| 0 <= j < s.drop_first().len() implies key(
            #[trigger] s.drop_first()[j],
        ) != k by {
            assert(s.drop_first()[j] == s[j + 1]);
        }
        lemma_find_none_iff(s.drop_first(), key, k);
    } else {
        assert(t[0] == s[0]);
        assert(key(s[0]) != k);
        assert(t.drop_first() =~= s.drop_first().remove(i - 1));
        lemma_find_remove(s.drop_first(), key, i - 1);
        assert(s.drop_first()[i - 1] == s[i]);
    }
}

/// Removing a position leaves the answer for every key but the removed
/// element's alone.
pub proof fn lemma_find_remove_other<T>(s: Seq<T>, key: spec_fn(T) -> u64, i: int, k: u64)
    requires
        0 <= i < s.len(),
        k != key(s[i]),
    ensures
        find_by(s.remove(i), key, k) == find_by(s, key, k),
    decreases i,
{
    let t = s.remove(i);
    if i == 0 {
        assert(t =~= s.drop_first());
    } else {
        assert(t[0] == s[0]);
        if key(s[0]) != k {
            assert(t.drop_first() =~= s.drop_first().remove(i - 1));
            lemma_find_remove_other(s.drop_first(), key, i - 1, k);
        }
    }
}

} // verus!
