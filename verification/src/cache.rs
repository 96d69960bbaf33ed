//! A fixed-capacity key-to-row cache with first-in-first-out eviction.
//!
//! The cache capability is a trait so that another eviction policy can be
//! substituted without touching the lookup logic; `FiloCache` is the one
//! concrete implementation, evicting the oldest-inserted entry when full.
//! A hit never refreshes an entry's position: insertion order alone
//! decides eviction. Capacity zero retains nothing.

use vstd::prelude::*;

verus! {

/// The row stored for `key`, scanning entries from most recent to oldest,
/// or nothing when no entry carries the key.
pub open spec fn lookup_model(
    entries: Seq<(Seq<char>, Seq<Seq<char>>)>,
    key: Seq<char>,
) -> Option<Seq<Seq<char>>>
    decreases entries.len(),
{
    if entries.len() == 0 {
        None
    } else if entries.last().0 == key {
        Some(entries.last().1)
    } else {
        lookup_model(entries.drop_last(), key)
    }
}

/// The entries after one put into a FIFO cache: with capacity zero the
/// cache retains nothing; when full, the oldest entry is evicted first;
/// the new entry always becomes the most recent one.
pub open spec fn fifo_put_entries(
    entries: Seq<(Seq<char>, Seq<Seq<char>>)>,
    capacity: int,
    key: Seq<char>,
    value: Seq<Seq<char>>,
) -> Seq<(Seq<char>, Seq<Seq<char>>)> {
    if capacity <= 0 {
        entries
    } else if entries.len() >= capacity {
        entries.drop_first().push((key, value))
    } else {
        entries.push((key, value))
    }
}

/// What one put reports: `Ok` with the evicted key, or with the inserted
/// key when nothing had to leave; `Err` hands the key back when the cache
/// has capacity zero and retains nothing.
pub open spec fn fifo_put_result(
    entries: Seq<(Seq<char>, Seq<Seq<char>>)>,
    capacity: int,
    key: Seq<char>,
) -> Result<Seq<char>, Seq<char>> {
    if capacity <= 0 {
        Err(key)
    } else if entries.len() >= capacity {
        Ok(entries.first().0)
    } else {
        Ok(key)
    }
}

/// A key-to-row cache: a pure lookup and a side-effecting insert. Any
/// implementation must retain a just-inserted key while its capacity is
/// positive; the eviction policy is the implementation's own.
pub trait MappingCache {
    /// The stored entries, oldest first.
    spec fn entries_model(&self) -> Seq<(Seq<char>, Seq<Seq<char>>)>;

    /// The fixed capacity the cache was created with.
    spec fn capacity_model(&self) -> int;

    /// The implementation's internal well-formedness.
    spec fn inv(&self) -> bool;

    /// Pure lookup; a hit must not alter eviction order.
    fn get(&self, key: String) -> (r: Option<&Vec<String>>)
        requires
            self.inv(),
        ensures
            match r {
                Some(v) => lookup_model(self.entries_model(), key@) == Some(v.deep_view()),
                None => lookup_model(self.entries_model(), key@) is None,
            },
    ;

    /// Insert a row under a key, evicting by the implementation's policy.
    fn put(&mut self, key: String, value: Vec<String>) -> (r: Result<String, String>)
        requires
            old(self).inv(),
        ensures
            final(self).inv(),
            final(self).capacity_model() == old(self).capacity_model(),
            old(self).capacity_model() > 0 ==> lookup_model(final(self).entries_model(), key@)
                == Some(value.deep_view()),
            old(self).capacity_model() <= 0 ==> final(self).entries_model() == old(
                self,
            ).entries_model(),
    ;
}

/// A bounded cache that evicts in first-in, first-out order of insertion.
#[derive(Debug)]
pub struct FiloCache {
    cache_size: i64,
    mappings: Vec<(String, Vec<String>)>,
}

impl FiloCache {
    /// Create an empty cache that will hold at most `cache_size` entries.
    pub fn new(cache_size: i64) -> (c: FiloCache)
        requires
            cache_size >= 0,
        ensures
            c.inv(),
            c.capacity_model() == cache_size as int,
            c.entries_model() == Seq::<(Seq<char>, Seq<Seq<char>>)>::empty(),
    {
        let c = if cache_size == 0 {
            FiloCache { cache_size: 0, mappings: Vec::new() }
        } else {
            FiloCache { cache_size, mappings: Vec::new() }
        };
        proof {
            assert(c.mappings.deep_view() =~= Seq::<(Seq<char>, Seq<Seq<char>>)>::empty());
        }
        c
    }
}

impl MappingCache for FiloCache {
    closed spec fn entries_model(&self) -> Seq<(Seq<char>, Seq<Seq<char>>)> {
        self.mappings.deep_view()
    }

    closed spec fn capacity_model(&self) -> int {
        self.cache_size as int
    }

    closed spec fn inv(&self) -> bool {
        0 <= self.cache_size && self.mappings@.len() <= self.cache_size
    }

    fn get(&self, key: String) -> (r: Option<&Vec<String>>) {
        let ghost entries = self.entries_model();
        let mut j: usize = self.mappings.len();
        proof {
            assert(entries.take(j as int) =~= entries);
        }
        while j > 0
            invariant
                j <= self.mappings@.len(),
                entries == self.entries_model(),
                lookup_model(entries, key@) == lookup_model(entries.take(j as int), key@),
            decreases j,
        {
            j -= 1;
            proof {
                assert(entries[j as int] == (self.mappings@[j as int].0@, self.mappings@[
                    j as int].1.deep_view()));
                assert(entries.take(j + 1).drop_last() =~= entries.take(j as int));
                assert(entries.take(j + 1).last() == entries[j as int]);
            }
            if self.mappings[j].0 == key {
                return Some(&self.mappings[j].1);
            }
        }
        proof {
            assert(entries.take(0) =~= Seq::<(Seq<char>, Seq<Seq<char>>)>::empty());
        }
        None
    }

    fn put(&mut self, key: String, value: Vec<String>) -> (r: Result<String, String>)
        ensures
            final(self).entries_model() == fifo_put_entries(
                old(self).entries_model(),
                old(self).capacity_model(),
                key@,
                value.deep_view(),
            ),
            match r {
                Ok(k) => fifo_put_result(
                    old(self).entries_model(),
                    old(self).capacity_model(),
                    key@,
                ) == Ok::<Seq<char>, Seq<char>>(k@),
                Err(k) => fifo_put_result(
                    old(self).entries_model(),
                    old(self).capacity_model(),
                    key@,
                ) == Err::<Seq<char>, Seq<char>>(k@),
            },
    {
        let ghost old_entries = self.entries_model();
        let ghost vdeep = value.deep_view();
        if self.cache_size == 0 {
            return Err(key);
        }
        if self.mappings.len() as u64 >= self.cache_size as u64 {
            let evicted = self.mappings.remove(0);
            let ghost mid = self.mappings.deep_view();
            proof {
                assert(mid =~= old_entries.drop_first());
                assert(evicted.0@ == old_entries.first().0);
            }
            self.mappings.push((key, value));
            proof {
                assert(self.mappings.deep_view() =~= mid.push((key@, vdeep)));
            }
            Ok(evicted.0)
        } else {
            let returned = key.clone();
            self.mappings.push((key, value));
            proof {
                assert(self.mappings.deep_view() =~= old_entries.push((key@, vdeep)));
            }
            Ok(returned)
        }
    }
}

/// The entries left in an initially empty FIFO cache after putting
/// `keys[i]` with row `vals[i]`, in order of ascending `i`.
pub open spec fn puts_model(
    capacity: int,
    keys: Seq<Seq<char>>,
    vals: Seq<Seq<Seq<char>>>,
) -> Seq<(Seq<char>, Seq<Seq<char>>)>
    decreases keys.len(),
{
    if keys.len() == 0 || keys.len() != vals.len() {
        Seq::<(Seq<char>, Seq<Seq<char>>)>::empty()
    } else {
        fifo_put_entries(
            puts_model(capacity, keys.drop_last(), vals.drop_last()),
            capacity,
            keys.last(),
            vals.last(),
        )
    }
}

/// A key carried by no entry is never found.
pub proof fn lemma_lookup_absent(entries: Seq<(Seq<char>, Seq<Seq<char>>)>, key: Seq<char>)
    requires
        forall|i: int| 0 <= i < entries.len() ==> entries[i].0 != key,
    ensures
        lookup_model(entries, key) is None,
    decreases entries.len(),
{
    if entries.len() > 0 {
        lemma_lookup_absent(entries.drop_last(), key);
    }
}

/// A key whose entry is not shadowed by any later entry resolves to that
/// entry's row.
pub proof fn lemma_lookup_found(entries: Seq<(Seq<char>, Seq<Seq<char>>)>, i: int)
    requires
        0 <= i < entries.len(),
        forall|j: int| i < j < entries.len() ==> entries[j].0 != entries[i].0,
    ensures
        lookup_model(entries, entries[i].0) == Some(entries[i].1),
    decreases entries.len(),
{
    if i < entries.len() - 1 {
        lemma_lookup_found(entries.drop_last(), i);
    }
}

/// After any run of puts, a FIFO cache holds exactly the most recent
/// `capacity` puts (or all of them, while fewer), oldest first.
proof fn lemma_puts_window(capacity: int, keys: Seq<Seq<char>>, vals: Seq<Seq<Seq<char>>>)
    requires
        capacity >= 1,
        keys.len() == vals.len(),
    ensures
        ({
            let n = keys.len() as int;
            let m = if n <= capacity {
                n
            } else {
                capacity
            };
            puts_model(capacity, keys, vals) =~= Seq::new(
                m as nat,
                |i: int| (keys[n - m + i], vals[n - m + i]),
            )
        }),
    decreases keys.len(),
{
    let n = keys.len() as int;
    if n > 0 {
        lemma_puts_window(capacity, keys.drop_last(), vals.drop_last());
        let prev = puts_model(capacity, keys.drop_last(), vals.drop_last());
        assert(forall|i: int| 0 <= i < n - 1 ==> keys.drop_last()[i] == keys[i]);
        assert(forall|i: int| 0 <= i < n - 1 ==> vals.drop_last()[i] == vals[i]);
    }
}

/// With capacity `C`, after `C + 1` puts under pairwise distinct keys the
/// first-inserted key is gone and each of the last `C` keys still
/// resolves to its stored row.
pub proof fn lemma_fifo_eviction(capacity: int, keys: Seq<Seq<char>>, vals: Seq<Seq<Seq<char>>>)
    requires
        capacity >= 1,
        keys.len() == capacity + 1,
        vals.len() == keys.len(),
        forall|i: int, j: int| 0 <= i < j < keys.len() ==> keys[i] != keys[j],
    ensures
        lookup_model(puts_model(capacity, keys, vals), keys[0]) is None,
        forall|i: int|
            1 <= i < keys.len() ==> #[trigger] lookup_model(puts_model(capacity, keys, vals), keys[i])
                == Some(vals[i]),
{
    lemma_puts_window(capacity, keys, vals);
    let entries = puts_model(capacity, keys, vals);
    assert(entries.len() == capacity);
    assert forall|i: int| 0 <= i < entries.len() implies entries[i].0 != keys[0] by {
        assert(entries[i] == (keys[1 + i], vals[1 + i]));
    }
    lemma_lookup_absent(entries, keys[0]);
    assert forall|i: int|
        1 <= i < keys.len() implies #[trigger] lookup_model(
        puts_model(capacity, keys, vals),
        keys[i],
    ) == Some(vals[i]) by {
        assert(entries[i - 1] == (keys[i], vals[i]));
        assert forall|j: int|
            i - 1 < j < entries.len() implies (#[trigger] entries[j]).0 != entries[i - 1].0 by {
            assert(entries[j] == (keys[1 + j], vals[1 + j]));
        }
        lemma_lookup_found(entries, i - 1);
    }
}

/// With capacity zero, no number of puts ever retains anything: every
/// lookup misses.
pub proof fn lemma_zero_capacity(keys: Seq<Seq<char>>, vals: Seq<Seq<Seq<char>>>, key: Seq<char>)
    requires
        keys.len() == vals.len(),
    ensures
        puts_model(0, keys, vals) =~= Seq::<(Seq<char>, Seq<Seq<char>>)>::empty(),
        lookup_model(puts_model(0, keys, vals), key) is None,
    decreases keys.len(),
{
    if keys.len() > 0 {
        lemma_zero_capacity(keys.drop_last(), vals.drop_last(), key);
    }
}

} // verus!
