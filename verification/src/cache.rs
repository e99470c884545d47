//! The idempotency cache: a key-value store with per-key expiry, used to
//! deduplicate creation requests on a best-effort basis. It is a hint, not a
//! source of truth: losing it never corrupts the record store.
use vstd::prelude::*;

use crate::order::Order;

verus! {

/// A cache key, derived deterministically from the table, the dish, and the
/// caller-supplied idempotency token.
#[verifier::ext_equal]
pub ghost struct CacheKey {
    pub table_id: i32,
    pub dish_id: i32,
    pub token: Seq<u8>,
}

/// The mathematical content of one cache entry: its key, the response stored
/// under it, and the moment (seconds since the Unix epoch) it expires.
#[verifier::ext_equal]
pub ghost struct CacheEntryModel {
    pub key: CacheKey,
    pub value: Order,
    pub expires_at: i64,
}

/// The key under which a creation request is deduplicated.
pub open spec fn cache_key(table_id: i32, dish_id: i32, token: Seq<u8>) -> CacheKey {
    CacheKey { table_id, dish_id, token }
}

/// The response stored under `key`, provided its entry is unexpired at
/// `now`; an expired entry and an absent one alike yield `None`.
pub open spec fn cache_lookup(
    entries: Seq<CacheEntryModel>,
    key: CacheKey,
    now: i64,
) -> Option<Order>
    decreases entries.len(),
{
    if entries.len() == 0 {
        Option::None
    } else if entries[0].key == key {
        if now < entries[0].expires_at {
            Option::Some(entries[0].value)
        } else {
            Option::None
        }
    } else {
        cache_lookup(entries.drop_first(), key, now)
    }
}

/// Writing an entry replaces the one already stored under its key, or
/// appends a new one; every other entry is untouched.
pub open spec fn cache_put(
    entries: Seq<CacheEntryModel>,
    e: CacheEntryModel,
) -> Seq<CacheEntryModel>
    decreases entries.len(),
{
    if entries.len() == 0 {
        seq![e]
    } else if entries[0].key == e.key {
        seq![e] + entries.drop_first()
    } else {
        seq![entries[0]] + cache_put(entries.drop_first(), e)
    }
}

struct CacheEntry {
    table_id: i32,
    dish_id: i32,
    token: Vec<u8>,
    value: Order,
    expires_at: i64,
}

impl View for CacheEntry {
    type V = CacheEntryModel;

    closed spec fn view(&self) -> CacheEntryModel {
        CacheEntryModel {
            key: cache_key(self.table_id, self.dish_id, self.token@),
            value: self.value,
            expires_at: self.expires_at,
        }
    }
}

/// A key-value store with expiry. Entries live for a fixed time from the
/// moment they are written; a write under an existing key overwrites it.
pub struct IdempotencyCache {
    entries: Vec<CacheEntry>,
}

impl View for IdempotencyCache {
    type V = Seq<CacheEntryModel>;

    closed spec fn view(&self) -> Seq<CacheEntryModel> {
        self.entries@.map_values(|e: CacheEntry| e@)
    }
}

/// Whether two byte strings hold the same bytes.
fn bytes_eq(a: &Vec<u8>, b: &Vec<u8>) -> (r: bool)
    ensures
        r == (a@ == b@),
{
    if a.len() != b.len() {
        return false;
    }
    let n = a.len();
    let mut i: usize = 0;
    while i < n
        invariant
            i <= n,
            n == a@.len() == b@.len(),
            forall|j: int| 0 <= j < i ==> a@[j] == b@[j],
        decreases n - i,
    {
        if a[i] != b[i] {
            return false;
        }
        i = i + 1;
    }
    proof {
        assert(a@ =~= b@);
    }
    true
}

impl IdempotencyCache {
    /// An empty cache.
    pub fn new() -> (c: Self)
        ensures
            c@ == Seq::<CacheEntryModel>::empty(),
    {
        let c = IdempotencyCache { entries: Vec::new() };
        proof {
            assert(c@ =~= Seq::<CacheEntryModel>::empty());
        }
        c
    }

    /// Returns the response previously stored under the key, if present and
    /// unexpired at `now`.
    pub fn get(&self, table_id: i32, dish_id: i32, token: &Vec<u8>, now: i64) -> (r: Option<
        Order,
    >)
        ensures
            r == cache_lookup(self@, cache_key(table_id, dish_id, token@), now),
    {
        let ghost key = cache_key(table_id, dish_id, token@);
        proof {
            assert(self@.skip(0) =~= self@);
        }
        let n = self.entries.len();
        let mut i: usize = 0;
        while i < n
            invariant
                i <= n,
                n == self@.len(),
                key == cache_key(table_id, dish_id, token@),
                cache_lookup(self@, key, now) == cache_lookup(self@.skip(i as int), key, now),
            decreases n - i,
        {
            let e = &self.entries[i];
            proof {
                assert(self@.skip(i as int)[0] == self@[i as int]);
                assert(self@[i as int] == self.entries@[i as int]@);
                assert(self@.skip(i as int).drop_first() =~= self@.skip(i as int + 1));
            }
            if e.table_id == table_id && e.dish_id == dish_id && bytes_eq(&e.token, token) {
                proof {
                    assert(self@.skip(i as int)[0].key =~= key);
                }
                if now < e.expires_at {
                    return Some(e.value);
                } else {
                    return None;
                }
            }
            proof {
                assert(self@.skip(i as int)[0].key != key);
            }
            i = i + 1;
        }
        proof {
            assert(self@.skip(i as int) =~= Seq::<CacheEntryModel>::empty());
        }
        None
    }

    /// Stores `value` under the key, overwriting any prior entry for it; the
    /// entry expires `ttl` seconds after `now`.
    pub fn set_with_ttl(
        &mut self,
        table_id: i32,
        dish_id: i32,
        token: Vec<u8>,
        value: Order,
        now: i64,
        ttl: i64,
    )
        requires
            0 <= ttl,
            now + ttl <= i64::MAX,
        ensures
            final(self)@ == cache_put(
                old(self)@,
                CacheEntryModel {
                    key: cache_key(table_id, dish_id, token@),
                    value,
                    expires_at: (now + ttl) as i64,
                },
            ),
    {
        let expires_at = now + ttl;
        let ghost e = CacheEntryModel {
            key: cache_key(table_id, dish_id, token@),
            value,
            expires_at: (now + ttl) as i64,
        };
        let ghost orig = self@;
        proof {
            assert(orig.skip(0) =~= orig);
            assert(orig.take(0) + cache_put(orig, e) =~= cache_put(orig, e));
        }
        let n = self.entries.len();
        let mut i: usize = 0;
        while i < n
            invariant
                i <= n,
                self@ == orig,
                orig == old(self)@,
                n == self@.len(),
                e == (CacheEntryModel {
                    key: cache_key(table_id, dish_id, token@),
                    value,
                    expires_at: expires_at,
                }),
                expires_at == now + ttl,
                cache_put(orig, e) == orig.take(i as int) + cache_put(orig.skip(i as int), e),
            decreases n - i,
        {
            let matched = {
                let cur = &self.entries[i];
                cur.table_id == table_id && cur.dish_id == dish_id && bytes_eq(&cur.token, &token)
            };
            proof {
                assert(orig.skip(i as int)[0] == orig[i as int]);
                assert(orig[i as int] == self.entries@[i as int]@);
                assert(orig.skip(i as int).drop_first() =~= orig.skip(i as int + 1));
            }
            if matched {
                proof {
                    assert(orig.skip(i as int)[0].key =~= e.key);
                }
                self.entries.remove(i);
                self.entries.insert(
                    i,
                    CacheEntry { table_id, dish_id, token, value, expires_at },
                );
                proof {
                    assert(self@ =~= orig.take(i as int) + (seq![e] + orig.skip(i as int + 1)));
                    assert(self@ =~= cache_put(orig, e));
                }
                return ;
            }
            proof {
                assert(orig.skip(i as int)[0].key != e.key);
                assert(orig.take(i as int) + (seq![orig[i as int]] + cache_put(
                    orig.skip(i as int + 1),
                    e,
                )) =~= orig.take(i as int + 1) + cache_put(orig.skip(i as int + 1), e));
            }
            i = i + 1;
        }
        self.entries.push(CacheEntry { table_id, dish_id, token, value, expires_at });
        proof {
            assert(orig.skip(n as int) =~= Seq::<CacheEntryModel>::empty());
            assert(self@ =~= orig.take(n as int) + seq![e]);
            assert(self@ =~= cache_put(orig, e));
        }
    }
}

} // verus!
