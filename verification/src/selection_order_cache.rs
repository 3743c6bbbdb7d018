//! A cache sorted by tab order and then by entity id.
//! Used to quickly find the next or previous selectable entities.
//!
//! The cache is reconciled once per scheduling cycle against the live set of
//! selectable entities, handed in as plain `(order key, entity)` pairs.

use vstd::prelude::*;
use crate::Entity;

verus! {

broadcast use vstd::seq_lib::group_seq_properties;

/// `true` when entry `a` comes strictly before entry `b` in cache order:
/// ascending order key, ties broken by ascending entity id.
pub open spec fn entry_lt(a: (u32, Entity), b: (u32, Entity)) -> bool {
    a.0 < b.0 || (a.0 == b.0 && a.1.id < b.1.id)
}

/// The sequence is strictly sorted in cache order: every earlier entry
/// comes strictly before every later one.
pub open spec fn sorted(s: Seq<(u32, Entity)>) -> bool {
    forall|i: int, j: int| 0 <= i < j < s.len() ==> entry_lt(s[i], s[j])
}

/// No entity appears in two entries of the sequence.
pub open spec fn distinct_entities(s: Seq<(u32, Entity)>) -> bool {
    forall|i: int, j: int| 0 <= i < j < s.len() ==> s[i].1 != s[j].1
}

/// Some entry of `s` names the entity `e`.
pub open spec fn has_entity(s: Seq<(u32, Entity)>, e: Entity) -> bool {
    exists|p: (u32, Entity)| s.contains(p) && p.1 == e
}

/// The entities of `s`, in entry order.
pub open spec fn entity_seq(s: Seq<(u32, Entity)>) -> Seq<Entity> {
    Seq::new(s.len(), |i: int| s[i].1)
}

/// Decides `entry_lt` on concrete entries.
fn entry_lt_exec(a: (u32, Entity), b: (u32, Entity)) -> (r: bool)
    ensures
        r == entry_lt(a, b),
{
    a.0 < b.0 || (a.0 == b.0 && a.1.id < b.1.id)
}

/// Linear membership scan over a plain entity list.
fn contains_entity(list: &Vec<Entity>, e: Entity) -> (r: bool)
    ensures
        r == list@.contains(e),
{
    let n: usize = list.len();
    let mut k: usize = 0;
    while k < n
        invariant
            n == list@.len(),
            k <= n,
            forall|j: int| 0 <= j < k ==> list@[j] != e,
        decreases n - k,
    {
        if list[k] == e {
            return true;
        }
        k = k + 1;
    }
    false
}

/// The current order key of `e` in the live set: `Some` exactly when some
/// live entry names `e`, and then a key under which `e` is live.
fn order_of(live: &Vec<(u32, Entity)>, e: Entity) -> (r: Option<u32>)
    ensures
        r is Some <==> has_entity(live@, e),
        r matches Some(k) ==> live@.contains((k, e)),
{
    let n: usize = live.len();
    let mut k: usize = 0;
    while k < n
        invariant
            n == live@.len(),
            k <= n,
            forall|j: int| 0 <= j < k ==> live@[j].1 != e,
        decreases n - k,
    {
        if live[k].1 == e {
            let key: u32 = live[k].0;
            assert(live@.contains((key, e)));
            return Some(key);
        }
        k = k + 1;
    }
    assert(forall|p: (u32, Entity)| live@.contains(p) ==> p.1 != e);
    None
}

/// The first cache position whose stored order key is strictly greater than
/// `key`; `None` when no stored key exceeds `key` (or the cache is empty).
fn find_insert_pos(cache: &Vec<(u32, Entity)>, key: u32) -> (r: Option<usize>)
    ensures
        match r {
            Some(p) => p < cache@.len() && key < cache@[p as int].0
                && forall|j: int| 0 <= j < p ==> !(key < cache@[j].0),
            None => forall|j: int| 0 <= j < cache@.len() ==> !(key < cache@[j].0),
        },
{
    let n: usize = cache.len();
    let mut k: usize = 0;
    while k < n
        invariant
            n == cache@.len(),
            k <= n,
            forall|j: int| 0 <= j < k ==> !(key < cache@[j].0),
        decreases n - k,
    {
        if key < cache[k].0 {
            return Some(k);
        }
        k = k + 1;
    }
    None
}

/// Step 1 of reconciliation: drop every entry whose entity is no longer
/// live. Returns the kept entries (in their old order) and the entities of
/// the dropped entries.
fn prune(cache: &Vec<(u32, Entity)>, live: &Vec<(u32, Entity)>) -> (r: (
    Vec<(u32, Entity)>,
    Vec<Entity>,
))
    requires
        distinct_entities(cache@),
    ensures
        distinct_entities(r.0@),
        forall|p: (u32, Entity)|
            #![trigger r.0@.contains(p)]
            #![trigger cache@.contains(p)]
            r.0@.contains(p) <==> (cache@.contains(p) && has_entity(live@, p.1)),
        forall|e: Entity| #[trigger]
            r.1@.contains(e) <==> (has_entity(cache@, e) && !has_entity(live@, e)),
{
    let n: usize = cache.len();
    let mut kept: Vec<(u32, Entity)> = Vec::new();
    let mut removed: Vec<Entity> = Vec::new();
    let mut k: usize = 0;
    while k < n
        invariant
            n == cache@.len(),
            k <= n,
            distinct_entities(cache@),
            forall|p: (u32, Entity)| #[trigger]
                kept@.contains(p) <==> (cache@.take(k as int).contains(p) && has_entity(
                    live@,
                    p.1,
                )),
            forall|e: Entity| #[trigger]
                removed@.contains(e) <==> (has_entity(cache@.take(k as int), e) && !has_entity(
                    live@,
                    e,
                )),
            forall|i: int, j: int|
                0 <= i < j < kept@.len() ==> (#[trigger] kept@[i]).1 != (#[trigger] kept@[j]).1,
        decreases n - k,
    {
        let entry: (u32, Entity) = cache[k];
        let ghost prefix = cache@.take(k as int);
        let ghost prefix1 = cache@.take(k as int + 1);
        proof {
            assert(prefix1 =~= prefix.push(entry));
            // an entry of the longer prefix is an entry of the shorter one or `entry`,
            // and likewise for the entities the prefixes name
            assert(forall|p: (u32, Entity)| #[trigger]
                prefix1.contains(p) <==> (prefix.contains(p) || p == entry));
            assert(has_entity(prefix1, entry.1)) by {
                assert(prefix1.contains(entry));
            }
            assert(forall|e: Entity|
                has_entity(prefix1, e) <==> (has_entity(prefix, e) || e == entry.1)) by {
                assert(forall|e: Entity| has_entity(prefix, e) ==> has_entity(prefix1, e)) by {
                    assert(forall|p: (u32, Entity)| #[trigger]
                        prefix.contains(p) ==> prefix1.contains(p));
                }
            }
            // `entry`'s entity is fresh among the kept entries: every kept entry
            // stems from an earlier cache index, and cache entities are distinct
            assert(forall|p: (u32, Entity)| #[trigger] kept@.contains(p) ==> p.1 != entry.1) by {
                assert(forall|p: (u32, Entity)| #[trigger]
                    prefix.contains(p) ==> p.1 != entry.1) by {
                    assert(forall|j: int|
                        0 <= j < k as int ==> (#[trigger] cache@[j]).1 != cache@[k as int].1);
                }
            }
        }
        if order_of(live, entry.1).is_some() {
            let ghost kept_old = kept@;
            kept.push(entry);
            proof {
                assert(forall|i: int|
                    0 <= i < kept_old.len() ==> kept_old.contains(#[trigger] kept_old[i]));
                assert(forall|i: int| 0 <= i < kept_old.len() ==> kept@[i] == kept_old[i]);
                assert(kept@[kept@.len() - 1] == entry);
            }
        } else {
            removed.push(entry.1);
        }
        k = k + 1;
    }
    proof {
        assert(cache@.take(n as int) =~= cache@);
    }
    (kept, removed)
}

/// Step 1 of reconciliation, membership half: drop the removed entities from
/// the membership list.
fn retain_not_removed(cached: &Vec<Entity>, removed: &Vec<Entity>) -> (r: Vec<Entity>)
    ensures
        forall|e: Entity|
            #![trigger r@.contains(e)]
            #![trigger cached@.contains(e)]
            r@.contains(e) <==> (cached@.contains(e) && !removed@.contains(e)),
{
    let n: usize = cached.len();
    let mut out: Vec<Entity> = Vec::new();
    let mut k: usize = 0;
    while k < n
        invariant
            n == cached@.len(),
            k <= n,
            forall|e: Entity| #[trigger]
                out@.contains(e) <==> (cached@.take(k as int).contains(e) && !removed@.contains(
                    e,
                )),
        decreases n - k,
    {
        let e: Entity = cached[k];
        proof {
            assert(cached@.take(k as int + 1) =~= cached@.take(k as int).push(e));
        }
        if !contains_entity(removed, e) {
            out.push(e);
        }
        k = k + 1;
    }
    proof {
        assert(cached@.take(n as int) =~= cached@);
    }
    out
}

/// Step 2 of reconciliation: overwrite every stored order key with the
/// entity's current live key. Every cache entity must still be live, which
/// step 1 has just arranged.
fn refresh_keys(cache: &Vec<(u32, Entity)>, live: &Vec<(u32, Entity)>) -> (r: Vec<(u32, Entity)>)
    requires
        distinct_entities(cache@),
        forall|p: (u32, Entity)| #[trigger] cache@.contains(p) ==> has_entity(live@, p.1),
    ensures
        r@.len() == cache@.len(),
        forall|i: int|
            0 <= i < r@.len() ==> (#[trigger] r@[i]).1 == cache@[i].1 && live@.contains(r@[i]),
        distinct_entities(r@),
{
    let n: usize = cache.len();
    let mut out: Vec<(u32, Entity)> = Vec::new();
    let mut k: usize = 0;
    while k < n
        invariant
            n == cache@.len(),
            k <= n,
            distinct_entities(cache@),
            forall|p: (u32, Entity)| #[trigger] cache@.contains(p) ==> has_entity(live@, p.1),
            out@.len() == k as int,
            forall|i: int|
                0 <= i < k as int ==> (#[trigger] out@[i]).1 == cache@[i].1 && live@.contains(
                    out@[i],
                ),
        decreases n - k,
    {
        let entry: (u32, Entity) = cache[k];
        proof {
            assert(cache@.contains(entry));
        }
        match order_of(live, entry.1) {
            Some(key) => {
                out.push((key, entry.1));
            },
            None => {
                proof {
                    assert(false);
                }
            },
        }
        k = k + 1;
    }
    proof {
        assert(forall|i: int, j: int|
            0 <= i < j < out@.len() ==> (#[trigger] out@[i]).1 != (#[trigger] out@[j]).1) by {
            assert(forall|i: int, j: int|
                0 <= i < j < cache@.len() ==> (#[trigger] cache@[i]).1 != (#[trigger] cache@[j]).1);
        }
    }
    out
}

/// Some recorded insertion among the first `upto` carries the pair `y`.
spec fn among_inserts(inserts: Seq<(usize, (u32, Entity))>, upto: int, y: (u32, Entity)) -> bool {
    exists|a: int| 0 <= a < upto && inserts[a].1 == y
}

/// Inserting an entry into a sequence adds exactly that entry to its
/// contents.
proof fn lemma_insert_contains(s: Seq<(u32, Entity)>, i: int, x: (u32, Entity))
    requires
        0 <= i <= s.len(),
    ensures
        forall|y: (u32, Entity)| #[trigger]
            s.insert(i, x).contains(y) <==> (s.contains(y) || y == x),
{
    let t = s.insert(i, x);
    assert(t == s.subrange(0, i).push(x) + s.subrange(i, s.len() as int));
    assert(s =~= s.subrange(0, i) + s.subrange(i, s.len() as int));
}

/// Inserting an entry whose entity is fresh keeps the entities distinct.
proof fn lemma_insert_distinct(s: Seq<(u32, Entity)>, i: int, x: (u32, Entity))
    requires
        0 <= i <= s.len(),
        distinct_entities(s),
        !has_entity(s, x.1),
    ensures
        distinct_entities(s.insert(i, x)),
{
    s.insert_ensures(i, x);
    let t = s.insert(i, x);
    assert(forall|j: int| 0 <= j < s.len() ==> (#[trigger] s[j]).1 != x.1) by {
        assert(forall|j: int| 0 <= j < s.len() ==> s.contains(#[trigger] s[j]));
    }
    assert forall|p: int, q: int| 0 <= p < q < t.len() implies (#[trigger] t[p]).1 != (
    #[trigger] t[q]).1 by {
        if p < i && q < i {
            assert(t[p] == s[p] && t[q] == s[q]);
        } else if p < i && q > i {
            assert(t[p] == s[p] && t[q] == s[q - 1]);
        } else if p == i {
            assert(t[p] == x && t[q] == s[q - 1]);
        } else if q == i {
            assert(t[p] == s[p] && t[q] == x);
        } else if p > i {
            assert(t[p] == s[p - 1] && t[q] == s[q - 1]);
        }
    }
}

/// In a sequence whose entities are distinct, an entity determines its
/// entry: two entries naming the same entity are the same entry.
proof fn lemma_entity_determines_entry(s: Seq<(u32, Entity)>, p: (u32, Entity), q: (u32, Entity))
    requires
        distinct_entities(s),
        s.contains(p),
        s.contains(q),
        p.1 == q.1,
    ensures
        p == q,
{
    let i = choose|i: int| 0 <= i < s.len() && s[i] == p;
    let j = choose|j: int| 0 <= j < s.len() && s[j] == q;
    if i < j {
        assert(s[i].1 != s[j].1);
    } else if j < i {
        assert(s[j].1 != s[i].1);
    }
}

/// Step 3 of reconciliation, scanning half: for each live entity not yet in
/// the membership list, record where it should enter the cache — a position
/// whose stored key strictly exceeds the new key, or an append when there is
/// none — without mutating the cache while it is scanned.
fn collect_new(cache: &Vec<(u32, Entity)>, cached: &Vec<Entity>, live: &Vec<(u32, Entity)>) -> (r:
    (Vec<(usize, (u32, Entity))>, Vec<(u32, Entity)>))
    requires
        distinct_entities(live@),
        forall|e: Entity| #[trigger] cached@.contains(e) <==> has_entity(cache@, e),
    ensures
        forall|a: int|
            0 <= a < r.0@.len() ==> live@.contains((#[trigger] r.0@[a]).1) && !has_entity(
                cache@,
                r.0@[a].1.1,
            ) && r.0@[a].0 < cache@.len(),
        forall|a: int|
            0 <= a < r.1@.len() ==> live@.contains(#[trigger] r.1@[a]) && !has_entity(
                cache@,
                r.1@[a].1,
            ),
        forall|a: int, b: int|
            0 <= a < b < r.0@.len() ==> (#[trigger] r.0@[a]).1.1 != (#[trigger] r.0@[b]).1.1,
        forall|a: int, b: int|
            0 <= a < b < r.1@.len() ==> (#[trigger] r.1@[a]).1 != (#[trigger] r.1@[b]).1,
        forall|a: int, b: int|
            0 <= a < r.0@.len() && 0 <= b < r.1@.len() ==> (#[trigger] r.0@[a]).1.1 != (
            #[trigger] r.1@[b]).1,
        forall|j: int|
            0 <= j < live@.len() ==> has_entity(cache@, (#[trigger] live@[j]).1) || among_inserts(
                r.0@,
                r.0@.len() as int,
                live@[j],
            ) || r.1@.contains(live@[j]),
{
    let n: usize = live.len();
    let mut inserts: Vec<(usize, (u32, Entity))> = Vec::new();
    let mut pushes: Vec<(u32, Entity)> = Vec::new();
    let mut k: usize = 0;
    while k < n
        invariant
            n == live@.len(),
            k <= n,
            distinct_entities(live@),
            forall|e: Entity| #[trigger] cached@.contains(e) <==> has_entity(cache@, e),
            forall|a: int|
                0 <= a < inserts@.len() ==> exists|j: int|
                    0 <= j < k && live@[j] == (#[trigger] inserts@[a]).1,
            forall|a: int|
                0 <= a < pushes@.len() ==> exists|j: int|
                    0 <= j < k && live@[j] == #[trigger] pushes@[a],
            forall|a: int|
                0 <= a < inserts@.len() ==> !has_entity(cache@, (#[trigger] inserts@[a]).1.1)
                    && inserts@[a].0 < cache@.len(),
            forall|a: int| 0 <= a < pushes@.len() ==> !has_entity(cache@, (#[trigger] pushes@[a]).1),
            forall|a: int, b: int|
                0 <= a < b < inserts@.len() ==> (#[trigger] inserts@[a]).1.1 != (
                #[trigger] inserts@[b]).1.1,
            forall|a: int, b: int|
                0 <= a < b < pushes@.len() ==> (#[trigger] pushes@[a]).1 != (
                #[trigger] pushes@[b]).1,
            forall|a: int, b: int|
                0 <= a < inserts@.len() && 0 <= b < pushes@.len() ==> (#[trigger] inserts@[a]).1.1
                    != (#[trigger] pushes@[b]).1,
            forall|j: int|
                0 <= j < k ==> has_entity(cache@, (#[trigger] live@[j]).1) || among_inserts(
                    inserts@,
                    inserts@.len() as int,
                    live@[j],
                ) || pushes@.contains(live@[j]),
        decreases n - k,
    {
        let entry: (u32, Entity) = live[k];
        proof {
            // the entity at index `k` was not collected before: everything
            // collected stems from an earlier live index, and live entities
            // are distinct
            assert forall|a: int| 0 <= a < inserts@.len() implies (#[trigger] inserts@[a]).1.1
                != entry.1 by {
                let j = choose|j: int| 0 <= j < k && live@[j] == inserts@[a].1;
                assert(live@[j].1 != live@[k as int].1);
            }
            assert forall|a: int| 0 <= a < pushes@.len() implies (#[trigger] pushes@[a]).1
                != entry.1 by {
                let j = choose|j: int| 0 <= j < k && live@[j] == pushes@[a];
                assert(live@[j].1 != live@[k as int].1);
            }
        }
        if !contains_entity(cached, entry.1) {
            let ghost inserts_old = inserts@;
            let ghost pushes_old = pushes@;
            match find_insert_pos(cache, entry.0) {
                Some(pos) => {
                    inserts.push((pos, entry));
                    proof {
                        assert(forall|a: int|
                            0 <= a < inserts_old.len() ==> inserts@[a] == #[trigger] inserts_old[a]);
                        assert(inserts@[inserts@.len() - 1] == (pos, entry));
                        assert(live@[k as int] == inserts@[inserts@.len() - 1].1);
                        assert(among_inserts(inserts@, inserts@.len() as int, entry));
                    }
                },
                None => {
                    pushes.push(entry);
                    proof {
                        assert(forall|a: int|
                            0 <= a < pushes_old.len() ==> pushes@[a] == #[trigger] pushes_old[a]);
                        assert(pushes@[pushes@.len() - 1] == entry);
                        assert(live@[k as int] == pushes@[pushes@.len() - 1]);
                        assert(pushes@.contains(entry));
                    }
                },
            }
            proof {
                // earlier coverage claims survive the longer collection
                assert(forall|y: (u32, Entity)|
                    among_inserts(inserts_old, inserts_old.len() as int, y) ==> among_inserts(
                        inserts@,
                        inserts@.len() as int,
                        y,
                    ));
                assert(forall|y: (u32, Entity)| #[trigger]
                    pushes_old.contains(y) ==> pushes@.contains(y));
            }
        }
        k = k + 1;
    }
    proof {
        // at the end every collected element's witness index lies below `n`,
        // so it is a live entry
        assert forall|a: int| 0 <= a < inserts@.len() implies live@.contains(
            (#[trigger] inserts@[a]).1,
        ) by {
            let j = choose|j: int| 0 <= j < n && live@[j] == inserts@[a].1;
            assert(live@[j] == inserts@[a].1);
        }
        assert forall|a: int| 0 <= a < pushes@.len() implies live@.contains(
            #[trigger] pushes@[a],
        ) by {
            let j = choose|j: int| 0 <= j < n && live@[j] == pushes@[a];
            assert(live@[j] == pushes@[a]);
        }
    }
    (inserts, pushes)
}

/// Step 3 of reconciliation, application half: apply the recorded positional
/// insertions, then the recorded appends.
fn apply_new(
    cache: &mut Vec<(u32, Entity)>,
    inserts: &Vec<(usize, (u32, Entity))>,
    pushes: &Vec<(u32, Entity)>,
)
    requires
        distinct_entities(old(cache)@),
        forall|a: int|
            0 <= a < inserts@.len() ==> !has_entity(old(cache)@, (#[trigger] inserts@[a]).1.1)
                && inserts@[a].0 < old(cache)@.len(),
        forall|a: int|
            0 <= a < pushes@.len() ==> !has_entity(old(cache)@, (#[trigger] pushes@[a]).1),
        forall|a: int, b: int|
            0 <= a < b < inserts@.len() ==> (#[trigger] inserts@[a]).1.1 != (
            #[trigger] inserts@[b]).1.1,
        forall|a: int, b: int|
            0 <= a < b < pushes@.len() ==> (#[trigger] pushes@[a]).1 != (#[trigger] pushes@[b]).1,
        forall|a: int, b: int|
            0 <= a < inserts@.len() && 0 <= b < pushes@.len() ==> (#[trigger] inserts@[a]).1.1 != (
            #[trigger] pushes@[b]).1,
    ensures
        distinct_entities(final(cache)@),
        forall|y: (u32, Entity)|
            #![trigger final(cache)@.contains(y)]
            final(cache)@.contains(y) <==> (old(cache)@.contains(y) || among_inserts(
                inserts@,
                inserts@.len() as int,
                y,
            ) || pushes@.contains(y)),
{
    let ghost pre = old(cache)@;
    let ni: usize = inserts.len();
    let mut a: usize = 0;
    while a < ni
        invariant
            ni == inserts@.len(),
            a <= ni,
            pre == old(cache)@,
            cache@.len() == pre.len() + a,
            distinct_entities(pre),
            distinct_entities(cache@),
            forall|b: int|
                0 <= b < inserts@.len() ==> !has_entity(pre, (#[trigger] inserts@[b]).1.1)
                    && inserts@[b].0 < pre.len(),
            forall|b: int, c: int|
                0 <= b < c < inserts@.len() ==> (#[trigger] inserts@[b]).1.1 != (
                #[trigger] inserts@[c]).1.1,
            forall|y: (u32, Entity)| #[trigger]
                cache@.contains(y) <==> (pre.contains(y) || among_inserts(inserts@, a as int, y)),
        decreases ni - a,
    {
        let (pos, pair): (usize, (u32, Entity)) = inserts[a];
        let ghost cur = cache@;
        proof {
            // the entry about to enter is fresh: its entity is neither one
            // the cache already held nor one inserted earlier in this pass
            assert(!has_entity(cur, pair.1)) by {
                if has_entity(cur, pair.1) {
                    let y = choose|y: (u32, Entity)| cur.contains(y) && y.1 == pair.1;
                    if pre.contains(y) {
                        assert(has_entity(pre, pair.1));
                    } else {
                        let b = choose|b: int| 0 <= b < a && inserts@[b].1 == y;
                        assert(inserts@[b].1.1 != inserts@[a as int].1.1);
                    }
                }
            }
            lemma_insert_contains(cur, pos as int, pair);
            lemma_insert_distinct(cur, pos as int, pair);
        }
        cache.insert(pos, pair);
        proof {
            assert(among_inserts(inserts@, a as int + 1, pair)) by {
                assert(inserts@[a as int].1 == pair);
            }
            assert(forall|y: (u32, Entity)|
                among_inserts(inserts@, a as int, y) ==> among_inserts(inserts@, a as int + 1, y));
            assert forall|y: (u32, Entity)| among_inserts(inserts@, a as int + 1, y) implies (
            among_inserts(inserts@, a as int, y) || y == pair) by {
                let b = choose|b: int| 0 <= b < a as int + 1 && inserts@[b].1 == y;
                if b < a as int {
                    assert(among_inserts(inserts@, a as int, y));
                }
            }
        }
        a = a + 1;
    }
    let np: usize = pushes.len();
    let mut b: usize = 0;
    while b < np
        invariant
            np == pushes@.len(),
            b <= np,
            pre == old(cache)@,
            distinct_entities(pre),
            distinct_entities(cache@),
            forall|c: int|
                0 <= c < pushes@.len() ==> !has_entity(pre, (#[trigger] pushes@[c]).1),
            forall|c: int, d: int|
                0 <= c < d < pushes@.len() ==> (#[trigger] pushes@[c]).1 != (
                #[trigger] pushes@[d]).1,
            forall|c: int, d: int|
                0 <= c < inserts@.len() && 0 <= d < pushes@.len() ==> (#[trigger] inserts@[c]).1.1
                    != (#[trigger] pushes@[d]).1,
            forall|y: (u32, Entity)| #[trigger]
                cache@.contains(y) <==> (pre.contains(y) || among_inserts(
                    inserts@,
                    inserts@.len() as int,
                    y,
                ) || pushes@.take(b as int).contains(y)),
        decreases np - b,
    {
        let pair: (u32, Entity) = pushes[b];
        let ghost cur = cache@;
        proof {
            assert(!has_entity(cur, pair.1)) by {
                if has_entity(cur, pair.1) {
                    let y = choose|y: (u32, Entity)| cur.contains(y) && y.1 == pair.1;
                    if pre.contains(y) {
                        assert(has_entity(pre, pair.1));
                    } else if among_inserts(inserts@, inserts@.len() as int, y) {
                        let c = choose|c: int|
                            0 <= c < inserts@.len() && inserts@[c].1 == y;
                        assert(inserts@[c].1.1 != pushes@[b as int].1);
                    } else {
                        let d = choose|d: int|
                            0 <= d < b as int && pushes@.take(b as int)[d] == y;
                        assert(pushes@[d].1 != pushes@[b as int].1);
                    }
                }
            }
            lemma_insert_contains(cur, cur.len() as int, pair);
            lemma_insert_distinct(cur, cur.len() as int, pair);
            assert(cur.insert(cur.len() as int, pair) =~= cur.push(pair));
            assert(pushes@.take(b as int + 1) =~= pushes@.take(b as int).push(pair));
        }
        cache.push(pair);
        b = b + 1;
    }
    proof {
        assert(pushes@.take(np as int) =~= pushes@);
    }
}

/// Step 4 of reconciliation: rebuild the membership list from the full live
/// set, not from the cache, so that it mirrors the live entities exactly.
fn rebuild_membership(live: &Vec<(u32, Entity)>) -> (r: Vec<Entity>)
    ensures
        r@ == entity_seq(live@),
{
    let n: usize = live.len();
    let mut out: Vec<Entity> = Vec::new();
    let mut k: usize = 0;
    while k < n
        invariant
            n == live@.len(),
            k <= n,
            out@.len() == k as int,
            forall|j: int| 0 <= j < k ==> #[trigger] out@[j] == live@[j].1,
        decreases n - k,
    {
        out.push(live[k].1);
        k = k + 1;
    }
    proof {
        assert(out@ =~= entity_seq(live@));
    }
    out
}

/// Step 5 of reconciliation, inner step: place one entry at its sorted
/// position. The entry's entity must be new to the sequence, which keeps the
/// order strict.
fn sorted_insert(out: &mut Vec<(u32, Entity)>, x: (u32, Entity))
    requires
        sorted(old(out)@),
        distinct_entities(old(out)@),
        !has_entity(old(out)@, x.1),
    ensures
        sorted(final(out)@),
        distinct_entities(final(out)@),
        final(out)@.len() == old(out)@.len() + 1,
        forall|y: (u32, Entity)|
            #![trigger final(out)@.contains(y)]
            #![trigger old(out)@.contains(y)]
            final(out)@.contains(y) <==> (old(out)@.contains(y) || y == x),
{
    let n: usize = out.len();
    let ghost before = out@;
    proof {
        // the new entity differs from every stored one
        assert(forall|j: int| 0 <= j < before.len() ==> (#[trigger] before[j]).1 != x.1) by {
            assert(forall|j: int|
                0 <= j < before.len() ==> before.contains(#[trigger] before[j]));
        }
    }
    let mut k: usize = 0;
    while k < n
        invariant
            n == out@.len(),
            out@ == before,
            before == old(out)@,
            sorted(before),
            distinct_entities(before),
            forall|j: int| 0 <= j < n ==> (#[trigger] before[j]).1 != x.1,
            k <= n,
            forall|j: int| 0 <= j < k ==> !entry_lt(x, #[trigger] before[j]),
        decreases n - k,
    {
        if entry_lt_exec(x, out[k]) {
            proof {
                before.insert_ensures(k as int, x);
            }
            out.insert(k, x);
            proof {
                assert(sorted(out@)) by {
                    assert(forall|j: int|
                        0 <= j < k as int ==> entry_lt(#[trigger] before[j], x));
                    assert forall|j: int|
                        #![trigger before[j]]
                        k as int <= j < before.len() implies entry_lt(x, before[j]) by {
                        assert(entry_lt(x, before[k as int]));
                        assert((k as int) < j ==> entry_lt(before[k as int], before[j]));
                    }
                }
                assert(distinct_entities(out@));
                assert(forall|y: (u32, Entity)|
                    #![trigger out@.contains(y)]
                    #![trigger before.contains(y)]
                    out@.contains(y) <==> (before.contains(y) || y == x)) by {
                    assert(out@ == before.subrange(0, k as int).push(x) + before.subrange(
                        k as int,
                        before.len() as int,
                    ));
                    assert(forall|y: (u32, Entity)| #[trigger]
                        before.contains(y) ==> out@.contains(y)) by {
                        assert(before =~= before.subrange(0, k as int) + before.subrange(
                            k as int,
                            before.len() as int,
                        ));
                    }
                }
            }
            return ;
        }
        k = k + 1;
    }
    out.push(x);
    proof {
        assert(sorted(out@)) by {
            assert(forall|j: int| 0 <= j < before.len() ==> entry_lt(#[trigger] before[j], x));
            assert(forall|j: int| 0 <= j < before.len() ==> out@[j] == before[j]);
            assert(out@[out@.len() - 1] == x);
        }
        assert(distinct_entities(out@));
    }
}

/// Step 5 of reconciliation: sort the cache ascending by order key, ties
/// broken by ascending entity id, by inserting each entry at its sorted
/// position in a fresh sequence.
fn sort_entries(cache: &Vec<(u32, Entity)>) -> (r: Vec<(u32, Entity)>)
    requires
        distinct_entities(cache@),
    ensures
        sorted(r@),
        distinct_entities(r@),
        forall|y: (u32, Entity)|
            #![trigger r@.contains(y)]
            #![trigger cache@.contains(y)]
            r@.contains(y) <==> cache@.contains(y),
{
    let n: usize = cache.len();
    let mut out: Vec<(u32, Entity)> = Vec::new();
    let mut k: usize = 0;
    while k < n
        invariant
            n == cache@.len(),
            k <= n,
            distinct_entities(cache@),
            sorted(out@),
            distinct_entities(out@),
            forall|y: (u32, Entity)| #[trigger]
                out@.contains(y) <==> cache@.take(k as int).contains(y),
        decreases n - k,
    {
        let entry: (u32, Entity) = cache[k];
        proof {
            let prefix = cache@.take(k as int);
            assert(cache@.take(k as int + 1) =~= prefix.push(entry));
            // the next entity is fresh in `out`: the prefix it mirrors lies
            // strictly before index `k`, where entities are all distinct
            assert(!has_entity(out@, entry.1)) by {
                assert(forall|p: (u32, Entity)| #[trigger] prefix.contains(p) ==> p.1 != entry.1)
                    by {
                    assert(forall|j: int|
                        0 <= j < k as int ==> (#[trigger] cache@[j]).1 != cache@[k as int].1);
                }
            }
        }
        sorted_insert(&mut out, entry);
        k = k + 1;
    }
    proof {
        assert(cache@.take(n as int) =~= cache@);
    }
    out
}

/// Two sequences with the same entity at every index name the same
/// entities.
proof fn lemma_same_entities(s1: Seq<(u32, Entity)>, s2: Seq<(u32, Entity)>)
    requires
        s1.len() == s2.len(),
        forall|i: int| 0 <= i < s1.len() ==> (#[trigger] s1[i]).1 == (#[trigger] s2[i]).1,
    ensures
        forall|e: Entity| has_entity(s1, e) <==> has_entity(s2, e),
{
    assert forall|e: Entity| has_entity(s1, e) implies has_entity(s2, e) by {
        let p = choose|p: (u32, Entity)| s1.contains(p) && p.1 == e;
        let i = choose|i: int| 0 <= i < s1.len() && s1[i] == p;
        assert(s2.contains(s2[i]));
    }
    assert forall|e: Entity| has_entity(s2, e) implies has_entity(s1, e) by {
        let p = choose|p: (u32, Entity)| s2.contains(p) && p.1 == e;
        let i = choose|i: int| 0 <= i < s2.len() && s2[i] == p;
        assert(s1.contains(s1[i]));
    }
}

/// Two sequences with the same entries name the same entities.
proof fn lemma_same_contents_same_entities(s1: Seq<(u32, Entity)>, s2: Seq<(u32, Entity)>)
    requires
        forall|p: (u32, Entity)|
            #![trigger s1.contains(p)]
            #![trigger s2.contains(p)]
            s1.contains(p) <==> s2.contains(p),
    ensures
        forall|e: Entity| has_entity(s1, e) <==> has_entity(s2, e),
{
    assert forall|e: Entity| has_entity(s1, e) implies has_entity(s2, e) by {
        let p = choose|p: (u32, Entity)| s1.contains(p) && p.1 == e;
        assert(s2.contains(p));
    }
    assert forall|e: Entity| has_entity(s2, e) implies has_entity(s1, e) by {
        let p = choose|p: (u32, Entity)| s2.contains(p) && p.1 == e;
        assert(s1.contains(p));
    }
}

/// The entity list of `s` holds exactly the entities that `s` names.
proof fn lemma_entity_seq_contains(s: Seq<(u32, Entity)>)
    ensures
        forall|e: Entity| #[trigger] entity_seq(s).contains(e) <==> has_entity(s, e),
{
    assert forall|e: Entity| #[trigger] entity_seq(s).contains(e) implies has_entity(s, e) by {
        let i = choose|i: int| 0 <= i < entity_seq(s).len() && entity_seq(s)[i] == e;
        assert(s.contains(s[i]));
    }
    assert forall|e: Entity| has_entity(s, e) implies #[trigger] entity_seq(s).contains(e) by {
        let p = choose|p: (u32, Entity)| s.contains(p) && p.1 == e;
        let i = choose|i: int| 0 <= i < s.len() && s[i] == p;
        assert(entity_seq(s)[i] == e);
    }
}

/// A cache sorted by tab order and then by entity id.
#[derive(Clone, Debug)]
pub struct CachedSelectionOrder {
    /// Membership list mirroring the entities held in `cache`, used to
    /// detect entities newly added since the last reconciliation pass.
    pub cached: Vec<Entity>,
    /// The cache holding the selection order and the corresponding entity.
    pub cache: Vec<(u32, Entity)>,
}

/// The cache state that reconciliation against `live` must produce: the
/// entries are strictly sorted in cache order, they are exactly the live
/// `(order key, entity)` pairs, and the membership list holds the live
/// entities in live order.
pub open spec fn reconciled(c: CachedSelectionOrder, live: Seq<(u32, Entity)>) -> bool {
    &&& sorted(c.cache@)
    &&& forall|p: (u32, Entity)|
        #![trigger c.cache@.contains(p)]
        #![trigger live.contains(p)]
        c.cache@.contains(p) <==> live.contains(p)
    &&& c.cached@ == entity_seq(live)
}

impl CachedSelectionOrder {
    /// Well-formedness: the cache names no entity twice, and the membership
    /// list holds exactly the entities of the cache.
    pub open spec fn wf(self) -> bool {
        &&& distinct_entities(self.cache@)
        &&& forall|e: Entity|
            #![trigger self.cached@.contains(e)]
            #![trigger has_entity(self.cache@, e)]
            self.cached@.contains(e) <==> has_entity(self.cache@, e)
    }

    /// An empty cache, the state at system start.
    pub fn new() -> (r: CachedSelectionOrder)
        ensures
            r.wf(),
            r.cache@ =~= Seq::<(u32, Entity)>::empty(),
            r.cached@ =~= Seq::<Entity>::empty(),
    {
        let r = CachedSelectionOrder { cached: Vec::new(), cache: Vec::new() };
        proof {
            assert(forall|e: Entity| !r.cached@.contains(e));
            assert(forall|e: Entity| !has_entity(r.cache@, e)) by {
                assert(forall|p: (u32, Entity)| !r.cache@.contains(p));
            }
        }
        r
    }

    /// Reconciles the cache with the live set of selectable entities, handed
    /// in as `(order key, entity)` pairs; run once per scheduling cycle. In
    /// order: prune stale entries, refresh the kept order keys, insert the
    /// new entities near their sorted position, rebuild the membership list
    /// from the live set, and sort — leaving exactly the live pairs,
    /// strictly ordered by key and then by entity id.
    pub fn update(&mut self, live: &Vec<(u32, Entity)>)
        requires
            old(self).wf(),
            distinct_entities(live@),
        ensures
            final(self).wf(),
            reconciled(*final(self), live@),
    {
        let ghost cache0 = self.cache@;
        let ghost cached0 = self.cached@;
        // 1. prune stale entries, from the cache and from the membership list
        let (kept, removed) = prune(&self.cache, live);
        let ghost kept_v = kept@;
        let ghost removed_v = removed@;
        self.cache = kept;
        let retained = retain_not_removed(&self.cached, &removed);
        self.cached = retained;
        proof {
            // the membership list now mirrors the kept entries
            assert forall|e: Entity| #[trigger]
                self.cached@.contains(e) implies has_entity(self.cache@, e) by {
                assert(has_entity(cache0, e) && has_entity(live@, e));
                let p = choose|p: (u32, Entity)| cache0.contains(p) && p.1 == e;
                assert(kept_v.contains(p));
            }
            assert forall|e: Entity| has_entity(self.cache@, e) implies #[trigger]
                self.cached@.contains(e) by {
                let p = choose|p: (u32, Entity)| kept_v.contains(p) && p.1 == e;
                assert(cache0.contains(p) && has_entity(live@, e));
            }
        }
        // 2. refresh the order keys of the kept entries
        let refreshed = refresh_keys(&self.cache, live);
        let ghost refreshed_v = refreshed@;
        proof {
            lemma_same_entities(kept_v, refreshed_v);
            assert forall|p: (u32, Entity)| #[trigger]
                refreshed_v.contains(p) implies live@.contains(p) by {
                let i = choose|i: int| 0 <= i < refreshed_v.len() && refreshed_v[i] == p;
            }
        }
        self.cache = refreshed;
        // 3. insert the new live entities, recording positions against the
        // unmutated cache and applying them afterwards
        let (inserts, pushes) = collect_new(&self.cache, &self.cached, live);
        apply_new(&mut self.cache, &inserts, &pushes);
        let ghost cache3 = self.cache@;
        proof {
            assert forall|y: (u32, Entity)| #[trigger] cache3.contains(y) implies live@.contains(
                y,
            ) by {
                if refreshed_v.contains(y) {
                } else if among_inserts(inserts@, inserts@.len() as int, y) {
                    let a = choose|a: int| 0 <= a < inserts@.len() && inserts@[a].1 == y;
                    assert(live@.contains(inserts@[a].1));
                }
            }
            assert forall|y: (u32, Entity)| live@.contains(y) implies #[trigger] cache3.contains(
                y,
            ) by {
                let j = choose|j: int| 0 <= j < live@.len() && live@[j] == y;
                if has_entity(refreshed_v, live@[j].1) {
                    let p = choose|p: (u32, Entity)| refreshed_v.contains(p) && p.1 == live@[j].1;
                    lemma_entity_determines_entry(live@, p, y);
                }
            }
        }
        // 4. rebuild the membership list from the full live set
        self.cached = rebuild_membership(live);
        // 5. sort by order key, ties broken by entity id
        let sorted_cache = sort_entries(&self.cache);
        self.cache = sorted_cache;
        proof {
            assert(forall|y: (u32, Entity)|
                #![trigger self.cache@.contains(y)]
                #![trigger live@.contains(y)]
                self.cache@.contains(y) <==> live@.contains(y)) by {
                assert(forall|y: (u32, Entity)| #[trigger]
                    self.cache@.contains(y) <==> cache3.contains(y));
                assert(forall|y: (u32, Entity)| #[trigger]
                    cache3.contains(y) <==> live@.contains(y));
            }
            lemma_same_contents_same_entities(self.cache@, live@);
            lemma_entity_seq_contains(live@);
        }
    }

    /// Returns the index of the highest cached element (index in the cache!)
    /// whose entity is currently selected, scanning from the high end.
    pub fn highest_order_selected_index(&self, selected: &Vec<Entity>) -> (r: Option<usize>)
        ensures
            match r {
                Some(i) => i < self.cache@.len() && selected@.contains(self.cache@[i as int].1)
                    && forall|j: int|
                        i < j < self.cache@.len() ==> !selected@.contains(self.cache@[j].1),
                None => forall|j: int|
                    0 <= j < self.cache@.len() ==> !selected@.contains(self.cache@[j].1),
            },
    {
        let n: usize = self.cache.len();
        let mut k: usize = n;
        while k > 0
            invariant
                n == self.cache@.len(),
                k <= n,
                forall|j: int| k <= j < n ==> !selected@.contains(self.cache@[j].1),
            decreases k,
        {
            k = k - 1;
            if contains_entity(selected, self.cache[k].1) {
                return Some(k);
            }
        }
        None
    }

    /// Returns the index in the cache for the specified entity: the first
    /// (and, in a well-formed cache, only) entry naming it.
    pub fn index_of(&self, entity: Entity) -> (r: Option<usize>)
        ensures
            match r {
                Some(i) => i < self.cache@.len() && self.cache@[i as int].1 == entity
                    && forall|j: int| 0 <= j < i ==> self.cache@[j].1 != entity,
                None => !has_entity(self.cache@, entity),
            },
    {
        let n: usize = self.cache.len();
        let mut k: usize = 0;
        while k < n
            invariant
                n == self.cache@.len(),
                k <= n,
                forall|j: int| 0 <= j < k ==> self.cache@[j].1 != entity,
            decreases n - k,
        {
            if self.cache[k].1 == entity {
                return Some(k);
            }
            k = k + 1;
        }
        assert(forall|p: (u32, Entity)| self.cache@.contains(p) ==> p.1 != entity);
        None
    }
}

/// Two strictly sorted sequences with the same entries are the same
/// sequence: strict sorting leaves exactly one arrangement.
proof fn lemma_sorted_unique(s1: Seq<(u32, Entity)>, s2: Seq<(u32, Entity)>)
    requires
        sorted(s1),
        sorted(s2),
        forall|p: (u32, Entity)|
            #![trigger s1.contains(p)]
            #![trigger s2.contains(p)]
            s1.contains(p) <==> s2.contains(p),
    ensures
        s1 == s2,
    decreases s1.len(),
{
    if s1.len() == 0 {
        if s2.len() > 0 {
            assert(s2.contains(s2[0]));
            assert(s1.contains(s2[0]));
        }
        assert(s1 =~= s2);
    } else {
        assert(s1.contains(s1[0]));
        assert(s2.contains(s1[0]));
        let a = s1[0];
        let b = s2[0];
        // each head comes no later than the other, so the heads are equal
        assert(a == b) by {
            assert(s1.contains(b));
            let i = choose|i: int| 0 <= i < s1.len() && s1[i] == b;
            let j = choose|j: int| 0 <= j < s2.len() && s2[j] == a;
            if 0 < i {
                assert(entry_lt(s1[0], s1[i]));
            }
            if 0 < j {
                assert(entry_lt(s2[0], s2[j]));
            }
        }
        let t1 = s1.subrange(1, s1.len() as int);
        let t2 = s2.subrange(1, s2.len() as int);
        assert(sorted(t1)) by {
            assert(forall|i: int| 0 <= i < t1.len() ==> #[trigger] t1[i] == s1[i + 1]);
        }
        assert(sorted(t2)) by {
            assert(forall|i: int| 0 <= i < t2.len() ==> #[trigger] t2[i] == s2[i + 1]);
        }
        // the head heads the whole sequence, so the tails hold the same
        // entries: everything but the head
        assert forall|p: (u32, Entity)| #[trigger] t1.contains(p) implies s1.contains(p) && p
            != a by {
            let i = choose|i: int| 0 <= i < t1.len() && t1[i] == p;
            assert(s1[i + 1] == p);
            assert(entry_lt(s1[0], s1[i + 1]));
        }
        assert forall|p: (u32, Entity)| s1.contains(p) && p != a implies #[trigger] t1.contains(
            p,
        ) by {
            let i = choose|i: int| 0 <= i < s1.len() && s1[i] == p;
            assert(t1[i - 1] == p);
        }
        assert forall|p: (u32, Entity)| #[trigger] t2.contains(p) implies s2.contains(p) && p
            != b by {
            let i = choose|i: int| 0 <= i < t2.len() && t2[i] == p;
            assert(s2[i + 1] == p);
            assert(entry_lt(s2[0], s2[i + 1]));
        }
        assert forall|p: (u32, Entity)| s2.contains(p) && p != b implies #[trigger] t2.contains(
            p,
        ) by {
            let i = choose|i: int| 0 <= i < s2.len() && s2[i] == p;
            assert(t2[i - 1] == p);
        }
        lemma_sorted_unique(t1, t2);
        assert(s1 =~= s2) by {
            assert(forall|i: int| 1 <= i < s1.len() ==> #[trigger] s1[i] == t1[i - 1]);
            assert(forall|i: int| 1 <= i < s2.len() ==> #[trigger] s2[i] == t2[i - 1]);
        }
    }
}

/// Law: reconciliation is idempotent. The reconciled state is a function of
/// the live set alone, so running the procedure a second time with an
/// unchanged live set leaves `cache` and `cached` exactly as they were: any
/// two states reconciled against the same live set are identical.
pub proof fn lemma_reconcile_idempotent(
    c1: CachedSelectionOrder,
    c2: CachedSelectionOrder,
    live: Seq<(u32, Entity)>,
)
    requires
        reconciled(c1, live),
        reconciled(c2, live),
    ensures
        c1.cache@ == c2.cache@,
        c1.cached@ == c2.cached@,
{
    assert(forall|p: (u32, Entity)|
        #![trigger c1.cache@.contains(p)]
        #![trigger c2.cache@.contains(p)]
        c1.cache@.contains(p) <==> c2.cache@.contains(p)) by {
        assert(forall|p: (u32, Entity)| #[trigger] c1.cache@.contains(p) <==> live.contains(p));
        assert(forall|p: (u32, Entity)| #[trigger] c2.cache@.contains(p) <==> live.contains(p));
    }
    lemma_sorted_unique(c1.cache@, c2.cache@);
}

/// Law: the sort invariant. After reconciliation any two adjacent cache
/// entries `(k1, e1)` and `(k2, e2)` satisfy `k1 < k2`, or `k1 == k2` and
/// `e1` comes before `e2` by entity id.
pub proof fn lemma_sort_invariant(c: CachedSelectionOrder, live: Seq<(u32, Entity)>, i: int)
    requires
        reconciled(c, live),
        0 <= i,
        i + 1 < c.cache@.len(),
    ensures
        c.cache@[i].0 < c.cache@[i + 1].0 || (c.cache@[i].0 == c.cache@[i + 1].0
            && c.cache@[i].1.id < c.cache@[i + 1].1.id),
{
    assert(entry_lt(c.cache@[i], c.cache@[i + 1]));
}

/// Law: the membership mirror. After reconciliation the entities named by
/// `cache`, and those held in `cached`, are exactly the entities of the live
/// selectable set.
pub proof fn lemma_membership_mirror(c: CachedSelectionOrder, live: Seq<(u32, Entity)>)
    requires
        reconciled(c, live),
    ensures
        forall|e: Entity| has_entity(c.cache@, e) <==> has_entity(live, e),
        forall|e: Entity| c.cached@.contains(e) <==> has_entity(live, e),
{
    lemma_same_contents_same_entities(c.cache@, live);
    lemma_entity_seq_contains(live);
}

impl Default for CachedSelectionOrder {
    /// Same as [`CachedSelectionOrder::new`]: an empty cache.
    fn default() -> (r: CachedSelectionOrder)
        ensures
            r.wf(),
            r.cache@ =~= Seq::<(u32, Entity)>::empty(),
            r.cached@ =~= Seq::<Entity>::empty(),
    {
        CachedSelectionOrder::new()
    }
}

} // verus!
