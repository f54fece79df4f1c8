//! The group dispatcher's planning logic.
//!
//! The full location set is shuffled, then round-robin partitioned into
//! `parallelism` groups whose sizes differ by at most one and whose
//! disjoint union is exactly the input. The proxy pool is cut into
//! rotation sets of `parallelism` consecutive proxies. The concurrent
//! sessions themselves run outside the library; their results come back
//! as plain result lists and are merged by appending, the groups' key
//! sets being disjoint by construction.

use vstd::prelude::*;

use rand::seq::SliceRandom;

use vstd::multiset::Multiset;

use crate::slots::{clone_bytes, LocationBookings};

verus! {

/// The ids of a list of byte strings.
pub open spec fn id_views(v: Seq<Vec<u8>>) -> Seq<Seq<u8>> {
    Seq::new(v.len(), |i: int| v[i]@)
}

/// Round-robin partition: element `k` of the input goes to group `k % p`.
pub open spec fn rr_partition(ids: Seq<Seq<u8>>, p: int) -> Seq<Seq<Seq<u8>>>
    decreases ids.len(),
{
    if ids.len() == 0 {
        Seq::new(p as nat, |g: int| Seq::<Seq<u8>>::empty())
    } else {
        let prev = rr_partition(ids.drop_last(), p);
        let tgt = (ids.len() - 1) % p;
        prev.update(tgt, prev[tgt].push(ids.last()))
    }
}

/// The multiset of all ids over all groups.
pub open spec fn group_union(gs: Seq<Seq<Seq<u8>>>) -> Multiset<Seq<u8>>
    decreases gs.len(),
{
    if gs.len() == 0 {
        Multiset::empty()
    } else {
        group_union(gs.drop_last()).add(gs.last().to_multiset())
    }
}

/// Appending one element to one group adds exactly that element to the
/// union.
proof fn lemma_group_union_push(gs: Seq<Seq<Seq<u8>>>, t: int, x: Seq<u8>)
    requires
        0 <= t < gs.len(),
    ensures
        group_union(gs.update(t, gs[t].push(x))) == group_union(gs).insert(x),
    decreases gs.len(),
{
    let updated = gs.update(t, gs[t].push(x));
    if t == gs.len() - 1 {
        assert(updated.drop_last() =~= gs.drop_last());
        assert(updated.last() == gs.last().push(x));
        gs.last().to_multiset_ensures();
        assert(gs.last().push(x).to_multiset() =~= gs.last().to_multiset().insert(x));
        assert(group_union(gs.drop_last()).add(gs.last().to_multiset().insert(x))
            =~= group_union(gs).insert(x));
    } else {
        assert(updated.drop_last() =~= gs.drop_last().update(t, gs[t].push(x)));
        assert(updated.last() == gs.last());
        assert(gs.drop_last()[t] == gs[t]);
        lemma_group_union_push(gs.drop_last(), t, x);
        assert(group_union(gs.drop_last()).insert(x).add(gs.last().to_multiset())
            =~= group_union(gs).insert(x));
    }
}

/// A partition of all-empty groups has an empty union.
proof fn lemma_group_union_empty(gs: Seq<Seq<Seq<u8>>>)
    requires
        forall|g: int| 0 <= g < gs.len() ==> (#[trigger] gs[g]).to_multiset()
            == Multiset::<Seq<u8>>::empty(),
    ensures
        group_union(gs) == Multiset::<Seq<u8>>::empty(),
    decreases gs.len(),
{
    if gs.len() > 0 {
        lemma_group_union_empty(gs.drop_last());
        assert(Multiset::<Seq<u8>>::empty().add(Multiset::<Seq<u8>>::empty())
            =~= Multiset::<Seq<u8>>::empty());
    }
}

/// The partition's disjoint union is exactly the input, once each.
pub proof fn lemma_rr_partition_union(ids: Seq<Seq<u8>>, p: int)
    requires
        p >= 1,
    ensures
        group_union(rr_partition(ids, p)) == ids.to_multiset(),
    decreases ids.len(),
{
    ids.to_multiset_ensures();
    if ids.len() == 0 {
        let gs = rr_partition(ids, p);
        assert forall|g: int| 0 <= g < gs.len() implies (#[trigger] gs[g]).to_multiset()
            =~= Multiset::<Seq<u8>>::empty() by {
            gs[g].to_multiset_ensures();
            assert(gs[g].to_multiset().len() == 0);
        }
        lemma_group_union_empty(gs);
    } else {
        lemma_rr_partition_union(ids.drop_last(), p);
        let prev = rr_partition(ids.drop_last(), p);
        let tgt = (ids.len() - 1) % p;
        assert(0 <= tgt < p) by {
            vstd::arithmetic::div_mod::lemma_mod_bound(ids.len() - 1, p);
        }
        assert(prev.len() == p) by {
            lemma_rr_partition_len(ids.drop_last(), p);
        }
        lemma_group_union_push(prev, tgt, ids.last());
        ids.drop_last().to_multiset_ensures();
        assert(ids.drop_last().push(ids.last()) =~= ids);
    }
}

/// There are always exactly `p` groups.
pub proof fn lemma_rr_partition_len(ids: Seq<Seq<u8>>, p: int)
    requires
        p >= 1,
    ensures
        rr_partition(ids, p).len() == p,
    decreases ids.len(),
{
    if ids.len() > 0 {
        lemma_rr_partition_len(ids.drop_last(), p);
    }
}

/// Each group's exact size: the input length divided evenly, plus one for
/// the first `len % p` groups.
pub proof fn lemma_rr_partition_sizes(ids: Seq<Seq<u8>>, p: int, g: int)
    requires
        p >= 1,
        0 <= g < p,
    ensures
        rr_partition(ids, p)[g].len() == ids.len() as int / p + if g < ids.len() as int % p {
            1int
        } else {
            0int
        },
    decreases ids.len(),
{
    lemma_rr_partition_len(ids, p);
    if ids.len() == 0 {
        vstd::arithmetic::div_mod::lemma_fundamental_div_mod_converse(0, p, 0, 0);
    } else {
        let n = ids.len() as int;
        lemma_rr_partition_sizes(ids.drop_last(), p, g);
        lemma_rr_partition_len(ids.drop_last(), p);
        let q1 = (n - 1) / p;
        let r1 = (n - 1) % p;
        assert(0 <= r1 < p) by {
            vstd::arithmetic::div_mod::lemma_mod_bound(n - 1, p);
        }
        assert(n - 1 == p * q1 + r1) by {
            vstd::arithmetic::div_mod::lemma_fundamental_div_mod(n - 1, p);
        }
        assert(q1 >= 0) by (nonlinear_arith)
            requires
                n - 1 == p * q1 + r1,
                0 <= r1 < p,
                n >= 1,
                p >= 1,
        ;
        if r1 == p - 1 {
            assert(n == (q1 + 1) * p + 0) by (nonlinear_arith)
                requires
                    n - 1 == p * q1 + r1,
                    r1 == p - 1,
            ;
            vstd::arithmetic::div_mod::lemma_fundamental_div_mod_converse(n, p, q1 + 1, 0);
        } else {
            assert(n == q1 * p + (r1 + 1)) by (nonlinear_arith)
                requires
                    n - 1 == p * q1 + r1,
            ;
            vstd::arithmetic::div_mod::lemma_fundamental_div_mod_converse(n, p, q1, r1 + 1);
        }
    }
}

/// Group sizes differ by at most one.
pub proof fn lemma_rr_partition_balanced(ids: Seq<Seq<u8>>, p: int, g1: int, g2: int)
    requires
        p >= 1,
        0 <= g1 < p,
        0 <= g2 < p,
    ensures
        rr_partition(ids, p)[g1].len() <= rr_partition(ids, p)[g2].len() + 1,
{
    lemma_rr_partition_sizes(ids, p, g1);
    lemma_rr_partition_sizes(ids, p, g2);
}

// ---------------------------------------------------------------------------
// Executable planning
// ---------------------------------------------------------------------------

/// Relies on rand's `SliceRandom::shuffle`: it permutes the slice in
/// place, so the ids afterwards are the same multiset as before.
#[verifier::external_body]
fn shuffle_in_place(v: &mut Vec<Vec<u8>>)
    ensures
        final(v)@.len() == old(v)@.len(),
        id_views(final(v)@).to_multiset() == id_views(old(v)@).to_multiset(),
{
    let mut rng = rand::rng();
    v.as_mut_slice().shuffle(&mut rng);
}

/// Round-robin partition of the ids, in their given order.
pub fn partition_groups(ids: &Vec<Vec<u8>>, parallelism: usize) -> (r: Vec<Vec<Vec<u8>>>)
    requires
        parallelism >= 1,
    ensures
        r@.len() == parallelism,
        Seq::new(r@.len(), |g: int| id_views(r@[g]@)) == rr_partition(
            id_views(ids@),
            parallelism as int,
        ),
{
    let ghost iv = id_views(ids@);
    let ghost p = parallelism as int;
    let mut r: Vec<Vec<Vec<u8>>> = Vec::new();
    let mut g: usize = 0;
    while g < parallelism
        invariant
            g <= parallelism,
            r@.len() == g as int,
            forall|h: int| 0 <= h < g as int ==> (#[trigger] r@[h])@.len() == 0,
        decreases parallelism - g,
    {
        r.push(Vec::new());
        g += 1;
    }
    proof {
        assert(iv.take(0) =~= Seq::<Seq<u8>>::empty());
        assert(Seq::new(r@.len(), |h: int| id_views(r@[h]@)) =~~= rr_partition(iv.take(0), p));
    }
    let mut k: usize = 0;
    while k < ids.len()
        invariant
            k <= ids.len(),
            r@.len() == parallelism,
            parallelism >= 1,
            iv == id_views(ids@),
            p == parallelism as int,
            iv.len() == ids@.len(),
            Seq::new(r@.len(), |h: int| id_views(r@[h]@)) == rr_partition(iv.take(k as int), p),
        decreases ids.len() - k,
    {
        let ghost before = Seq::new(r@.len(), |h: int| id_views(r@[h]@));
        let t = k % parallelism;
        proof {
            vstd::arithmetic::div_mod::lemma_mod_bound(k as int, parallelism as int);
        }
        let slot = vstd::std_specs::vec::vec_index_mut(&mut r, t);
        slot.push(clone_bytes(&ids[k]));
        proof {
            let taken = iv.take(k + 1 as int);
            assert(taken.drop_last() =~= iv.take(k as int));
            assert(taken.last() == iv[k as int]);
            assert(taken.len() - 1 == k as int);
            assert(rr_partition(taken, p) == rr_partition(iv.take(k as int), p).update(
                t as int,
                rr_partition(iv.take(k as int), p)[t as int].push(iv[k as int]),
            ));
            assert(id_views(r@[t as int]@) =~= before[t as int].push(iv[k as int]));
            assert(Seq::new(r@.len(), |h: int| id_views(r@[h]@)) =~= before.update(
                t as int,
                before[t as int].push(iv[k as int]),
            ));
        }
        k += 1;
    }
    proof {
        assert(iv.take(iv.len() as int) =~= iv);
    }
    r
}

/// Shuffle the location set, then round-robin partition it: exactly
/// `parallelism` groups, sizes differing by at most one, whose disjoint
/// union is the input set exactly once each.
pub fn plan_groups(ids: Vec<Vec<u8>>, parallelism: usize) -> (r: Vec<Vec<Vec<u8>>>)
    requires
        parallelism >= 1,
    ensures
        r@.len() == parallelism,
        group_union(Seq::new(r@.len(), |g: int| id_views(r@[g]@))) == id_views(
            ids@,
        ).to_multiset(),
        forall|g1: int, g2: int|
            0 <= g1 < r@.len() && 0 <= g2 < r@.len() ==> #[trigger] r@[g1]@.len()
                <= #[trigger] r@[g2]@.len() + 1,
{
    let mut shuffled = ids;
    shuffle_in_place(&mut shuffled);
    let ghost iv = id_views(shuffled@);
    let r = partition_groups(&shuffled, parallelism);
    proof {
        let p = parallelism as int;
        lemma_rr_partition_union(iv, p);
        assert forall|g1: int, g2: int|
            0 <= g1 < r@.len() && 0 <= g2 < r@.len() implies #[trigger] r@[g1]@.len()
            <= #[trigger] r@[g2]@.len() + 1 by {
            lemma_rr_partition_sizes(iv, p, g1);
            lemma_rr_partition_sizes(iv, p, g2);
            assert(id_views(r@[g1]@) == rr_partition(iv, p)[g1]);
            assert(id_views(r@[g2]@) == rr_partition(iv, p)[g2]);
            assert(id_views(r@[g1]@).len() == r@[g1]@.len());
            assert(id_views(r@[g2]@).len() == r@[g2]@.len());
        }
    }
    r
}

/// The proxy pool cut into consecutive sets of `p` proxies; a short final
/// set is kept, and an empty pool gives no rotations.
pub open spec fn rotation_chunks(pool: Seq<Seq<u8>>, p: int) -> Seq<Seq<Seq<u8>>>
    decreases pool.len(),
{
    if p < 1 {
        Seq::empty()
    } else if pool.len() == 0 {
        Seq::empty()
    } else if pool.len() <= p {
        seq![pool]
    } else {
        seq![pool.take(p)] + rotation_chunks(pool.skip(p), p)
    }
}

/// Cut the proxy pool into rotation sets of `parallelism` consecutive
/// proxies.
pub fn proxy_rotations(proxies: &Vec<Vec<u8>>, parallelism: usize) -> (r: Vec<Vec<Vec<u8>>>)
    requires
        parallelism >= 1,
        proxies@.len() + parallelism <= usize::MAX,
    ensures
        Seq::new(r@.len(), |g: int| id_views(r@[g]@)) == rotation_chunks(
            id_views(proxies@),
            parallelism as int,
        ),
{
    let ghost pv = id_views(proxies@);
    let ghost p = parallelism as int;
    let mut r: Vec<Vec<Vec<u8>>> = Vec::new();
    let mut start: usize = 0;
    proof {
        assert(pv.skip(0) =~= pv);
        assert(Seq::new(r@.len(), |g: int| id_views(r@[g]@)) =~= Seq::<Seq<Seq<u8>>>::empty());
        assert(Seq::<Seq<Seq<u8>>>::empty() + rotation_chunks(pv, p) =~= rotation_chunks(pv, p));
    }
    while start < proxies.len()
        invariant
            parallelism >= 1,
            proxies@.len() + parallelism <= usize::MAX,
            p == parallelism as int,
            pv == id_views(proxies@),
            pv.len() == proxies@.len(),
            start <= proxies@.len(),
            rotation_chunks(pv, p) == Seq::new(r@.len(), |g: int| id_views(r@[g]@))
                + rotation_chunks(pv.skip(start as int), p),
        decreases proxies.len() - start,
    {
        let ghost built = Seq::new(r@.len(), |g: int| id_views(r@[g]@));
        let ghost rest = pv.skip(start as int);
        let mut chunk: Vec<Vec<u8>> = Vec::new();
        let mut k: usize = 0;
        while k < parallelism && start + k < proxies.len()
            invariant
                k <= parallelism,
                proxies@.len() + parallelism <= usize::MAX,
                start < proxies@.len(),
                start + k <= proxies@.len(),
                pv == id_views(proxies@),
                pv.len() == proxies@.len(),
                chunk@.len() == k as int,
                forall|j: int| 0 <= j < k as int ==> (#[trigger] chunk@[j])@ == pv[start + j],
            decreases parallelism - k,
        {
            chunk.push(clone_bytes(&proxies[start + k]));
            k += 1;
        }
        let took = chunk.len();
        let ghost chunkv = id_views(chunk@);
        proof {
            assert(took >= 1);
            assert(rest.len() == pv.len() - start);
            if took < parallelism {
                assert(start + took == proxies@.len());
                assert(rest.len() <= p);
                assert(chunkv =~= rest);
            } else if rest.len() <= p {
                assert(took == parallelism);
                assert(rest.len() == took);
                assert(chunkv =~= rest);
            } else {
                assert(took == parallelism);
                assert(chunkv =~= rest.take(p));
            }
        }
        r.push(chunk);
        proof {
            assert(id_views(r@[r@.len() - 1]@) == chunkv);
            assert(Seq::new(r@.len(), |g: int| id_views(r@[g]@)) =~= built + seq![chunkv]);
            if rest.len() <= p {
                assert(rotation_chunks(rest, p) == seq![rest]);
                assert(chunkv == rest);
                assert(start + took == pv.len());
                assert(pv.skip(start + took as int).len() == 0);
                assert(rotation_chunks(pv.skip(start + took as int), p)
                    =~= Seq::<Seq<Seq<u8>>>::empty());
                assert((built + seq![chunkv]) + Seq::<Seq<Seq<u8>>>::empty() =~= built
                    + seq![rest]);
                assert(built + rotation_chunks(rest, p) =~= built + seq![rest]);
            } else {
                assert(took == parallelism);
                assert(rotation_chunks(rest, p) == seq![rest.take(p)] + rotation_chunks(
                    rest.skip(p),
                    p,
                ));
                assert(pv.skip(start + took as int) =~= rest.skip(p));
                assert(built + rotation_chunks(rest, p) =~= (built + seq![chunkv])
                    + rotation_chunks(rest.skip(p), p));
            }
        }
        start += took;
    }
    proof {
        assert(pv.skip(start as int).len() == 0);
        assert(rotation_chunks(pv.skip(start as int), p) =~= Seq::<Seq<Seq<u8>>>::empty());
        assert(Seq::new(r@.len(), |g: int| id_views(r@[g]@)) + Seq::<Seq<Seq<u8>>>::empty()
            =~= Seq::new(r@.len(), |g: int| id_views(r@[g]@)));
    }
    r
}

/// Merge one group's results into the cumulative accumulator. The groups'
/// location sets are disjoint by construction, so the union is a plain
/// append.
pub fn merge_group_results(cumulative: &mut Vec<LocationBookings>, add: &Vec<LocationBookings>)
    ensures
        Seq::new(final(cumulative)@.len(), |i: int| final(cumulative)@[i]@) == Seq::new(
            old(cumulative)@.len(),
            |i: int| old(cumulative)@[i]@,
        ) + Seq::new(add@.len(), |i: int| add@[i]@),
{
    let ghost addv = Seq::new(add@.len(), |i: int| add@[i]@);
    let mut i: usize = 0;
    while i < add.len()
        invariant
            i <= add.len(),
            addv == Seq::new(add@.len(), |k: int| add@[k]@),
            Seq::new(cumulative@.len(), |k: int| cumulative@[k]@) == Seq::new(
                old(cumulative)@.len(),
                |k: int| old(cumulative)@[k]@,
            ) + addv.take(i as int),
        decreases add.len() - i,
    {
        let ghost before = Seq::new(cumulative@.len(), |k: int| cumulative@[k]@);
        cumulative.push(add[i].duplicate());
        proof {
            assert(addv.take(i + 1 as int) =~= addv.take(i as int) + seq![addv[i as int]]);
            assert(Seq::new(cumulative@.len(), |k: int| cumulative@[k]@) =~= before
                + seq![addv[i as int]]);
        }
        i += 1;
    }
    proof {
        assert(addv.take(addv.len() as int) =~= addv);
    }
}

} // verus!
