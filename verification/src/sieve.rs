//! The windowed sieve engine.
//!
//! The engine produces every prime in `[2, upper_limit)` while holding
//! only one window of `window_size` candidate flags in memory. Per
//! window it replays all stored records to mark composites (advancing
//! each record's cursor and rewriting it in place), then scans the
//! window for survivors: each is a newly discovered prime whose own
//! multiples are marked through the rest of the window before its record
//! is appended.

use vstd::prelude::*;
use vstd::pervasive::VecAdditionalExecFns;
use crate::arith::{
    divides, is_prime, nextval_ok, final_bound, lemma_proper_multiple_not_prime,
    lemma_composite_has_prime_factor, lemma_divides_step, lemma_multiple_gap,
    lemma_nextval_minimal, lemma_nextval_unique, lemma_final_bound,
};
use crate::record::PrimeRecord;
use crate::store::PrimeStore;

verus! {

/// Every record holds a prime below `u`.
pub open spec fn records_sound(recs: Seq<PrimeRecord>, u: int) -> bool {
    forall|i: int|
        0 <= i < recs.len() ==> is_prime((#[trigger] recs[i]).p as int) && (recs[i].p as int) < u
}

/// `n` is the prime of some record.
pub open spec fn has_record(recs: Seq<PrimeRecord>, n: int) -> bool {
    exists|i: int| 0 <= i < recs.len() && ((#[trigger] recs[i]).p as int) == n
}

/// Every prime below `u` has a record.
pub open spec fn records_complete(recs: Seq<PrimeRecord>, u: int) -> bool {
    forall|n: int| 2 <= n < u && #[trigger] is_prime(n) ==> has_record(recs, n)
}

/// The records' primes appear in strictly ascending order.
pub open spec fn records_ascending(recs: Seq<PrimeRecord>) -> bool {
    forall|i: int, j: int|
        0 <= i < j < recs.len() ==> (#[trigger] recs[i]).p < (#[trigger] recs[j]).p
}

/// Every record's sieving cursor is the least multiple of its prime that
/// exceeds the prime and reaches `e`.
pub open spec fn cursors_ok(recs: Seq<PrimeRecord>, e: int) -> bool {
    forall|i: int|
        0 <= i < recs.len() ==> nextval_ok(
            (#[trigger] recs[i]).p as int,
            e,
            recs[i].nextval as int,
        )
}

/// The sieve's contract for upper limit `u` and window width `w`: the
/// records are exactly the primes of `[2, u)` in ascending order, each
/// cursor standing at the first multiple at or past the final window
/// boundary.
pub open spec fn sieve_post(recs: Seq<PrimeRecord>, u: int, w: int) -> bool {
    &&& records_sound(recs, u)
    &&& records_complete(recs, u)
    &&& records_ascending(recs)
    &&& cursors_ok(recs, final_bound(u, w))
}

/// A cleared window flag is sound: the number it stands for is composite.
pub open spec fn window_sound(buf: Seq<bool>, base: int) -> bool {
    forall|k: int| 0 <= k < buf.len() && !(#[trigger] buf[k]) ==> !is_prime(base + k)
}

/// Every proper multiple of `p` in the window below `upto` is cleared.
pub open spec fn multiples_cleared(buf: Seq<bool>, base: int, p: int, upto: int) -> bool {
    forall|k: int|
        0 <= k < buf.len() && base + k < upto && base + k > p && divides(p, base + k)
            ==> !(#[trigger] buf[k])
}

/// The multiples of each of the first `n` records' primes are cleared
/// throughout the whole window.
pub open spec fn all_multiples_cleared(
    buf: Seq<bool>,
    base: int,
    recs: Seq<PrimeRecord>,
    n: int,
) -> bool {
    forall|i: int|
        0 <= i < n ==> multiples_cleared(buf, base, (#[trigger] recs[i]).p as int, base + buf.len())
}

/// Clearing never sets a flag, so cleared multiples stay cleared.
proof fn lemma_cleared_preserved(buf1: Seq<bool>, buf2: Seq<bool>, base: int, p: int, upto: int)
    requires
        buf1.len() == buf2.len(),
        multiples_cleared(buf1, base, p, upto),
        forall|k: int| 0 <= k < buf1.len() && !(#[trigger] buf1[k]) ==> !buf2[k],
    ensures
        multiples_cleared(buf2, base, p, upto),
{
    assert forall|k: int|
        0 <= k < buf2.len() && base + k < upto && base + k > p && divides(p, base + k)
            implies !(#[trigger] buf2[k]) by {
        assert(!buf1[k]);
    }
}

/// Two record sequences with equal length and pointwise equal primes say
/// the same about which primes are present.
proof fn lemma_same_primes(s1: Seq<PrimeRecord>, s2: Seq<PrimeRecord>, u: int)
    requires
        s1.len() == s2.len(),
        forall|k: int| 0 <= k < s2.len() ==> (#[trigger] s2[k]).p == s1[k].p,
        records_sound(s1, u),
        records_complete(s1, u),
    ensures
        records_sound(s2, u),
        records_complete(s2, u),
{
    assert forall|i: int|
        0 <= i < s2.len() implies is_prime((#[trigger] s2[i]).p as int) && ((s2[i].p) as int)
        < u by {
        assert(s2[i].p == s1[i].p);
        assert(is_prime(s1[i].p as int));
    }
    assert forall|n: int| 2 <= n < u && #[trigger] is_prime(n) implies has_record(s2, n) by {
        assert(has_record(s1, n));
        let i = choose|i: int| 0 <= i < s1.len() && ((#[trigger] s1[i]).p as int) == n;
        assert(0 <= i < s2.len() && ((s2[i]).p as int) == n);
    }
}

/// A fresh window of candidate flags, everything assumed prime.
fn make_window(n: usize) -> (buf: Vec<bool>)
    ensures
        buf@.len() == n,
        forall|k: int| 0 <= k < n ==> (#[trigger] buf@[k]),
{
    let mut buf: Vec<bool> = Vec::new();
    let mut i: usize = 0;
    while i < n
        invariant
            i <= n,
            buf@.len() == i,
            forall|k: int| 0 <= k < i ==> (#[trigger] buf@[k]),
        decreases n - i,
    {
        buf.push(true);
        i = i + 1;
    }
    buf
}

/// Clears every multiple of `p` from the cursor `nv0` up to the window's
/// end, returning the advanced cursor: the first multiple of `p` at or
/// past the end. Flags are only ever cleared, and only at proper
/// multiples of `p`.
fn clear_multiples(buf: &mut Vec<bool>, base: u64, p: u64, nv0: u64) -> (nv: u64)
    requires
        base + old(buf)@.len() <= 0x8000_0000_0000_0000u64,
        2 <= p <= 0x4000_0000_0000_0000u64,
        nextval_ok(p as int, base as int, nv0 as int),
    ensures
        final(buf)@.len() == old(buf)@.len(),
        nextval_ok(p as int, base as int + old(buf)@.len(), nv as int),
        multiples_cleared(final(buf)@, base as int, p as int, base as int + old(buf)@.len()),
        forall|k: int| 0 <= k < old(buf)@.len() && !(#[trigger] old(buf)@[k]) ==> !final(buf)@[k],
        forall|k: int|
            0 <= k < old(buf)@.len() && !(#[trigger] final(buf)@[k]) ==> !old(buf)@[k] || (divides(
                p as int,
                base as int + k,
            ) && base as int + k > p),
{
    let len = buf.len();
    let end: u64 = base + len as u64;
    let mut nv = nv0;
    proof {
        assert forall|k: int|
            0 <= k < buf@.len() && base as int + k < nv as int && base as int + k > p && divides(
                p as int,
                base as int + k,
            ) implies !(#[trigger] buf@[k]) by {
            lemma_nextval_minimal(p as int, base as int, nv0 as int, base as int + k);
        }
    }
    while nv < end
        invariant
            buf@.len() == old(buf)@.len(),
            len == old(buf)@.len(),
            end == base as int + len as int,
            end <= 0x8000_0000_0000_0000u64,
            2 <= p <= 0x4000_0000_0000_0000u64,
            divides(p as int, nv as int),
            nv > p,
            nv >= base,
            nv == nv0 || (nv as int) < end as int + p as int,
            multiples_cleared(buf@, base as int, p as int, nv as int),
            forall|k: int|
                0 <= k < old(buf)@.len() && !(#[trigger] old(buf)@[k]) ==> !buf@[k],
            forall|k: int|
                0 <= k < old(buf)@.len() && !(#[trigger] buf@[k]) ==> !old(buf)@[k] || (divides(
                    p as int,
                    base as int + k,
                ) && base as int + k > p),
        decreases end as int + p as int - nv as int,
    {
        let k = (nv - base) as usize;
        let ghost prev = buf@;
        buf.set(k, false);
        proof {
            lemma_divides_step(p as int, nv as int);
            assert forall|kk: int|
                0 <= kk < buf@.len() && base as int + kk < nv as int + p as int && base as int + kk
                    > p && divides(p as int, base as int + kk) implies !(#[trigger] buf@[kk]) by {
                let m = base as int + kk;
                if m < nv as int {
                    assert(!prev[kk]);
                } else if m > nv as int {
                    lemma_multiple_gap(p as int, nv as int, m);
                }
            }
        }
        nv = nv + p;
    }
    nv
}

/// Runs the windowed sieve: discovers every prime in `[2, upper_limit)`
/// using one `window_size`-wide pass of candidate flags at a time, and
/// returns the store of prime records it built. The records are exactly
/// the primes below the limit, in ascending order, each cursor standing
/// at the first multiple of its prime at or past the final window
/// boundary; the cursor of the store itself is rewound to the start.
#[verifier::loop_isolation(false)]
pub fn sieve(window_size: u32, upper_limit: u64) -> (store: PrimeStore)
    requires
        window_size >= 1,
        upper_limit <= 0x4000_0000_0000_0000u64,
    ensures
        store.wf(),
        store.valid(),
        store.cursor() == 0,
        sieve_post(store@, upper_limit as int, window_size as int),
{
    let w: u64 = window_size as u64;
    let mut store = PrimeStore::new();
    let mut current: u64 = 0;
    while current < upper_limit
        invariant
            current as int % w as int == 0,
            current == 0 || (current as int) - (w as int) < upper_limit as int,
            store.wf(),
            store.valid(),
            store.cursor() == 0,
            records_sound(store@, vstd::math::min(current as int, upper_limit as int)),
            records_complete(store@, vstd::math::min(current as int, upper_limit as int)),
            cursors_ok(store@, current as int),
        decreases upper_limit as int - vstd::math::min(current as int, upper_limit as int),
    {
        let window_end: u64 = current + w;
        let mut buf = make_window(window_size as usize);
        let ghost snap = store@;

        // Mark phase: replay every stored record over this window.
        let n = store.record_count();
        let mut idx: usize = 0;
        while idx < n
            invariant
                idx <= n,
                n == snap.len(),
                store.wf(),
                store.valid(),
                store.cursor() == idx as int,
                store@.len() == snap.len(),
                forall|k: int| 0 <= k < snap.len() ==> (#[trigger] store@[k]).p == snap[k].p,
                forall|k: int| idx <= k < snap.len() ==> #[trigger] store@[k] == snap[k],
                forall|k: int|
                    0 <= k < idx ==> nextval_ok(
                        (#[trigger] store@[k]).p as int,
                        window_end as int,
                        store@[k].nextval as int,
                    ),
                buf@.len() == window_size as int,
                window_sound(buf@, current as int),
                all_multiples_cleared(buf@, current as int, store@, idx as int),
            decreases n - idx,
        {
            let rec_opt = store.read_next();
            match rec_opt {
                Some(rec) => {
                    proof {
                        assert(rec == snap[idx as int]);
                        assert(is_prime(rec.p as int));
                        assert(nextval_ok(rec.p as int, current as int, rec.nextval as int));
                    }
                    let ghost prev = buf@;
                    let nv = clear_multiples(&mut buf, current, rec.p, rec.nextval);
                    store.rewrite_last(PrimeRecord { p: rec.p, nextval: nv });
                    proof {
                        assert forall|k: int|
                            0 <= k < buf@.len() && !(#[trigger] buf@[k]) implies !is_prime(
                            current as int + k,
                        ) by {
                            if prev[k] {
                                lemma_proper_multiple_not_prime(rec.p as int, current as int + k);
                            }
                        }
                        assert forall|i: int| 0 <= i < idx + 1 implies multiples_cleared(
                            buf@,
                            current as int,
                            (#[trigger] store@[i]).p as int,
                            current as int + buf@.len(),
                        ) by {
                            if i < idx as int {
                                lemma_cleared_preserved(
                                    prev,
                                    buf@,
                                    current as int,
                                    store@[i].p as int,
                                    current as int + buf@.len(),
                                );
                            }
                        }
                    }
                }
                None => {
                    proof {
                        assert(false);
                    }
                }
            }
            idx = idx + 1;
        }

        // Discover phase: window survivors are newly found primes.
        let lo: u64 = if current < 2 { 2 } else { current };
        let hi: u64 = if window_end < upper_limit { window_end } else { upper_limit };
        proof {
            lemma_same_primes(
                snap,
                store@,
                vstd::math::min(current as int, upper_limit as int),
            );
            assert(records_sound(store@, lo as int));
            assert(records_complete(store@, lo as int));
        }
        let mut j: u64 = lo;
        while j < hi
            invariant
                lo <= j,
                j <= hi || j == lo,
                store.wf(),
                store.valid(),
                store.cursor() == store@.len(),
                records_sound(store@, j as int),
                records_complete(store@, j as int),
                cursors_ok(store@, window_end as int),
                buf@.len() == window_size as int,
                window_sound(buf@, current as int),
                all_multiples_cleared(buf@, current as int, store@, store@.len() as int),
            decreases hi as int - j as int,
        {
            let k = (j - current) as usize;
            let flag = buf[k];
            if flag {
                proof {
                    if !is_prime(j as int) {
                        lemma_composite_has_prime_factor(j as int);
                        let q = choose|q: int|
                            is_prime(q) && 2 <= q < j as int && #[trigger] divides(q, j as int);
                        assert(has_record(store@, q));
                        let i = choose|i: int|
                            0 <= i < store@.len() && ((#[trigger] store@[i]).p as int) == q;
                        assert(multiples_cleared(
                            buf@,
                            current as int,
                            q,
                            current as int + buf@.len(),
                        ));
                        assert(!buf@[k as int]);
                        assert(false);
                    }
                }
                let p = j;
                let nv0 = p + p;
                proof {
                    assert((nv0 as int) == (p as int) * 2);
                    assert(divides(p as int, nv0 as int));
                    assert(nextval_ok(p as int, current as int, nv0 as int));
                }
                let ghost prev = buf@;
                let nv = clear_multiples(&mut buf, current, p, nv0);
                let ghost before_store = store@;
                proof {
                    assert(before_store.len() == 0 || (before_store[before_store.len() - 1].p
                        as int) < p as int);
                }
                store.append(PrimeRecord { p, nextval: nv });
                proof {
                    assert forall|kk: int|
                        0 <= kk < buf@.len() && !(#[trigger] buf@[kk]) implies !is_prime(
                        current as int + kk,
                    ) by {
                        if prev[kk] {
                            lemma_proper_multiple_not_prime(p as int, current as int + kk);
                        }
                    }
                    assert forall|i: int| 0 <= i < store@.len() implies multiples_cleared(
                        buf@,
                        current as int,
                        (#[trigger] store@[i]).p as int,
                        current as int + buf@.len(),
                    ) by {
                        if i < before_store.len() {
                            lemma_cleared_preserved(
                                prev,
                                buf@,
                                current as int,
                                store@[i].p as int,
                                current as int + buf@.len(),
                            );
                        }
                    }
                    assert forall|m: int|
                        2 <= m < j as int + 1 && #[trigger] is_prime(m) implies has_record(
                        store@,
                        m,
                    ) by {
                        if m < j as int {
                            assert(has_record(before_store, m));
                            let i = choose|i: int|
                                0 <= i < before_store.len() && ((#[trigger] before_store[i]).p
                                    as int) == m;
                            assert(0 <= i < store@.len() && ((store@[i]).p as int) == m);
                        } else {
                            let i = before_store.len() as int;
                            assert(0 <= i < store@.len() && ((store@[i]).p as int) == m);
                        }
                    }
                }
            } else {
                proof {
                    assert(!buf@[k as int]);
                    assert(!is_prime(j as int));
                    assert forall|m: int|
                        2 <= m < j as int + 1 && #[trigger] is_prime(m) implies has_record(
                        store@,
                        m,
                    ) by {
                        if m == j as int {
                            assert(false);
                        }
                    }
                }
            }
            j = j + 1;
        }
        proof {
            if j != hi {
                assert(lo == 2);
                assert forall|i: int|
                    0 <= i < store@.len() implies is_prime((#[trigger] store@[i]).p as int)
                    && ((store@[i].p) as int) < hi as int by {
                    assert(is_prime(store@[i].p as int));
                    assert((store@[i].p as int) < 2);
                }
            }
            assert(records_sound(store@, hi as int));
            assert(records_complete(store@, hi as int));
            vstd::arithmetic::div_mod::lemma_mod_add_multiples_vanish(
                current as int,
                w as int,
            );
        }
        store.rewind();
        current = window_end;
    }
    proof {
        let u = upper_limit as int;
        let wi = w as int;
        let c = current as int;
        if u == 0 {
            if c != 0 {
                vstd::arithmetic::div_mod::lemma_small_mod(c as nat, wi as nat);
            }
            assert(c == 0);
            assert(final_bound(u, wi) == 0);
        } else {
            assert(c != 0);
            lemma_final_bound(u, wi, c);
        }
        assert(records_ascending(store@));
    }
    store
}

/// Ascending record sequences that agree on which primes are present
/// have the same length and pointwise equal primes.
proof fn lemma_ascending_same_members(r1: Seq<PrimeRecord>, r2: Seq<PrimeRecord>)
    requires
        records_ascending(r1),
        records_ascending(r2),
        forall|n: int| has_record(r1, n) <==> has_record(r2, n),
    ensures
        r1.len() == r2.len(),
        forall|i: int| 0 <= i < r1.len() ==> (#[trigger] r1[i]).p == r2[i].p,
    decreases r1.len(),
{
    if r1.len() == 0 {
        if r2.len() > 0 {
            assert(has_record(r2, r2[0].p as int));
            let i = choose|i: int|
                0 <= i < r1.len() && ((#[trigger] r1[i]).p as int) == r2[0].p as int;
            assert(false);
        }
    } else if r2.len() == 0 {
        assert(has_record(r1, r1[0].p as int));
        let i = choose|i: int|
            0 <= i < r2.len() && ((#[trigger] r2[i]).p as int) == r1[0].p as int;
        assert(false);
    } else {
        assert(has_record(r1, r1[0].p as int));
        let i2 = choose|i: int|
            0 <= i < r2.len() && ((#[trigger] r2[i]).p as int) == r1[0].p as int;
        assert(r2[0].p <= r2[i2].p);
        assert(has_record(r2, r2[0].p as int));
        let i1 = choose|i: int|
            0 <= i < r1.len() && ((#[trigger] r1[i]).p as int) == r2[0].p as int;
        assert(r1[0].p <= r1[i1].p);
        assert(r1[0].p == r2[0].p);

        let t1 = r1.drop_first();
        let t2 = r2.drop_first();
        assert forall|n: int| has_record(t1, n) <==> has_record(t2, n) by {
            if has_record(t1, n) {
                let k = choose|k: int| 0 <= k < t1.len() && ((#[trigger] t1[k]).p as int) == n;
                assert(0 <= k + 1 < r1.len() && ((r1[k + 1]).p as int) == n);
                assert(has_record(r2, n));
                let m = choose|m: int| 0 <= m < r2.len() && ((#[trigger] r2[m]).p as int) == n;
                assert((r1[0].p as int) < n);
                assert(m >= 1);
                assert(0 <= m - 1 < t2.len() && ((t2[m - 1]).p as int) == n);
            }
            if has_record(t2, n) {
                let k = choose|k: int| 0 <= k < t2.len() && ((#[trigger] t2[k]).p as int) == n;
                assert(0 <= k + 1 < r2.len() && ((r2[k + 1]).p as int) == n);
                assert(has_record(r1, n));
                let m = choose|m: int| 0 <= m < r1.len() && ((#[trigger] r1[m]).p as int) == n;
                assert((r2[0].p as int) < n);
                assert(m >= 1);
                assert(0 <= m - 1 < t1.len() && ((t1[m - 1]).p as int) == n);
            }
        }
        lemma_ascending_same_members(t1, t2);
        assert forall|i: int| 0 <= i < r1.len() implies (#[trigger] r1[i]).p == r2[i].p by {
            if i > 0 {
                assert(t1[i - 1].p == t2[i - 1].p);
                assert(r1[i] == t1[i - 1]);
                assert(r2[i] == t2[i - 1]);
            }
        }
    }
}

/// With an upper limit of two or less there is nothing to find: the
/// sieve's contract forces an empty store, since every record would have
/// to hold a prime below the limit.
pub proof fn lemma_empty_below_two(recs: Seq<PrimeRecord>, u: int, w: int)
    requires
        u <= 2,
        sieve_post(recs, u, w),
    ensures
        recs.len() == 0,
{
    if recs.len() > 0 {
        assert(is_prime(recs[0].p as int) && (recs[0].p as int) < u);
        assert(false);
    }
}

/// An ascending record sequence whose primes all appear in another
/// ascending sequence is no longer than it.
proof fn lemma_ascending_subset_len(r1: Seq<PrimeRecord>, r2: Seq<PrimeRecord>)
    requires
        records_ascending(r1),
        records_ascending(r2),
        forall|n: int| has_record(r1, n) ==> has_record(r2, n),
    ensures
        r1.len() <= r2.len(),
    decreases r2.len(),
{
    if r1.len() > 0 {
        assert(has_record(r1, r1[0].p as int));
        let m = choose|m: int|
            0 <= m < r2.len() && ((#[trigger] r2[m]).p as int) == r1[0].p as int;
        assert((r2[0].p as int) <= r1[0].p as int);
        let t1 = r1.drop_first();
        let t2 = r2.drop_first();
        assert forall|n: int| has_record(t1, n) implies has_record(t2, n) by {
            let k = choose|k: int| 0 <= k < t1.len() && ((#[trigger] t1[k]).p as int) == n;
            assert(0 <= k + 1 < r1.len() && ((r1[k + 1]).p as int) == n);
            assert(has_record(r2, n));
            let mm = choose|mm: int| 0 <= mm < r2.len() && ((#[trigger] r2[mm]).p as int) == n;
            assert((r1[0].p as int) < n);
            assert(mm >= 1);
            assert(0 <= mm - 1 < t2.len() && ((t2[mm - 1]).p as int) == n);
        }
        lemma_ascending_subset_len(t1, t2);
    }
}

/// The record count never decreases as the sieve is given more room:
/// every prime found below one upper limit is also found below any
/// higher one, whatever the window widths.
pub proof fn lemma_count_monotone(
    r1: Seq<PrimeRecord>,
    r2: Seq<PrimeRecord>,
    u1: int,
    u2: int,
    w1: int,
    w2: int,
)
    requires
        u1 <= u2,
        sieve_post(r1, u1, w1),
        sieve_post(r2, u2, w2),
    ensures
        r1.len() <= r2.len(),
{
    assert forall|n: int| has_record(r1, n) implies has_record(r2, n) by {
        let i = choose|i: int| 0 <= i < r1.len() && ((#[trigger] r1[i]).p as int) == n;
        assert(is_prime(n) && 2 <= n < u2);
    }
    lemma_ascending_subset_len(r1, r2);
}

/// The sieve's contract pins its outcome completely: any two record
/// sequences that satisfy it for the same upper limit and window width
/// are identical. The discovered primes and their records thus depend on
/// the two parameters alone — not on pacing, timing, or anything else
/// about a run.
pub proof fn lemma_sieve_deterministic(
    r1: Seq<PrimeRecord>,
    r2: Seq<PrimeRecord>,
    u: int,
    w: int,
)
    requires
        w >= 1,
        sieve_post(r1, u, w),
        sieve_post(r2, u, w),
    ensures
        r1 == r2,
{
    assert forall|n: int| has_record(r1, n) <==> has_record(r2, n) by {
        if has_record(r1, n) {
            let i = choose|i: int| 0 <= i < r1.len() && ((#[trigger] r1[i]).p as int) == n;
            assert(is_prime(n) && 2 <= n < u);
            assert(has_record(r2, n));
        }
        if has_record(r2, n) {
            let i = choose|i: int| 0 <= i < r2.len() && ((#[trigger] r2[i]).p as int) == n;
            assert(is_prime(n) && 2 <= n < u);
            assert(has_record(r1, n));
        }
    }
    lemma_ascending_same_members(r1, r2);
    assert forall|i: int| 0 <= i < r1.len() implies r1[i] == r2[i] by {
        assert(is_prime(r1[i].p as int));
        lemma_nextval_unique(
            r1[i].p as int,
            final_bound(u, w),
            r1[i].nextval as int,
            r2[i].nextval as int,
        );
    }
    assert(r1 =~= r2);
}
} // verus!
