//! Enumeration of the distinct period profiles of all bitstrings of a
//! power-of-two width.

use vstd::prelude::*;

use crate::indicator::bits_from_elem;
use crate::indicator::bits_get;
use crate::indicator::bits_of;
use crate::indicator::bits_set;
use crate::period::cycle_len;
use crate::profile_set::ProfileSet;
use crate::period::is_periodic;
use crate::period::lemma_period_in_range;
use crate::period::lemma_period_is_periodic;
use crate::period::lemma_period_le_periodic;
use crate::period::spec_period;
use crate::period::win_mask;

verus! {

/// The width-`sub` window at the top of the width-`size` word `v`.
pub open spec fn top_window(v: u64, size: u64, sub: u64) -> u64
    recommends
        1 <= sub <= size <= 63,
{
    v >> ((size - sub) as u64)
}

/// The profile of `v` as a width-`2^k` string: entry `i` is the period of
/// its top `2^(i+1)`-bit window, so the entries run over the even
/// power-of-two widths `2, 4, ..., 2^k`, the full width last.
pub open spec fn profile(v: u64, k: u64) -> Seq<u64>
    recommends
        k <= 5,
        v < (1u64 << (1u64 << k)),
{
    Seq::new(
        k as nat,
        |i: int| spec_period(top_window(v, 1u64 << k, 1u64 << ((i + 1) as u64)), 1u64 << ((i + 1) as u64)),
    )
}

/// The profiles of all words below `bound`.
pub open spec fn profiles_below(bound: u64, k: u64) -> Set<Seq<u64>> {
    Set::new(|s: Seq<u64>| exists|v: u64| v < bound && s == profile(v, k))
}

/// The profiles of all `2^(2^k)` bitstrings of width `2^k`.
pub open spec fn profile_set(k: u64) -> Set<Seq<u64>>
    recommends
        k <= 5,
{
    profiles_below(1u64 << (1u64 << k), k)
}

proof fn lemma_shr_compose(x: u64, h: u64, d: u64)
    requires
        h + d <= 63,
    ensures
        (x >> h) >> d == x >> ((h + d) as u64),
{
    vstd::bits::lemma_u64_shr_is_div(x, h);
    vstd::bits::lemma_u64_shr_is_div(x >> h, d);
    vstd::bits::lemma_u64_shr_is_div(x, (h + d) as u64);
    vstd::arithmetic::power2::lemma_pow2_pos(h as nat);
    vstd::arithmetic::power2::lemma_pow2_pos(d as nat);
    vstd::arithmetic::power2::lemma_pow2_adds(h as nat, d as nat);
    vstd::arithmetic::div_mod::lemma_div_denominator(
        x as int,
        vstd::arithmetic::power2::pow2(h as nat) as int,
        vstd::arithmetic::power2::pow2(d as nat) as int,
    );
}

proof fn lemma_top_window_bound(v: u64, size: u64, sub: u64)
    requires
        1 <= sub <= size <= 63,
        v < (1u64 << size),
    ensures
        top_window(v, size, sub) < (1u64 << sub),
{
    assert(v >> ((size - sub) as u64) < (1u64 << sub)) by (bit_vector)
        requires
            1 <= sub <= size <= 63,
            v < (1u64 << size),
    ;
}

/// Words that agree on their bits from `half` up agree on every window that
/// lies within those bits.
proof fn lemma_top_window_same_high(a: u64, b: u64, size: u64, half: u64, sub: u64)
    requires
        1 <= sub,
        sub + half <= size <= 63,
        a >> half == b >> half,
    ensures
        top_window(a, size, sub) == top_window(b, size, sub),
{
    let d = ((size - sub) - half) as u64;
    lemma_shr_compose(a, half, d);
    lemma_shr_compose(b, half, d);
}

/// The pruning bound: the period of a full window never falls below the
/// period of its upper half. The completions of a block share that upper
/// half, so every final period they can reach lies between the last leader
/// entry and the full width.
pub proof fn lemma_period_of_half(v: u64, size: u64, half: u64)
    requires
        1 <= half,
        size == 2 * half,
        size <= 63,
        v < (1u64 << size),
    ensures
        spec_period(v >> half, half) <= spec_period(v, size) <= size,
{
    let h = v >> half;
    assert(v >> half < (1u64 << half)) by (bit_vector)
        requires
            1 <= half,
            size == 2 * half,
            size <= 63,
            v < (1u64 << size),
    ;
    let p = spec_period(v, size);
    lemma_period_in_range(v, size);
    lemma_period_is_periodic(v, size);
    if p >= half {
        lemma_period_in_range(h, half);
    } else {
        assert(is_periodic(v >> half, half, p)) by (bit_vector)
            requires
                1 <= p < half,
                size == 2 * half,
                size <= 63,
                v < (1u64 << size),
                is_periodic(v, size, p),
        ;
        lemma_period_le_periodic(h, half, p);
    }
}

proof fn lemma_period_complement(v: u64, w: u64)
    requires
        1 <= w <= 63,
        v < (1u64 << w),
    ensures
        spec_period(v ^ win_mask(w), w) == spec_period(v, w),
{
    lemma_period_from_complement(v, w, 1);
}

proof fn lemma_period_from_complement(v: u64, w: u64, p: u64)
    requires
        1 <= p <= w <= 63,
        v < (1u64 << w),
    ensures
        crate::period::period_from(v ^ win_mask(w), w, p) == crate::period::period_from(v, w, p),
    decreases w - p,
{
    assert(is_periodic(v ^ win_mask(w), w, p) == is_periodic(v, w, p)) by (bit_vector)
        requires
            1 <= p <= w <= 63,
            v < (1u64 << w),
    ;
    if p < w && !is_periodic(v, w, p) {
        lemma_period_from_complement(v, w, (p + 1) as u64);
    }
}

/// Flipping every bit of a word leaves its whole profile unchanged: the
/// periods compare bits of the window against bits of the same window, and
/// complementing both sides preserves every comparison.
pub proof fn lemma_profile_complement(v: u64, k: u64)
    requires
        k <= 5,
        v < (1u64 << (1u64 << k)),
    ensures
        profile(v ^ win_mask(1u64 << k), k) == profile(v, k),
{
    let size = 1u64 << k;
    let f = v ^ win_mask(size);
    assert(1u64 <= size <= 32) by (bit_vector)
        requires
            k <= 5,
            size == 1u64 << k,
    ;
    assert(f < (1u64 << size)) by (bit_vector)
        requires
            1 <= size <= 32,
            v < (1u64 << size),
            f == v ^ win_mask(size),
    ;
    assert forall|i: int| 0 <= i < k implies profile(f, k)[i] == profile(v, k)[i] by {
        let j = ((i + 1) as u64);
        let sub = 1u64 << j;
        assert(1u64 <= sub <= size) by (bit_vector)
            requires
                1 <= j <= k <= 5,
                sub == 1u64 << j,
                size == 1u64 << k,
        ;
        let wv = top_window(v, size, sub);
        assert(f >> ((size - sub) as u64) == wv ^ win_mask(sub)) by (bit_vector)
            requires
                1 <= sub <= size <= 32,
                v < (1u64 << size),
                f == v ^ win_mask(size),
                wv == v >> ((size - sub) as u64),
        ;
        lemma_top_window_bound(v, size, sub);
        lemma_period_complement(wv, sub);
    }
    assert(profile(f, k) =~= profile(v, k));
}

/// Only the strings with a clear top bit need to be enumerated: every other
/// string is the complement of one of them and contributes the same profile.
proof fn lemma_profiles_of_half_range(k: u64)
    requires
        1 <= k <= 5,
    ensures
        profiles_below(1u64 << (((1u64 << k) - 1) as u64), k) == profile_set(k),
{
    let size = 1u64 << k;
    let hbound = 1u64 << ((size - 1) as u64);
    let bound = 1u64 << size;
    assert(2 <= size <= 32 && 0 < hbound < bound) by (bit_vector)
        requires
            1 <= k <= 5,
            size == 1u64 << k,
            hbound == 1u64 << ((size - 1) as u64),
            bound == 1u64 << size,
    ;
    assert forall|s: Seq<u64>| profile_set(k).contains(s) implies profiles_below(
        hbound,
        k,
    ).contains(s) by {
        let v = choose|v: u64| v < bound && s == profile(v, k);
        if v < hbound {
            assert(profiles_below(hbound, k).contains(s));
        } else {
            let f = v ^ win_mask(size);
            assert(f < hbound) by (bit_vector)
                requires
                    2 <= size <= 32,
                    hbound == 1u64 << ((size - 1) as u64),
                    bound == 1u64 << size,
                    hbound <= v < bound,
                    f == v ^ win_mask(size),
            ;
            lemma_profile_complement(v, k);
            assert(f < hbound && s == profile(f, k));
            assert(profiles_below(hbound, k).contains(s));
        }
    }
    assert forall|s: Seq<u64>| profiles_below(hbound, k).contains(s) implies profile_set(
        k,
    ).contains(s) by {
        let v = choose|v: u64| v < hbound && s == profile(v, k);
        assert(v < bound && s == profile(v, k));
    }
    assert(profiles_below(hbound, k) =~= profile_set(k));
}

/// Copies a profile so that a completed one can be offered to the set while
/// the leader keeps growing candidates.
fn clone_profile(v: &Vec<u64>) -> (r: Vec<u64>)
    ensures
        r@ == v@,
{
    let r = v.clone();
    proof {
        assert forall|i: int| 0 <= i < v@.len() implies r@[i] == v@[i] by {
            assert(cloned::<u64>(v@[i], r@[i]));
        }
        assert(r@ =~= v@);
    }
    r
}

/// The single string of length 1 has no window to profile: only the empty
/// profile exists.
pub proof fn lemma_profile_set_zero()
    ensures
        profile_set(0) == set![Seq::<u64>::empty()],
        profile_set(0).len() == 1,
{
    assert(1u64 << 0u64 == 1 && 1u64 << 1u64 == 2) by (bit_vector);
    assert forall|s: Seq<u64>| profile_set(0).contains(s) implies s == Seq::<u64>::empty() by {
        let v = choose|v: u64| v < (1u64 << (1u64 << 0u64)) && s == profile(v, 0);
        assert(profile(v, 0) =~= Seq::<u64>::empty());
    }
    assert(profile(0, 0) =~= Seq::<u64>::empty());
    assert(profile_set(0).contains(Seq::<u64>::empty()));
    assert(profile_set(0) =~= set![Seq::<u64>::empty()]);
}

/// Exactly two profiles exist for the strings of length 2: the two constant
/// strings repeat after one shift, the two others only after two.
pub proof fn lemma_profile_set_one()
    ensures
        profile_set(1) == set![seq![1u64], seq![2u64]],
        profile_set(1).len() == 2,
{
    assert(1u64 << 1u64 == 2 && 1u64 << 2u64 == 4) by (bit_vector);
    assert(is_periodic(0u64, 2, 1) && !is_periodic(1u64, 2, 1) && !is_periodic(2u64, 2, 1)
        && is_periodic(3u64, 2, 1)) by (bit_vector);
    assert(spec_period(0u64, 2) == 1 && spec_period(3u64, 2) == 1);
    assert(crate::period::period_from(1u64, 2, 2) == 2);
    assert(crate::period::period_from(2u64, 2, 2) == 2);
    assert(spec_period(1u64, 2) == 2 && spec_period(2u64, 2) == 2);
    assert forall|v: u64| v < 4 implies profile(v, 1) == seq![spec_period(v, 2)] by {
        assert(v >> 0u64 == v) by (bit_vector);
        assert(profile(v, 1)[0] == spec_period(v, 2));
        assert(profile(v, 1) =~= seq![spec_period(v, 2)]);
    }
    assert(profile_set(1).contains(seq![1u64])) by {
        assert(0u64 < 4 && profile(0u64, 1) == seq![1u64]);
    }
    assert(profile_set(1).contains(seq![2u64])) by {
        assert(1u64 < 4 && profile(1u64, 1) == seq![2u64]);
    }
    assert forall|s: Seq<u64>| profile_set(1).contains(s) implies (s == seq![1u64] || s
        == seq![2u64]) by {
        let v = choose|v: u64| v < (1u64 << (1u64 << 1u64)) && s == profile(v, 1);
        assert(v == 0 || v == 1 || v == 2 || v == 3);
    }
    assert(profile_set(1) =~= set![seq![1u64], seq![2u64]]);
    assert(seq![1u64][0] != seq![2u64][0]);
    assert(seq![1u64] != seq![2u64]);
}

/// The enumeration is a pure function of the width: any two collections of
/// profiles for the same `size_log` are one and the same set.
pub proof fn lemma_enumeration_deterministic(a: ProfileSet, b: ProfileSet, k: u64)
    requires
        a@ == profile_set(k),
        b@ == profile_set(k),
    ensures
        a@ == b@,
{
}

/// Collects the distinct period profiles of all bitstrings of width
/// `2^size_log`. Strings are walked in blocks that share their upper half:
/// the leader entries of a block are computed once, a block all of whose
/// possible completions are already in the set is skipped, and only the
/// remaining blocks are enumerated in full. Only strings with a clear top
/// bit are visited; the rest are their complements and add nothing.
#[verifier::loop_isolation(false)]
pub fn all_cycles(size_log: usize) -> (r: ProfileSet)
    requires
        size_log <= 5,
    ensures
        r.wf(),
        r@ == profile_set(size_log as u64),
{
    let mut set = ProfileSet::new();
    if size_log == 0 {
        let empty: Vec<u64> = Vec::new();
        proof {
            assert(empty@ =~= Seq::<u64>::empty());
        }
        set.insert(empty);
        proof {
            lemma_profile_set_zero();
            assert(set@ =~= profile_set(0));
        }
        return set;
    }
    if size_log == 1 {
        let mut low: Vec<u64> = Vec::new();
        low.push(1);
        let mut high: Vec<u64> = Vec::new();
        high.push(2);
        proof {
            assert(low@ =~= seq![1u64]);
            assert(high@ =~= seq![2u64]);
        }
        set.insert(low);
        set.insert(high);
        proof {
            lemma_profile_set_one();
            assert(set@ =~= profile_set(1));
        }
        return set;
    }
    let k: u64 = size_log as u64;
    let size: u64 = 1u64 << k;
    let half: u64 = 1u64 << (k - 1);
    proof {
        assert(size == 2 * half && 4 <= size <= 32 && 2 <= half <= 16) by (bit_vector)
            requires
                2 <= k <= 5,
                size == 1u64 << k,
                half == 1u64 << ((k - 1) as u64),
        ;
    }
    let half_count: u64 = 1u64 << half;
    let n_blocks: u64 = 1u64 << (half - 1);
    let hbound: u64 = 1u64 << (size - 1);
    proof {
        assert((n_blocks << half) == hbound && hbound < (1u64 << size) && half_count >= 4)
            by (bit_vector)
            requires
                size == 2 * half,
                2 <= half <= 16,
                half_count == 1u64 << half,
                n_blocks == 1u64 << ((half - 1) as u64),
                hbound == 1u64 << ((size - 1) as u64),
        ;
    }
    // the fixed table of sub-window shifts and widths, one per width below
    // the full one
    let mut subs: Vec<(u64, u64)> = Vec::new();
    let mut j: u64 = 1;
    while j < k
        invariant
            1 <= j <= k,
            subs@.len() == j - 1,
            forall|i: int|
                0 <= i < j - 1 ==> #[trigger] subs@[i] == (
                    (size - (1u64 << ((i + 1) as u64))) as u64,
                    1u64 << ((i + 1) as u64),
                ),
        decreases k - j,
    {
        let sub: u64 = 1u64 << j;
        proof {
            assert(2 <= 1u64 << j && 1u64 << j <= size) by (bit_vector)
                requires
                    1 <= j < k <= 5,
                    size == 1u64 << k,
            ;
        }
        subs.push((size - sub, sub));
        j = j + 1;
    }
    let mut block: u64 = 0;
    proof {
        assert(0u64 << half == 0) by (bit_vector);
        assert(set@ =~= profiles_below((0u64 << half), k));
    }
    while block < n_blocks
        invariant
            0 <= block <= n_blocks,
            set.wf(),
            set@ == profiles_below((block << half), k),
        decreases n_blocks - block,
    {
        proof {
            assert((block << half) < hbound && ((block << half) >> half) == block && (block
                << half) + (1u64 << half) <= hbound && ((((block + 1) as u64)) << half) == (block << half)
                + (1u64 << half)) by (bit_vector)
                requires
                    block < n_blocks,
                    n_blocks == 1u64 << ((half - 1) as u64),
                    hbound == 1u64 << ((size - 1) as u64),
                    size == 2 * half,
                    2 <= half <= 16,
            ;
        }
        let start: u64 = block << half;
        // the leader: the profile entries shared by every completion
        let mut leader: Vec<u64> = Vec::new();
        let mut t: usize = 0;
        while t < subs.len()
            invariant
                0 <= t <= subs@.len(),
                leader@.len() == t,
                forall|i: int| 0 <= i < t ==> #[trigger] leader@[i] == profile(start, k)[i],
            decreases subs@.len() - t,
        {
            let (shift, sub) = subs[t];
            proof {
                assert(1u64 <= 1u64 << (((t as int) + 1) as u64) && 1u64 << (((t as int) + 1)
                    as u64) <= size) by (bit_vector)
                    requires
                        0 <= t as int,
                        t as int + 1 < k,
                        k <= 5,
                        size == 1u64 << k,
                ;
                lemma_top_window_bound(start, size, sub);
            }
            let w = cycle_len(start >> shift, sub);
            leader.push(w);
            t = t + 1;
        }
        let end: u64 = leader[leader.len() - 1];
        proof {
            lemma_top_window_bound(start, size, half);
            assert(1u64 << ((((k - 2) as int) + 1) as u64) == half);
            assert(end == spec_period(start >> half, half));
            lemma_period_in_range(start >> half, half);
        }
        // every completion of the block shares the leader, and its final
        // period lies between the leader's last entry and the full width
        proof {
            assert forall|m: u64| start <= m < start + (1u64 << half) implies (profile(m, k)
                == leader@.push(spec_period(m, size)) && end <= spec_period(m, size) <= size && m
                < (1u64 << size)) by {
                assert(m >> half == block && m < (1u64 << size)) by (bit_vector)
                    requires
                        start == block << half,
                        start <= m < start + (1u64 << half),
                        block < n_blocks,
                        n_blocks == 1u64 << ((half - 1) as u64),
                        size == 2 * half,
                        2 <= half <= 16,
                ;
                assert forall|i: int| 0 <= i < k - 1 implies profile(m, k)[i] == profile(
                    start,
                    k,
                )[i] by {
                    let jj = ((i + 1) as u64);
                    let sub = 1u64 << jj;
                    assert(1 <= sub && sub + half <= size) by (bit_vector)
                        requires
                            1 <= jj,
                            jj <= k - 1,
                            2 <= k <= 5,
                            half == 1u64 << ((k - 1) as u64),
                            size == 2 * half,
                            sub == 1u64 << jj,
                    ;
                    lemma_top_window_same_high(m, start, size, half, sub);
                }
                assert(m >> 0u64 == m) by (bit_vector);
                assert(profile(m, k)[(k - 1) as int] == spec_period(m, size));
                assert(profile(m, k) =~= leader@.push(spec_period(m, size)));
                lemma_period_of_half(m, size, half);
                lemma_period_in_range(m, size);
            }
        }
        // the pruning test: are all reachable completions known already?
        let mut all_known: bool = true;
        let mut c: u64 = end;
        while c <= size
            invariant
                end <= c,
                c <= size + 1,
                all_known == (forall|q: u64|
                    end <= q < c ==> #[trigger] set@.contains(leader@.push(q))),
            decreases size + 1 - c,
        {
            let mut cand = clone_profile(&leader);
            cand.push(c);
            let present = set.contains(&cand);
            proof {
                assert(cand@ == leader@.push(c));
                if all_known && present {
                    assert forall|q: u64| end <= q < c + 1 implies #[trigger] set@.contains(
                        leader@.push(q),
                    ) by {
                        if q == c {
                            assert(set@.contains(cand@));
                        }
                    }
                } else if !present {
                    assert(!set@.contains(leader@.push(c)));
                }
            }
            all_known = all_known && present;
            c = c + 1;
        }
        if all_known {
            // nothing new can come from this block
            proof {
                assert forall|s: Seq<u64>| profiles_below(((((block + 1) as u64)) << half), k).contains(
                    s,
                ) implies set@.contains(s) by {
                    let v = choose|v: u64|
                        v < ((((block + 1) as u64)) << half) && s == profile(v, k);
                    if v < start {
                        assert(profiles_below(block << half, k).contains(s));
                    } else {
                        let p = spec_period(v, size);
                        assert(profile(v, k) == leader@.push(p) && end <= p <= size);
                        assert(set@.contains(leader@.push(p)));
                    }
                }
                assert forall|s: Seq<u64>| set@.contains(s) implies profiles_below(
                    ((((block + 1) as u64)) << half),
                    k,
                ).contains(s) by {
                    let v = choose|v: u64| v < (block << half) && s == profile(v, k);
                    assert(v < ((((block + 1) as u64)) << half) && s == profile(v, k));
                }
                assert(set@ =~= profiles_below(((((block + 1) as u64)) << half), k));
            }
        } else {
            // enumerate the block in full, marking every period that occurs
            let mut marks = bits_from_elem(size as usize + 1, false);
            let stop: u64 = start + half_count;
            let mut num: u64 = start;
            while num < stop
                invariant
                    start <= num <= stop,
                    bits_of(marks).len() == size + 1,
                    forall|p: int|
                        0 <= p <= size ==> ((#[trigger] bits_of(marks)[p]) <==> exists|m: u64|
                            start <= m < num && spec_period(m, size) == p),
                decreases stop - num,
            {
                let p = cycle_len(num, size);
                let ghost old_marks = bits_of(marks);
                bits_set(&mut marks, p as usize, true);
                proof {
                    assert forall|q: int| 0 <= q <= size implies ((bits_of(marks)[q]) <==> exists|
                        m: u64,
                    | start <= m < num + 1 && spec_period(m, size) == q) by {
                        if q == p {
                            assert(start <= num < num + 1 && spec_period(num, size) == q);
                        } else {
                            assert(bits_of(marks)[q] == old_marks[q]);
                            if exists|m: u64| start <= m < num + 1 && spec_period(m, size) == q {
                                let m = choose|m: u64|
                                    start <= m < num + 1 && spec_period(m, size) == q;
                                assert(m != num);
                                assert(start <= m < num && spec_period(m, size) == q);
                            }
                        }
                    }
                }
                num = num + 1;
            }
            // record one profile per period found in the block
            let ghost set0 = set@;
            let mut c2: u64 = 1;
            while c2 <= size
                invariant
                    1 <= c2 <= size + 1,
                    set.wf(),
                    forall|s: Seq<u64>|
                        #[trigger] set@.contains(s) <==> (set0.contains(s) || exists|q: u64|
                            1 <= q < c2 && bits_of(marks)[q as int] && s == leader@.push(q)),
                decreases size + 1 - c2,
            {
                let is_set = match bits_get(&marks, c2 as usize) {
                    Some(b) => b,
                    None => false,
                };
                if is_set {
                    let mut found = clone_profile(&leader);
                    found.push(c2);
                    set.insert(found);
                    proof {
                        assert(found@ == leader@.push(c2));
                        assert forall|s: Seq<u64>| #[trigger] set@.contains(s) implies (
                        set0.contains(s) || exists|q: u64|
                            1 <= q < c2 + 1 && bits_of(marks)[q as int] && s == leader@.push(
                                q,
                            )) by {
                            if s == found@ {
                                assert(1 <= c2 < c2 + 1 && bits_of(marks)[c2 as int]);
                            }
                        }
                    }
                }
                proof {
                    assert forall|s: Seq<u64>|
                        (set0.contains(s) || exists|q: u64|
                            1 <= q < c2 + 1 && bits_of(marks)[q as int] && s == leader@.push(
                                q,
                            )) implies #[trigger] set@.contains(s) by {
                        if !set0.contains(s) {
                            let q = choose|q: u64|
                                1 <= q < c2 + 1 && bits_of(marks)[q as int] && s == leader@.push(
                                    q,
                                );
                            if q < c2 {
                                assert(set@.contains(s));
                            }
                        }
                    }
                }
                c2 = c2 + 1;
            }
            // the set now holds exactly the profiles of all strings seen so far
            proof {
                assert forall|s: Seq<u64>| set@.contains(s) implies profiles_below(
                    ((((block + 1) as u64)) << half),
                    k,
                ).contains(s) by {
                    if set0.contains(s) {
                        let v = choose|v: u64| v < (block << half) && s == profile(v, k);
                        assert(v < ((((block + 1) as u64)) << half) && s == profile(v, k));
                    } else {
                        let q = choose|q: u64|
                            1 <= q < size + 1 && bits_of(marks)[q as int] && s == leader@.push(q);
                        let m = choose|m: u64|
                            start <= m < stop && spec_period(m, size) == q as int;
                        assert(s == profile(m, k));
                        assert(m < ((((block + 1) as u64)) << half));
                    }
                }
                assert forall|s: Seq<u64>| profiles_below(((((block + 1) as u64)) << half), k).contains(
                    s,
                ) implies set@.contains(s) by {
                    let v = choose|v: u64|
                        v < ((((block + 1) as u64)) << half) && s == profile(v, k);
                    if v < start {
                        assert(profiles_below(block << half, k).contains(s));
                        assert(set0.contains(s));
                    } else {
                        let p = spec_period(v, size);
                        assert(profile(v, k) == leader@.push(p) && 1 <= p <= size);
                        assert(bits_of(marks)[p as int]) by {
                            assert(start <= v < stop && spec_period(v, size) == p as int);
                        }
                        assert(1 <= p < size + 1 && bits_of(marks)[p as int] && s == leader@.push(
                            p,
                        ));
                    }
                }
                assert(set@ =~= profiles_below(((((block + 1) as u64)) << half), k));
            }
        }
        block = block + 1;
    }
    proof {
        assert((n_blocks << half) == (1u64 << (((1u64 << k) - 1) as u64)));
        lemma_profiles_of_half_range(k);
    }
    set
}

} // verus!
