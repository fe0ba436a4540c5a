//! Physical page allocation with a binary buddy system.
//!
//! Free blocks are kept as index-based lists of start addresses, one per
//! order, beside a bitmap with one bit per page; blocks are split on
//! allocation and merged with their buddies on release.
use vstd::prelude::*;
use vstd::arithmetic::power2::{pow2, lemma_pow2_unfold, lemma_pow2_pos, lemma_pow2_strictly_increases, lemma2_to64, lemma_pow2_adds};
use vstd::arithmetic::div_mod::{lemma_fundamental_div_mod, lemma_hoist_over_denominator, lemma_mod_multiples_basic, lemma_div_multiples_vanish, lemma_div_is_ordered};
use crate::memory::addr::PhysAddr;
use crate::memory::bitmap::{count_set, Bitmap, BITS};
use crate::multiboot::MultibootMmapEntry;
use crate::sync::oncelock::OnceLock;

verus! {

/// The size of a page in bytes (4 KiB).
pub const PAGE_SIZE: usize = 4096;

/// The largest block order: blocks of up to 2^11 pages (8 MiB).
pub const MAX_ORDER: usize = 11;

/// Number of free lists, one per order.
pub const NUM_ORDERS: usize = 12;

/// Pages in a block of order `o`.
pub open spec fn pages_of(o: nat) -> nat {
    pow2(o)
}

/// Bytes in a block of order `o`.
pub open spec fn order_size(o: nat) -> nat {
    PAGE_SIZE as nat * pow2(o)
}

/// Whether `a` is naturally aligned for a block of order `o`.
pub open spec fn aligned(a: int, o: nat) -> bool {
    a % order_size(o) as int == 0
}

/// The order-`o` buddy of the block at `a`: the next block when `a`'s index
/// at that size is even and the previous one when it is odd. For an aligned
/// block this is `a` with the size bit flipped (`lemma_xor_buddy`).
pub open spec fn buddy_of(a: int, o: nat) -> int {
    if (a / order_size(o) as int) % 2 == 0 {
        a + order_size(o)
    } else {
        a - order_size(o)
    }
}

/// `s` without the occurrence of `v` nearest its end (the list head).
pub open spec fn remove_last_occ(s: Seq<usize>, v: usize) -> Seq<usize>
    decreases s.len(),
{
    if s.len() == 0 {
        s
    } else if s.last() == v {
        s.drop_last()
    } else {
        remove_last_occ(s.drop_last(), v).push(s.last())
    }
}

/// The smallest order from `o` up whose list is not empty, or
/// `MAX_ORDER + 1` when there is none.
pub open spec fn first_nonempty(lists: Seq<Seq<usize>>, o: nat) -> nat
    decreases NUM_ORDERS - o,
{
    if o > MAX_ORDER {
        NUM_ORDERS as nat
    } else if lists[o as int].len() > 0 {
        o
    } else {
        first_nonempty(lists, o + 1)
    }
}

pub proof fn lemma_first_nonempty(lists: Seq<Seq<usize>>, o: nat)
    requires
        lists.len() == NUM_ORDERS,
    ensures
        o <= MAX_ORDER ==> o <= first_nonempty(lists, o),
        first_nonempty(lists, o) <= NUM_ORDERS,
        first_nonempty(lists, o) <= MAX_ORDER ==> lists[first_nonempty(lists, o) as int].len() > 0,
        first_nonempty(lists, o) > MAX_ORDER ==> forall|k: int|
            o <= k <= MAX_ORDER ==> #[trigger] lists[k].len() == 0,
    decreases NUM_ORDERS - o,
{
    if o <= MAX_ORDER && lists[o as int].len() == 0 {
        lemma_first_nonempty(lists, o + 1);
    }
}

/// The lists after the head block `a` of list `big` was taken and split down
/// to order `order`: each upper half is pushed onto the list of its order.
pub open spec fn split_lists(lists: Seq<Seq<usize>>, order: nat, big: nat, a: int) -> Seq<
    Seq<usize>,
> {
    Seq::new(
        lists.len(),
        |k: int|
            if k == big {
                lists[k].drop_last()
            } else if order <= k < big {
                lists[k].push((a + order_size(k as nat)) as usize)
            } else {
                lists[k]
            },
    )
}

/// `pages` with pages `[first, first + n)` set to `v`.
pub open spec fn mark(pages: Seq<bool>, first: int, n: int, v: bool) -> Seq<bool> {
    Seq::new(pages.len(), |i: int| if first <= i < first + n { v } else { pages[i] })
}

pub proof fn lemma_order_size(o: nat)
    requires
        o <= MAX_ORDER,
    ensures
        PAGE_SIZE <= order_size(o) <= PAGE_SIZE * 2048,
        order_size(o) % PAGE_SIZE as nat == 0,
        o > 0 ==> order_size(o) == 2 * order_size((o - 1) as nat),
        order_size(o + 1) == 2 * order_size(o),
{
    lemma2_to64();
    lemma_pow2_pos(o);
    if o < MAX_ORDER {
        lemma_pow2_strictly_increases(o, MAX_ORDER as nat);
    }
    if o > 0 {
        lemma_pow2_unfold(o);
    }
    lemma_pow2_unfold(o + 1);
    lemma_mod_multiples_basic(pow2(o) as int, PAGE_SIZE as int);
    assert(order_size(o) % PAGE_SIZE as nat == 0) by (nonlinear_arith)
        requires
            (pow2(o) as int * PAGE_SIZE as int) % PAGE_SIZE as int == 0,
    ;
    assert(PAGE_SIZE * pow2(o) <= PAGE_SIZE * 2048) by (nonlinear_arith)
        requires
            pow2(o) <= 2048,
    ;
}

pub proof fn lemma_aligned_down(a: int, lo: nat, hi: nat)
    requires
        lo <= hi,
        aligned(a, hi),
    ensures
        aligned(a, lo),
    decreases hi - lo,
{
    if lo < hi {
        let h1 = (hi - 1) as nat;
        lemma_pow2_unfold(hi);
        lemma_pow2_pos(h1);
        let s = order_size(h1) as int;
        assert(order_size(hi) == 2 * s);
        lemma_fundamental_div_mod(a, 2 * s);
        let q = a / (2 * s);
        assert(a == s * (2 * q)) by (nonlinear_arith)
            requires
                a == (2 * s) * q + a % (2 * s),
                a % (2 * s) == 0,
        ;
        lemma_mod_multiples_basic(2 * q, s);
        assert((2 * q) * s == s * (2 * q)) by (nonlinear_arith);
        lemma_aligned_down(a, lo, h1);
    }
}

pub proof fn lemma_aligned_next(a: int, o: nat)
    requires
        aligned(a, o),
    ensures
        aligned(a + order_size(o), o),
{
    lemma_pow2_pos(o);
    let s = order_size(o) as int;
    lemma_fundamental_div_mod(a, s);
    lemma_mod_multiples_basic(a / s + 1, s);
    assert((a / s + 1) * s == a + s) by (nonlinear_arith)
        requires
            a == s * (a / s) + a % s,
            a % s == 0,
    ;
}

/// Where the two halves of an order-`o + 1` block lie: the lower one is
/// aligned for the larger order.
pub proof fn lemma_merge(a: int, o: nat)
    requires
        a >= 0,
        aligned(a, o),
    ensures
        (a / order_size(o) as int) % 2 == 0 ==> aligned(a, o + 1),
        (a / order_size(o) as int) % 2 != 0 ==> a >= order_size(o) && aligned(
            a - order_size(o),
            o + 1,
        ),
        aligned(buddy_of(a, o), o),
{
    lemma_pow2_pos(o);
    lemma_pow2_unfold(o + 1);
    let s = order_size(o) as int;
    assert(order_size(o + 1) == 2 * s);
    lemma_fundamental_div_mod(a, s);
    let q = a / s;
    assert(q >= 0) by (nonlinear_arith)
        requires
            a >= 0,
            s > 0,
            q == a / s,
    ;
    lemma_fundamental_div_mod(q, 2);
    let h = q / 2;
    if q % 2 == 0 {
        assert(a == h * (2 * s)) by (nonlinear_arith)
            requires
                a == s * q,
                q == 2 * h,
        ;
        lemma_mod_multiples_basic(h, 2 * s);
        lemma_mod_multiples_basic(2 * h + 1, s);
        assert((2 * h + 1) * s == a + s) by (nonlinear_arith)
            requires
                a == s * q,
                q == 2 * h,
        ;
    } else {
        assert(a - s == h * (2 * s)) by (nonlinear_arith)
            requires
                a == s * q,
                q == 2 * h + 1,
        ;
        assert(a >= s) by (nonlinear_arith)
            requires
                a == s * q,
                q == 2 * h + 1,
                h >= 0,
                s > 0,
        ;
        lemma_mod_multiples_basic(h, 2 * s);
        lemma_mod_multiples_basic(2 * h, s);
        assert((2 * h) * s == a - s) by (nonlinear_arith)
            requires
                a - s == h * (2 * s),
        ;
    }
}

/// For a block aligned for its order, flipping the bit of its size in its
/// address gives its buddy.
pub proof fn lemma_xor_buddy(a: usize, o: nat)
    requires
        o <= MAX_ORDER,
        aligned(a as int, o),
        a + order_size(o) <= usize::MAX,
    ensures
        a ^ (order_size(o) as usize) == buddy_of(a as int, o),
{
    let k: nat = 12 + o;
    lemma2_to64();
    lemma_pow2_adds(12, o);
    lemma_order_size(o);
    assert(order_size(o) == pow2(k));
    let s = order_size(o) as usize;
    let ku = k as usize;
    vstd::bits::lemma_usize_low_bits_mask_is_mod(a, k);
    vstd::bits::lemma_usize_shr_is_div(a, ku);
    vstd::bits::lemma_usize_shl_is_mul(1, ku);
    let m: usize = 1usize << ku;
    assert(m == s);
    assert(vstd::bits::low_bits_mask(k) == pow2(k) - 1);
    let q = a >> ku;
    assert(q == a / s);
    assert(a & ((m - 1) as usize) == 0);
    assert(((q & 1 == 0) == (q % 2 == 0)) && ((q & 1 == 0) ==> a ^ m == ((a + m) as usize)) && ((q & 1
        != 0) ==> a ^ m == ((a - m) as usize))) by (bit_vector)
        requires
            ku < 64,
            m == 1usize << ku,
            a & ((m - 1) as usize) == 0,
            q == a >> ku,
    ;
    lemma_merge(a as int, o);
}

/// Pages needed to hold `size` bytes.
pub open spec fn pages_for(size: nat) -> nat {
    ((size + PAGE_SIZE - 1) / PAGE_SIZE as int) as nat
}

/// `v` rounded up to a multiple of `a`.
pub open spec fn round_up(v: int, a: int) -> int {
    if v % a == 0 {
        v
    } else {
        v - v % a + a
    }
}

/// `v` rounded down to a multiple of `a`.
pub open spec fn round_down(v: int, a: int) -> int {
    v - v % a
}

/// The largest order from `k` up (at most the largest order) whose block
/// at `b` is aligned and ends by `t`, growing one order at a time.
pub open spec fn grow(b: int, t: int, k: nat) -> nat
    decreases MAX_ORDER - k,
{
    if k < MAX_ORDER && aligned(b, k + 1) && b + order_size(k + 1) <= t {
        grow(b, t, k + 1)
    } else {
        k
    }
}

/// The order of the block that bootstrap cuts at `b` from a range ending
/// at `t`.
pub open spec fn carve_order(b: int, t: int) -> nat {
    grow(b, t, 0)
}

/// `lists` after the page-aligned range `[b, t)` is cut from its start into
/// the largest aligned blocks that fit, each pushed onto the list of its
/// order.
pub open spec fn carve_into(lists: Seq<Seq<usize>>, b: int, t: int) -> Seq<Seq<usize>>
    decreases t - b,
{
    if b + PAGE_SIZE <= t {
        let k = carve_order(b, t);
        if b < b + order_size(k) <= t {
            carve_into(lists.update(k as int, lists[k as int].push(b as usize)), b + order_size(k), t)
        } else {
            lists
        }
    } else {
        lists
    }
}

/// The whole pages of region `e` inside `[start, end)`, as a range of page
/// indices; empty when the clipped region is shorter than a page.
pub open spec fn region_pages(e: MultibootMmapEntry, start: int, end: int) -> (int, int) {
    let (lo, hi) = clipped(e, start, end);
    if lo < hi && hi - lo >= PAGE_SIZE {
        (
            page_index(start, round_up(lo, PAGE_SIZE as int)),
            page_index(start, round_down(hi, PAGE_SIZE as int)),
        )
    } else {
        (0, 0)
    }
}

/// The free lists bootstrap builds from `entries` over `[start, end)`:
/// each available region's whole pages, in order, carved into blocks.
pub open spec fn init_lists(entries: Seq<MultibootMmapEntry>, start: int, end: int) -> Seq<Seq<usize>>
    decreases entries.len(),
{
    if entries.len() == 0 {
        Seq::new(NUM_ORDERS as nat, |o: int| Seq::<usize>::empty())
    } else {
        let before = init_lists(entries.drop_last(), start, end);
        let e = entries.last();
        let (lo, hi) = clipped(e, start, end);
        if e.entry_type == crate::multiboot::MultibootMmapEntryType::Available && lo < hi && hi - lo
            >= PAGE_SIZE {
            carve_into(before, round_up(lo, PAGE_SIZE as int), round_down(hi, PAGE_SIZE as int))
        } else {
            before
        }
    }
}

/// The entries of `s` inside `[lo, hi)`, in order.
pub open spec fn within(s: Seq<usize>, lo: int, hi: int) -> Seq<usize>
    decreases s.len(),
{
    if s.len() == 0 {
        s
    } else {
        let r = within(s.drop_last(), lo, hi);
        if lo <= s.last() < hi {
            r.push(s.last())
        } else {
            r
        }
    }
}

/// Free lists with no entry.
pub open spec fn empty_lists() -> Seq<Seq<usize>> {
    Seq::new(NUM_ORDERS as nat, |o: int| Seq::<usize>::empty())
}

/// The whole pages of region `e` inside `[start, end)`, as an address range;
/// empty when the clipped region is shorter than a page.
pub open spec fn region_span(e: MultibootMmapEntry, start: int, end: int) -> (int, int) {
    let (lo, hi) = clipped(e, start, end);
    if lo < hi && hi - lo >= PAGE_SIZE {
        (round_up(lo, PAGE_SIZE as int), round_down(hi, PAGE_SIZE as int))
    } else {
        (0, 0)
    }
}

/// Available region `n` of `entries` shares no whole page with another
/// available region.
pub open spec fn isolated(entries: Seq<MultibootMmapEntry>, n: int, start: int, end: int) -> bool {
    forall|j: int|
        0 <= j < entries.len() && j != n && entries[j].entry_type
            == crate::multiboot::MultibootMmapEntryType::Available ==> {
            let r1 = #[trigger] region_pages(entries[j], start, end);
            let r2 = region_pages(entries[n], start, end);
            r1.1 <= r2.0 || r2.1 <= r1.0 || r1.1 <= r1.0 || r2.1 <= r2.0
        }
}

/// The blocks listed inside the whole pages of region `e` are, order by
/// order, those that cutting the region into the largest aligned blocks
/// gives (`done`), or there are none (not `done`).
pub open spec fn region_carved(lists: Seq<Seq<usize>>, e: MultibootMmapEntry, start: int, end: int, done: bool) -> bool {
    let (s, t) = region_span(e, start, end);
    forall|o: int|
        0 <= o < NUM_ORDERS ==> #[trigger] within(lists[o], s, t) == if done {
            carve_into(empty_lists(), s, t)[o]
        } else {
            Seq::<usize>::empty()
        }
}

pub proof fn lemma_within_push(s: Seq<usize>, x: usize, lo: int, hi: int)
    ensures
        within(s.push(x), lo, hi) == if lo <= x < hi {
            within(s, lo, hi).push(x)
        } else {
            within(s, lo, hi)
        },
{
    assert(s.push(x).drop_last() =~= s);
}

/// Entries past the first `m` that lie outside `[lo, hi)` do not change the
/// entries inside it.
pub proof fn lemma_within_extend(a: Seq<usize>, m: int, lo: int, hi: int)
    requires
        0 <= m <= a.len(),
        forall|k: int| m <= k < a.len() ==> !(lo <= #[trigger] a[k] < hi),
    ensures
        within(a, lo, hi) == within(a.subrange(0, m), lo, hi),
    decreases a.len(),
{
    if a.len() == m {
        assert(a.subrange(0, m) =~= a);
    } else {
        assert(a.drop_last().subrange(0, m) =~= a.subrange(0, m));
        assert(a.last() == a[a.len() - 1]);
        lemma_within_extend(a.drop_last(), m, lo, hi);
    }
}

/// Between page-aligned addresses above a page-aligned start, the page
/// index keeps strict order.
pub proof fn lemma_page_index_strict(start: int, x: int, y: int)
    requires
        start % PAGE_SIZE as int == 0,
        x % PAGE_SIZE as int == 0,
        y % PAGE_SIZE as int == 0,
        start <= x < y,
    ensures
        page_index(start, x) < page_index(start, y),
{
    let p = PAGE_SIZE as int;
    lemma_fundamental_div_mod(start, p);
    lemma_fundamental_div_mod(x, p);
    lemma_fundamental_div_mod(y, p);
    let c = start / p;
    let a = x / p;
    let b = y / p;
    assert(x - start == p * (a - c) && y - start == p * (b - c) && a < b) by (nonlinear_arith)
        requires
            start == p * c,
            x == p * a,
            y == p * b,
            x < y,
            p > 0,
    ;
    lemma_div_multiples_vanish(a - c, p);
    lemma_div_multiples_vanish(b - c, p);
}

pub proof fn lemma_round_multiple(v: int)
    requires
        v >= 0,
    ensures
        round_down(v, PAGE_SIZE as int) % PAGE_SIZE as int == 0,
        round_up(v, PAGE_SIZE as int) % PAGE_SIZE as int == 0,
{
    let p = PAGE_SIZE as int;
    lemma_fundamental_div_mod(v, p);
    lemma_mod_multiples_basic(v / p, p);
    lemma_mod_multiples_basic(v / p + 1, p);
    assert((v / p) * p == v - v % p) by (nonlinear_arith)
        requires
            v == p * (v / p) + v % p,
    ;
    assert((v / p + 1) * p == v - v % p + p) by (nonlinear_arith)
        requires
            v == p * (v / p) + v % p,
    ;
}

/// A page-aligned address among the whole pages of region `n` is not among
/// those of an isolated region `m`.
pub proof fn lemma_outside_isolated(
    entries: Seq<MultibootMmapEntry>,
    n: int,
    m: int,
    start: int,
    end: int,
    x: int,
)
    requires
        start >= 0,
        start % PAGE_SIZE as int == 0,
        0 <= n < entries.len(),
        0 <= m < entries.len(),
        m != n,
        entries[n].entry_type == crate::multiboot::MultibootMmapEntryType::Available,
        isolated(entries, m, start, end),
        x % PAGE_SIZE as int == 0,
        region_span(entries[n], start, end).0 <= x < region_span(entries[n], start, end).1,
        region_span(entries[n], start, end).0 % PAGE_SIZE as int == 0,
        region_span(entries[n], start, end).1 % PAGE_SIZE as int == 0,
        start <= region_span(entries[n], start, end).0,
    ensures
        !(region_span(entries[m], start, end).0 <= x < region_span(entries[m], start, end).1),
{
    let (sn, tn) = region_span(entries[n], start, end);
    let (sm, tm) = region_span(entries[m], start, end);
    let (lo, hi) = clipped(entries[m], start, end);
    if sm <= x < tm {
        assert(lo < hi && hi - lo >= PAGE_SIZE);
        lemma_round_multiple(lo);
        lemma_round_multiple(hi);
        lemma_fundamental_div_mod(lo, PAGE_SIZE as int);
        assert(start <= sm);
        lemma_div_is_ordered(sm - start, x - start, PAGE_SIZE as int);
        lemma_page_index_strict(start, x, tm);
        lemma_div_is_ordered(sn - start, x - start, PAGE_SIZE as int);
        lemma_page_index_strict(start, x, tn);
        let r1 = region_pages(entries[n], start, end);
        let r2 = region_pages(entries[m], start, end);
        assert(r1 == (page_index(start, sn), page_index(start, tn)));
        assert(r2 == (page_index(start, sm), page_index(start, tm)));
    }
}

/// When no two available regions share a page, each is isolated.
pub proof fn lemma_disjoint_isolated(entries: Seq<MultibootMmapEntry>, n: int, start: int, end: int)
    requires
        regions_disjoint(entries, start, end),
        0 <= n < entries.len(),
        entries[n].entry_type == crate::multiboot::MultibootMmapEntryType::Available,
    ensures
        isolated(entries, n, start, end),
{
    assert forall|j: int|
        0 <= j < entries.len() && j != n && entries[j].entry_type
            == crate::multiboot::MultibootMmapEntryType::Available implies {
        let r1 = #[trigger] region_pages(entries[j], start, end);
        let r2 = region_pages(entries[n], start, end);
        r1.1 <= r2.0 || r2.1 <= r1.0 || r1.1 <= r1.0 || r2.1 <= r2.0
    } by {
        if j < n {
            assert(region_pages(entries[j], start, end) == region_pages(entries[j], start, end));
            assert(region_pages(entries[n], start, end) == region_pages(entries[n], start, end));
        } else {
            assert(region_pages(entries[n], start, end) == region_pages(entries[n], start, end));
            assert(region_pages(entries[j], start, end) == region_pages(entries[j], start, end));
        }
    }
}

/// Blocks added inside the whole pages of region `n` leave what is listed
/// inside an isolated region `m` as it was.
pub proof fn lemma_carved_kept(
    entries: Seq<MultibootMmapEntry>,
    n: int,
    m: int,
    start: int,
    end: int,
    l0: Seq<Seq<usize>>,
    l1: Seq<Seq<usize>>,
    lo: int,
    hi: int,
    done: bool,
)
    requires
        start >= 0,
        start % PAGE_SIZE as int == 0,
        0 <= n < entries.len(),
        0 <= m < entries.len(),
        m != n,
        entries[n].entry_type == crate::multiboot::MultibootMmapEntryType::Available,
        isolated(entries, m, start, end),
        region_span(entries[n], start, end).0 <= lo,
        hi <= region_span(entries[n], start, end).1,
        region_span(entries[n], start, end).0 % PAGE_SIZE as int == 0,
        region_span(entries[n], start, end).1 % PAGE_SIZE as int == 0,
        start <= region_span(entries[n], start, end).0,
        l0.len() == NUM_ORDERS,
        grows_within(l0, l1, lo, hi),
        lists_ok(start, end, l1),
        region_carved(l0, entries[m], start, end, done),
    ensures
        region_carved(l1, entries[m], start, end, done),
{
    let (sm, tm) = region_span(entries[m], start, end);
    lemma2_to64();
    assert forall|o: int| 0 <= o < NUM_ORDERS implies #[trigger] within(l1[o], sm, tm) == within(l0[o], sm, tm) by {
        let k0 = l0[o].len() as int;
        assert forall|k: int| k0 <= k < l1[o].len() implies !(sm <= #[trigger] l1[o][k] < tm) by {
            let x = l1[o][k] as int;
            lemma_order_size(o as nat);
            lemma_aligned_down(x, 0, o as nat);
            lemma_outside_isolated(entries, n, m, start, end, x);
        }
        lemma_within_extend(l1[o], k0, sm, tm);
        assert(l1[o].subrange(0, k0) =~= l0[o]);
    }
}

/// No two available regions of `entries` share a whole page inside
/// `[start, end)`.
pub open spec fn regions_disjoint(entries: Seq<MultibootMmapEntry>, start: int, end: int) -> bool {
    forall|j1: int, j2: int|
        0 <= j1 < j2 < entries.len() && entries[j1].entry_type
            == crate::multiboot::MultibootMmapEntryType::Available && entries[j2].entry_type
            == crate::multiboot::MultibootMmapEntryType::Available ==> {
            let r1 = #[trigger] region_pages(entries[j1], start, end);
            let r2 = #[trigger] region_pages(entries[j2], start, end);
            r1.1 <= r2.0 || r2.1 <= r1.0 || r1.1 <= r1.0 || r2.1 <= r2.0
        }
}

/// `after` keeps every entry of `before` in place and only adds blocks
/// inside `[lo, hi)`.
pub open spec fn grows_within(before: Seq<Seq<usize>>, after: Seq<Seq<usize>>, lo: int, hi: int) -> bool {
    &&& after.len() == before.len()
    &&& forall|o: int| 0 <= o < before.len() ==> #[trigger] before[o].len() <= after[o].len()
    &&& forall|o: int, k: int|
        0 <= o < before.len() && 0 <= k < before[o].len() ==> #[trigger] after[o][k] == before[o][k]
    &&& forall|o: int, k: int|
        0 <= o < before.len() && before[o].len() <= k < after[o].len() ==> lo <= #[trigger] after[o][k]
            && after[o][k] + order_size(o as nat) <= hi
}

/// Index of the page at address `a` when memory begins at `start`.
pub open spec fn page_index(start: int, a: int) -> int {
    (a - start) / PAGE_SIZE as int
}

pub proof fn lemma_page_index_add(start: int, a: int, o: nat)
    requires
        o <= MAX_ORDER,
    ensures
        page_index(start, a + order_size(o)) == page_index(start, a) + pages_of(o),
{
    lemma_hoist_over_denominator(a - start, pow2(o) as int, PAGE_SIZE as nat);
    assert(a + order_size(o) - start == (a - start) + pow2(o) as int * PAGE_SIZE) by (
    nonlinear_arith);
}

/// Whether an order-`o` block at `a` lies within `[start, end)`.
pub open spec fn block_in(start: int, end: int, a: int, o: nat) -> bool {
    start <= a && a + order_size(o) <= end
}

/// Whether the order-`o` buddy of `a` lies within `[start, end)` and is on
/// list `o`.
pub open spec fn buddy_listed(start: int, end: int, lists: Seq<Seq<usize>>, a: int, o: nat) -> bool {
    block_in(start, end, buddy_of(a, o), o) && lists[o as int].contains(buddy_of(a, o) as usize)
}

/// Freeing the order-`o` block at `a` into `lists` over `[start, end)`:
/// while its buddy is free (below the largest order) the two merge into the
/// block of the next order at the lower address. Gives the new lists and the
/// block that was finally listed, as address and order.
pub open spec fn coalesce(start: int, end: int, lists: Seq<Seq<usize>>, a: int, o: nat) -> (Seq<
    Seq<usize>,
>, int, nat)
    decreases MAX_ORDER - o,
{
    if o < MAX_ORDER && buddy_listed(start, end, lists, a, o) {
        let b = buddy_of(a, o);
        coalesce(
            start,
            end,
            lists.update(o as int, remove_last_occ(lists[o as int], b as usize)),
            if a < b {
                a
            } else {
                b
            },
            o + 1,
        )
    } else {
        (lists.update(o as int, lists[o as int].push(a as usize)), a, o)
    }
}

/// Every block on `lists` is aligned for its order and inside `[start, end)`.
pub open spec fn lists_ok(start: int, end: int, lists: Seq<Seq<usize>>) -> bool {
    &&& lists.len() == NUM_ORDERS
    &&& forall|o: int, k: int|
        0 <= o < NUM_ORDERS && 0 <= k < lists[o].len() ==> {
            &&& aligned(#[trigger] lists[o][k] as int, o as nat)
            &&& block_in(start, end, lists[o][k] as int, o as nat)
        }
}

pub proof fn lemma_remove_last_occ(s: Seq<usize>, v: usize, i: int)
    requires
        0 <= i < s.len(),
        s[i] == v,
        forall|j: int| i < j < s.len() ==> s[j] != v,
    ensures
        remove_last_occ(s, v) == s.remove(i),
    decreases s.len(),
{
    if i == s.len() - 1 {
        assert(s.drop_last() =~= s.remove(i));
    } else {
        lemma_remove_last_occ(s.drop_last(), v, i);
        assert(s.drop_last().remove(i).push(s.last()) =~= s.remove(i));
    }
}

pub proof fn lemma_remove_absent(s: Seq<usize>, v: usize)
    requires
        forall|j: int| 0 <= j < s.len() ==> s[j] != v,
    ensures
        remove_last_occ(s, v) == s,
    decreases s.len(),
{
    if s.len() > 0 {
        lemma_remove_absent(s.drop_last(), v);
        assert(s.drop_last().push(s.last()) =~= s);
    }
}

/// The part of region `e` inside `[start, end)`, as its first and
/// one-past-last address.
pub open spec fn clipped(e: MultibootMmapEntry, start: int, end: int) -> (int, int) {
    let hi = if e.addr + e.len > u64::MAX {
        u64::MAX as int
    } else {
        e.addr + e.len
    };
    (if e.addr < start {
        start
    } else {
        e.addr as int
    }, if hi > end {
        end
    } else {
        hi
    })
}

/// Whether the order-`o` block at `a` lies inside the clipped part of one
/// of the first `n` regions of `entries` that are available.
pub open spec fn block_in_available(
    entries: Seq<MultibootMmapEntry>,
    n: int,
    start: int,
    end: int,
    a: int,
    o: nat,
) -> bool {
    exists|j: int|
        0 <= j < n && #[trigger] entries[j].entry_type == crate::multiboot::MultibootMmapEntryType::Available
            && clipped(entries[j], start, end).0 <= a && a + order_size(o) <= clipped(
            entries[j],
            start,
            end,
        ).1
}

/// Whether page `p` is one of the whole pages of one of the first `n`
/// regions of `entries` that are available (see `region_pages`).
pub open spec fn page_in_available(
    entries: Seq<MultibootMmapEntry>,
    n: int,
    start: int,
    end: int,
    p: int,
) -> bool {
    exists|j: int|
        0 <= j < n && #[trigger] entries[j].entry_type == crate::multiboot::MultibootMmapEntryType::Available
            && region_pages(entries[j], start, end).0 <= p < region_pages(entries[j], start, end).1
}

pub proof fn lemma_page_in_available_step(
    entries: Seq<MultibootMmapEntry>,
    n: int,
    start: int,
    end: int,
    p: int,
)
    requires
        0 <= n < entries.len(),
    ensures
        page_in_available(entries, n + 1, start, end, p) == (page_in_available(entries, n, start, end, p)
            || (entries[n].entry_type == crate::multiboot::MultibootMmapEntryType::Available
            && region_pages(entries[n], start, end).0 <= p < region_pages(entries[n], start, end).1)),
{
    if page_in_available(entries, n + 1, start, end, p) {
        let j = choose|j: int|
            0 <= j < n + 1 && #[trigger] entries[j].entry_type
                == crate::multiboot::MultibootMmapEntryType::Available && region_pages(entries[j], start, end).0
                <= p < region_pages(entries[j], start, end).1;
        if j < n {
            assert(page_in_available(entries, n, start, end, p));
        }
    }
    if page_in_available(entries, n, start, end, p) {
        let j = choose|j: int|
            0 <= j < n && #[trigger] entries[j].entry_type
                == crate::multiboot::MultibootMmapEntryType::Available && region_pages(entries[j], start, end).0
                <= p < region_pages(entries[j], start, end).1;
        assert(0 <= j < n + 1);
    }
}

pub proof fn lemma_grow_bound(b: int, t: int, k: nat)
    requires
        k <= MAX_ORDER,
    ensures
        k <= grow(b, t, k) <= MAX_ORDER,
    decreases MAX_ORDER - k,
{
    if k < MAX_ORDER && aligned(b, k + 1) && b + order_size(k + 1) <= t {
        lemma_grow_bound(b, t, k + 1);
    }
}

/// Errors of the page allocator.
#[derive(Debug, PartialEq, Eq, Structural, Clone, Copy)]
pub enum AllocError {
    /// No free block of the requested order or larger.
    OutOfMemory,
    /// The order or page count is zero or beyond the largest block.
    InvalidSize,
    /// The allocator has not been set up from a memory map yet.
    NotInitialized,
}

/// A binary buddy allocator over the physical pages in
/// `[memory_start, memory_end)`.
///
/// Each order has a list of the start addresses of its free blocks, the head
/// at the end of the list; a bitmap holds one bit per page (1 = allocated).
pub struct BuddyAllocator {
    free_lists: Vec<Vec<usize>>,
    total_memory: usize,
    memory_start: PhysAddr,
    memory_end: PhysAddr,
    initialized: bool,
    bitmap: Bitmap,
    total_pages: usize,
}

impl BuddyAllocator {
    /// The free lists, indexed by order; each list's head is its last entry.
    pub closed spec fn lists(&self) -> Seq<Seq<usize>> {
        self.free_lists@.map_values(|l: Vec<usize>| l@)
    }

    /// Allocation state of each page (true = allocated).
    pub closed spec fn pages(&self) -> Seq<bool> {
        self.bitmap@
    }

    pub closed spec fn start(&self) -> int {
        self.memory_start.0 as int
    }

    pub closed spec fn end(&self) -> int {
        self.memory_end.0 as int
    }

    pub closed spec fn is_initialized(&self) -> bool {
        self.initialized
    }

    pub closed spec fn spec_total_pages(&self) -> nat {
        self.total_pages as nat
    }

    pub closed spec fn spec_allocated_pages(&self) -> nat {
        self.bitmap.spec_allocated()
    }

    /// Whether an order-`o` block at `a` lies within the managed range.
    pub open spec fn in_bounds(&self, a: int, o: nat) -> bool {
        block_in(self.start(), self.end(), a, o)
    }

    /// What `allocate(order)` does to `self`, giving `after` and `r`: it
    /// fails with `NotInitialized` before initialization, with `InvalidSize`
    /// for an order beyond the largest and with `OutOfMemory` when no list
    /// from `order` up has a block, changing nothing in each case; otherwise
    /// it takes the head block of the first such list, lists the upper halves
    /// left over from splitting it down to `order` as free, marks their pages
    /// free and the returned block's pages allocated.
    pub open spec fn allocate_result(
        &self,
        order: nat,
        after: BuddyAllocator,
        r: Result<PhysAddr, AllocError>,
    ) -> bool {
        if !self.is_initialized() {
            r == Err::<PhysAddr, AllocError>(AllocError::NotInitialized) && after == *self
        } else if order > MAX_ORDER {
            r == Err::<PhysAddr, AllocError>(AllocError::InvalidSize) && after == *self
        } else {
            let big = first_nonempty(self.lists(), order);
            if big > MAX_ORDER {
                &&& r == Err::<PhysAddr, AllocError>(AllocError::OutOfMemory)
                &&& after == *self
            } else {
                let a = self.lists()[big as int].last();
                let first = page_index(self.start(), a as int);
                &&& r == Ok::<PhysAddr, AllocError>(PhysAddr(a))
                &&& after.lists() == split_lists(self.lists(), order, big, a as int)
                &&& after.pages() == mark(
                    mark(self.pages(), first + pages_of(order), pages_of(big) - pages_of(order), false),
                    first,
                    pages_of(order) as int,
                    true,
                )
            }
        }
    }

    /// Whether `free(addr, order)` acts: the allocator is initialized and
    /// the block is of a valid order, aligned and inside the managed range.
    pub open spec fn free_accepts(&self, addr: int, order: nat) -> bool {
        &&& self.is_initialized()
        &&& order <= MAX_ORDER
        &&& aligned(addr, order)
        &&& self.in_bounds(addr, order)
    }

    /// What `free(addr, order)` does to `self`, giving `after`: where it acts,
    /// the block is coalesced into the lists and the pages of the block that
    /// is finally listed are marked free; otherwise nothing changes.
    pub open spec fn free_result(&self, addr: int, order: nat, after: BuddyAllocator) -> bool {
        if self.free_accepts(addr, order) {
            let c = coalesce(self.start(), self.end(), self.lists(), addr, order);
            &&& after.lists() == c.0
            &&& after.pages() == mark(self.pages(), page_index(self.start(), c.1), pages_of(c.2) as int, false)
        } else {
            after == *self
        }
    }

    /// Invariant: one list per order, every listed block aligned for its
    /// order and inside the managed range, a bitmap covering `total_pages`
    /// pages whose count of allocated pages is exact, no two listed blocks
    /// sharing a page, and a page marked free exactly when it is a page of a
    /// listed block.
    pub closed spec fn wf(&self) -> bool {
        self.wf_pending(0, 0)
    }

    /// The invariant, except that free pages in `[lo, lo + n)` may lie in
    /// no listed block (a block being split or merged).
    pub closed spec fn wf_pending(&self, lo: int, n: int) -> bool {
        &&& self.wf_base()
        &&& lists_free_in(self.start(), self.lists(), self.pages())
        &&& lists_disjoint(self.start(), self.lists())
        &&& free_covered(self.start(), self.lists(), self.pages(), lo, n)
    }

    /// The invariant without the agreement of the bitmap and the lists.
    pub closed spec fn wf_base(&self) -> bool {
        &&& self.free_lists@.len() == NUM_ORDERS
        &&& self.memory_start.0 <= self.memory_end.0
        &&& self.memory_start.0 % PAGE_SIZE == 0
        &&& self.total_memory == self.memory_end.0 - self.memory_start.0
        &&& self.total_pages == self.total_memory / PAGE_SIZE
        &&& self.bitmap.wf()
        &&& self.bitmap.spec_total() == self.total_pages
        &&& lists_ok(self.start(), self.end(), self.lists())
    }

    /// `self` and `other` manage the same range with the same number of
    /// pages and are in the same phase.
    pub open spec fn same_bounds(&self, other: &Self) -> bool {
        &&& self.start() == other.start()
        &&& self.end() == other.end()
        &&& self.spec_total_pages() == other.spec_total_pages()
        &&& self.is_initialized() == other.is_initialized()
    }

    /// What the invariant says of the shape of the state: one list per
    /// order, every listed block aligned for its order and inside the
    /// managed range, and one bitmap entry per managed page.
    pub proof fn lemma_shape(&self)
        requires
            self.wf(),
        ensures
            self.lists().len() == NUM_ORDERS,
            lists_ok(self.start(), self.end(), self.lists()),
            0 <= self.start() <= self.end(),
            self.start() % PAGE_SIZE as int == 0,
            self.spec_total_pages() == (self.end() - self.start()) / PAGE_SIZE as int,
            self.pages().len() == self.spec_total_pages(),
            self.spec_allocated_pages() <= self.spec_total_pages(),
    {
        self.bitmap.lemma_wf();
    }

    /// `self` and `other` manage the same range and are in the same phase.
    pub closed spec fn same_frame(&self, other: &Self) -> bool {
        &&& self.memory_start == other.memory_start
        &&& self.memory_end == other.memory_end
        &&& self.total_memory == other.total_memory
        &&& self.total_pages == other.total_pages
        &&& self.initialized == other.initialized
    }

    /// A new allocator for `[memory_start, memory_end)`, which starts on a
    /// page boundary, whose bitmap lives in `bitmap_region`; every page
    /// starts out allocated and no block is free until `initialize` runs.
    pub fn new(memory_start: PhysAddr, memory_end: PhysAddr, bitmap_region: Vec<u32>) -> (r:
        BuddyAllocator)
        requires
            memory_start.0 <= memory_end.0,
            memory_start.0 % PAGE_SIZE == 0,
            bitmap_region@.len() * BITS >= (memory_end.0 - memory_start.0) / PAGE_SIZE as int,
        ensures
            r.wf(),
            !r.is_initialized(),
            r.start() == memory_start.0,
            r.end() == memory_end.0,
            r.spec_total_pages() == (memory_end.0 - memory_start.0) / PAGE_SIZE as int,
            r.lists() == Seq::new(NUM_ORDERS as nat, |o: int| Seq::<usize>::empty()),
            r.pages() == Seq::new(r.spec_total_pages(), |i: int| true),
    {
        let total_memory = memory_end.0 - memory_start.0;
        let total_pages = total_memory / PAGE_SIZE;
        let mut free_lists: Vec<Vec<usize>> = Vec::new();
        let mut o: usize = 0;
        while o < NUM_ORDERS
            invariant
                o <= NUM_ORDERS,
                free_lists@.len() == o,
                forall|j: int| 0 <= j < o ==> (#[trigger] free_lists@[j])@.len() == 0,
            decreases NUM_ORDERS - o,
        {
            free_lists.push(Vec::new());
            o = o + 1;
        }
        let r = BuddyAllocator {
            free_lists,
            total_memory,
            memory_start,
            memory_end,
            initialized: false,
            bitmap: Bitmap::new(bitmap_region, total_pages),
            total_pages,
        };
        assert forall|j: int| 0 <= j < NUM_ORDERS implies r.lists()[j] == Seq::<usize>::empty() by {
            assert(r.lists()[j] =~= Seq::<usize>::empty());
        }
        assert(r.lists() =~= Seq::new(NUM_ORDERS as nat, |o: int| Seq::<usize>::empty()));
        r
    }

    /// Bytes in a block of order `order`.
    fn order_to_size(order: usize) -> (r: usize)
        requires
            order <= MAX_ORDER,
        ensures
            r == order_size(order as nat),
    {
        let mut size = PAGE_SIZE;
        let mut k: usize = 0;
        proof {
            lemma2_to64();
        }
        while k < order
            invariant
                k <= order <= MAX_ORDER,
                size == order_size(k as nat),
            decreases order - k,
        {
            proof {
                lemma_order_size(k as nat);
                lemma_order_size((k + 1) as nat);
            }
            size = size * 2;
            k = k + 1;
        }
        size
    }

    /// Takes list `order` out of the table, leaving an empty one.
    fn take_list(&mut self, order: usize) -> (r: Vec<usize>)
        requires
            old(self).free_lists@.len() == NUM_ORDERS,
            order < NUM_ORDERS,
        ensures
            r@ == old(self).lists()[order as int],
            final(self).lists() == old(self).lists().update(order as int, Seq::empty()),
            final(self).free_lists@.len() == NUM_ORDERS,
            final(self).memory_start == old(self).memory_start,
            final(self).memory_end == old(self).memory_end,
            final(self).total_memory == old(self).total_memory,
            final(self).total_pages == old(self).total_pages,
            final(self).initialized == old(self).initialized,
            final(self).bitmap == old(self).bitmap,
    {
        let mut list: Vec<usize> = Vec::new();
        self.free_lists.set_and_swap(order, &mut list);
        assert(self.lists() =~= old(self).lists().update(order as int, Seq::empty()));
        list
    }

    /// Puts `list` back as list `order`.
    fn put_list(&mut self, order: usize, list: Vec<usize>)
        requires
            old(self).free_lists@.len() == NUM_ORDERS,
            order < NUM_ORDERS,
        ensures
            final(self).lists() == old(self).lists().update(order as int, list@),
            final(self).free_lists@.len() == NUM_ORDERS,
            final(self).memory_start == old(self).memory_start,
            final(self).memory_end == old(self).memory_end,
            final(self).total_memory == old(self).total_memory,
            final(self).total_pages == old(self).total_pages,
            final(self).initialized == old(self).initialized,
            final(self).bitmap == old(self).bitmap,
    {
        self.free_lists.set(order, list);
        assert(self.lists() =~= old(self).lists().update(order as int, list@));
    }

    /// Marks pages `[start_idx, start_idx + count)` free in the bitmap.
    fn mark_pages_as_free(&mut self, start_idx: usize, count: usize)
        requires
            old(self).wf_base(),
        ensures
            final(self).wf_base(),
            final(self).same_frame(&*old(self)),
            final(self).lists() == old(self).lists(),
            final(self).pages() == mark(old(self).pages(), start_idx as int, count as int, false),
    {
        self.bitmap.mark_range_free(start_idx, count);
        assert(self.pages() =~= mark(old(self).pages(), start_idx as int, count as int, false));
    }

    /// Marks pages `[start_idx, start_idx + count)` allocated in the bitmap.
    fn mark_pages_as_allocated(&mut self, start_idx: usize, count: usize)
        requires
            old(self).wf_base(),
        ensures
            final(self).wf_base(),
            final(self).same_frame(&*old(self)),
            final(self).lists() == old(self).lists(),
            final(self).pages() == mark(old(self).pages(), start_idx as int, count as int, true),
    {
        self.bitmap.mark_range_allocated(start_idx, count);
        assert(self.pages() =~= mark(old(self).pages(), start_idx as int, count as int, true));
    }

    /// The pages of a block inside the managed range are pages of the
    /// bitmap.
    proof fn lemma_block_pages(&self, a: int, o: nat)
        requires
            self.wf_base(),
            o <= MAX_ORDER,
            self.in_bounds(a, o),
        ensures
            0 <= page_index(self.start(), a),
            page_index(self.start(), a) + pages_of(o) <= self.pages().len(),
    {
        self.bitmap.lemma_wf();
        lemma_order_size(o);
        lemma_page_index_add(self.start(), a, o);
        lemma_div_is_ordered(a + order_size(o) - self.start(), self.end() - self.start(), PAGE_SIZE as int);
        lemma_div_is_ordered(0, a - self.start(), PAGE_SIZE as int);
    }

    /// A block inside the managed range whose pages are all allocated
    /// shares no page with a listed block, whose pages are all free.
    proof fn lemma_fresh_if_allocated(&self, a: int, o: nat)
        requires
            self.wf(),
            o <= MAX_ORDER,
            self.in_bounds(a, o),
            block_allocated(self.start(), a, o, self.pages()),
        ensures
            fresh(self.start(), self.lists(), a, o),
    {
        let st = self.start();
        let l = self.lists();
        self.lemma_block_pages(a, o);
        lemma_pow2_pos(o);
        assert forall|q: int, j: int| 0 <= q < NUM_ORDERS && 0 <= j < l[q].len() implies pages_disjoint(
            st,
            a,
            o,
            #[trigger] l[q][j] as int,
            q as nat,
        ) by {
            let e = l[q][j] as int;
            assert(block_free(st, e, q as nat, self.pages()));
            assert(aligned(e, q as nat) && block_in(st, self.end(), e, q as nat));
            self.lemma_block_pages(e, q as nat);
            lemma_pow2_pos(q as nat);
            if !pages_disjoint(st, a, o, e, q as nat) {
                let x = if page_index(st, a) < page_index(st, e) {
                    page_index(st, e)
                } else {
                    page_index(st, a)
                };
                assert(self.pages()[x]);
                assert(!self.pages()[x]);
            }
        }
    }

    /// Whether every page of the order-`order` block at `addr` is allocated.
    fn block_is_allocated(&self, addr: usize, order: usize) -> (r: bool)
        requires
            self.wf(),
            order <= MAX_ORDER,
            self.in_bounds(addr as int, order as nat),
        ensures
            r == block_allocated(self.start(), addr as int, order as nat, self.pages()),
    {
        let size = Self::order_to_size(order);
        proof {
            lemma_order_size(order as nat);
            lemma_pow2_pos(order as nat);
            assert(size / PAGE_SIZE == pages_of(order as nat)) by (nonlinear_arith)
                requires
                    size == PAGE_SIZE * pages_of(order as nat),
            ;
            self.lemma_block_pages(addr as int, order as nat);
            self.bitmap.lemma_wf();
        }
        let first = (addr - self.memory_start.0) / PAGE_SIZE;
        let n = size / PAGE_SIZE;
        let mut i: usize = 0;
        while i < n
            invariant
                self.wf(),
                i <= n,
                n == pages_of(order as nat),
                first == page_index(self.start(), addr as int),
                first + n <= self.pages().len(),
                self.pages().len() == self.bitmap.spec_total(),
                forall|k: int| first <= k < first + i ==> #[trigger] self.pages()[k],
            decreases n - i,
        {
            if !self.bitmap.is_allocated(first + i) {
                return false;
            }
            i = i + 1;
        }
        true
    }

    /// Frees the order-`order` block at `addr` during bootstrap: listed
    /// whole when all its pages are still allocated, else page by page for
    /// the pages that are (the others an overlapping region already freed).
    fn release_block(&mut self, addr: usize, order: usize)
        requires
            old(self).wf(),
            order <= MAX_ORDER,
            aligned(addr as int, order as nat),
            old(self).in_bounds(addr as int, order as nat),
        ensures
            final(self).wf(),
            final(self).same_frame(&*old(self)),
            final(self).pages() == mark(
                old(self).pages(),
                page_index(old(self).start(), addr as int),
                pages_of(order as nat) as int,
                false,
            ),
            grows_within(old(self).lists(), final(self).lists(), addr as int, addr + order_size(order as nat)),
            block_allocated(old(self).start(), addr as int, order as nat, old(self).pages())
                ==> final(self).lists() == old(self).lists().update(
                order as int,
                old(self).lists()[order as int].push(addr),
            ),
    {
        proof {
            self.lemma_shape();
            lemma_order_size(order as nat);
        }
        if self.block_is_allocated(addr, order) {
            proof {
                self.lemma_fresh_if_allocated(addr as int, order as nat);
            }
            self.free_region(addr, order, Ghost(0), Ghost(0));
            proof {
                let l0 = old(self).lists();
                let l1 = self.lists();
                assert forall|o: int, k: int|
                    0 <= o < l0.len() && l0[o].len() <= k < l1[o].len() implies addr <= #[trigger] l1[o][k]
                        && l1[o][k] + order_size(o as nat) <= addr + order_size(order as nat) by {
                    assert(o == order as int && k == l0[o].len());
                }
                assert forall|o: int, k: int| 0 <= o < l0.len() && 0 <= k < l0[o].len() implies #[trigger] l1[o][k]
                    == l0[o][k] by {
                    if o == order as int {
                        assert(l1[o] == l0[o].push(addr));
                    }
                }
            }
            return;
        }
        let size = Self::order_to_size(order);
        proof {
            lemma_pow2_pos(order as nat);
            assert(size / PAGE_SIZE == pages_of(order as nat)) by (nonlinear_arith)
                requires
                    size == PAGE_SIZE * pages_of(order as nat),
            ;
            self.lemma_block_pages(addr as int, order as nat);
        }
        let first = (addr - self.memory_start.0) / PAGE_SIZE;
        let n = size / PAGE_SIZE;
        let mut k: usize = 0;
        while k < n
            invariant
                self.wf(),
                self.same_frame(&*old(self)),
                k <= n,
                n == pages_of(order as nat),
                size == order_size(order as nat),
                first == page_index(self.start(), addr as int),
                first + n <= self.pages().len(),
                self.pages().len() == self.bitmap.spec_total(),
                self.in_bounds(addr as int, order as nat),
                aligned(addr as int, order as nat),
                self.pages() == mark(old(self).pages(), first as int, k as int, false),
                grows_within(old(self).lists(), self.lists(), addr as int, addr + size),
            decreases n - k,
        {
            let ghost l0 = self.lists();
            let ghost p0 = self.pages();
            proof {
                assert(k * PAGE_SIZE < size) by (nonlinear_arith)
                    requires
                        k < n,
                        n * PAGE_SIZE == size,
                ;
                assert(n * PAGE_SIZE == size) by (nonlinear_arith)
                    requires
                        n == size / PAGE_SIZE,
                        size == PAGE_SIZE * pages_of(order as nat),
                ;
            }
            let pa = addr + k * PAGE_SIZE;
            proof {
                lemma2_to64();
                lemma_hoist_over_denominator(addr - self.start(), k as int, PAGE_SIZE as nat);
                assert(page_index(self.start(), pa as int) == first + k);
                lemma_aligned_down(addr as int, 0, order as nat);
                lemma_mod_multiples_basic(k as int, PAGE_SIZE as int);
                vstd::arithmetic::div_mod::lemma_mod_adds(addr as int, k * PAGE_SIZE, PAGE_SIZE as int);
                assert(aligned(pa as int, 0));
                assert(self.in_bounds(pa as int, 0));
            }
            if self.bitmap.is_allocated(first + k) {
                proof {
                    assert(block_allocated(self.start(), pa as int, 0, self.pages()));
                    self.lemma_fresh_if_allocated(pa as int, 0);
                }
                self.free_region(pa, 0, Ghost(0), Ghost(0));
                proof {
                    let l1 = self.lists();
                    assert forall|o: int, j: int|
                        0 <= o < l0.len() && 0 <= j < l0[o].len() implies #[trigger] l1[o][j] == l0[o][j] by {
                        if o == 0 {
                            assert(l1[o] == l0[o].push(pa));
                        }
                    }
                    assert forall|o: int, j: int|
                        0 <= o < old(self).lists().len() && old(self).lists()[o].len() <= j < l1[o].len() implies addr
                        <= #[trigger] l1[o][j] && l1[o][j] + order_size(o as nat) <= addr + size by {
                        if o == 0 && j == l0[o].len() {
                            assert(l1[o][j] == pa);
                        } else {
                            assert(l1[o][j] == l0[o][j]);
                        }
                    }
                    assert forall|o: int, j: int|
                        0 <= o < old(self).lists().len() && 0 <= j < old(self).lists()[o].len() implies #[trigger] l1[o][j]
                        == old(self).lists()[o][j] by {
                        assert(l0[o][j] == old(self).lists()[o][j]);
                        if o == 0 {
                            assert(l1[o] == l0[o].push(pa));
                        }
                    }
                }
            }
            k = k + 1;
            proof {
                assert(self.pages() =~= mark(old(self).pages(), first as int, k as int, false));
            }
        }
        proof {
            assert(self.pages() =~= mark(
                old(self).pages(),
                page_index(old(self).start(), addr as int),
                pages_of(order as nat) as int,
                false,
            ));
        }
    }

    /// Lists the order-`order` block at `addr` as free and clears its pages
    /// in the bitmap.
    fn free_region(&mut self, addr: usize, order: usize, Ghost(lo): Ghost<int>, Ghost(n): Ghost<int>)
        requires
            old(self).wf_pending(lo, n),
            order <= MAX_ORDER,
            aligned(addr as int, order as nat),
            old(self).in_bounds(addr as int, order as nat),
            fresh(old(self).start(), old(self).lists(), addr as int, order as nat),
        ensures
            final(self).wf_pending(lo, n),
            forall|p: int|
                page_index(old(self).start(), addr as int) <= p < page_index(old(self).start(), addr as int)
                    + pages_of(order as nat) ==> covered(final(self).start(), final(self).lists(), p),
            final(self).same_frame(&*old(self)),
            final(self).lists() == old(self).lists().update(
                order as int,
                old(self).lists()[order as int].push(addr),
            ),
            final(self).pages() == mark(
                old(self).pages(),
                page_index(old(self).start(), addr as int),
                pages_of(order as nat) as int,
                false,
            ),
    {
        let size = Self::order_to_size(order);
        proof {
            lemma_order_size(order as nat);
            lemma_pow2_pos(order as nat);
            assert(size / PAGE_SIZE == pages_of(order as nat)) by (nonlinear_arith)
                requires
                    size == PAGE_SIZE * pages_of(order as nat),
            ;
        }
        let first_page = (addr - self.memory_start.0) / PAGE_SIZE;
        let num_pages = size / PAGE_SIZE;
        self.mark_pages_as_free(first_page, num_pages);
        let ghost mid = self.lists();
        let mut list = self.take_list(order);
        list.push(addr);
        self.put_list(order, list);
        proof {
            let l2 = self.lists();
            assert(l2 == mid.update(order as int, mid[order as int].push(addr)));
            assert forall|o: int, k: int|
                0 <= o < NUM_ORDERS && 0 <= k < l2[o].len() implies {
                &&& aligned(#[trigger] l2[o][k] as int, o as nat)
                &&& block_in(self.start(), self.end(), l2[o][k] as int, o as nat)
            } by {
                if o != order as int || k < mid[o].len() {
                    assert(l2[o][k] == mid[o][k]);
                }
            }
            let st = self.start();
            let p0 = old(self).pages();
            let p1 = self.pages();
            assert forall|o: int, k: int| 0 <= o < NUM_ORDERS && 0 <= k < l2[o].len() implies block_free(
                st,
                #[trigger] l2[o][k] as int,
                o as nat,
                p1,
            ) by {
                if o != order as int || k < mid[o].len() {
                    assert(l2[o][k] == mid[o][k]);
                    assert(block_free(st, mid[o][k] as int, o as nat, p0));
                }
            }
            assert forall|q1: int, j1: int, q2: int, j2: int|
                0 <= q1 < NUM_ORDERS && 0 <= j1 < l2[q1].len() && 0 <= q2 < NUM_ORDERS && 0 <= j2
                    < l2[q2].len() && (q1 != q2 || j1 != j2) implies pages_disjoint(
                st,
                #[trigger] l2[q1][j1] as int,
                q1 as nat,
                #[trigger] l2[q2][j2] as int,
                q2 as nat,
            ) by {
                let new1 = q1 == order as int && j1 == mid[q1].len();
                let new2 = q2 == order as int && j2 == mid[q2].len();
                if !new1 {
                    assert(l2[q1][j1] == mid[q1][j1]);
                }
                if !new2 {
                    assert(l2[q2][j2] == mid[q2][j2]);
                }
                if new1 && !new2 {
                    assert(pages_disjoint(st, addr as int, order as nat, mid[q2][j2] as int, q2 as nat));
                } else if new2 && !new1 {
                    assert(pages_disjoint(st, addr as int, order as nat, mid[q1][j1] as int, q1 as nat));
                }
            }
            let first = page_index(st, addr as int);
            assert forall|p: int|
                0 <= p < p1.len() && !#[trigger] p1[p] && !(lo <= p < lo + n) implies covered(st, l2, p) by {
                if !(first <= p < first + pages_of(order as nat)) {
                    assert(!p0[p]);
                    assert(covered(st, mid, p));
                }
                lemma_covered_push(st, mid, order as int, addr, p);
            }
            assert forall|p: int| first <= p < first + pages_of(order as nat) implies covered(st, l2, p) by {
                lemma_covered_push(st, mid, order as int, addr, p);
            }
        }
    }

    /// Takes the head block of the first non-empty list from `order` up and
    /// splits it down to `order`, listing each unused upper half as free.
    fn find_free_block(&mut self, order: usize) -> (r: Option<usize>)
        requires
            old(self).wf(),
            order <= MAX_ORDER,
        ensures
            r is None ==> final(self).wf(),
            r matches Some(a) ==> final(self).wf_pending(
                page_index(old(self).start(), a as int),
                pages_of(order as nat) as int,
            ),
            final(self).same_frame(&*old(self)),
            ({
                let big = first_nonempty(old(self).lists(), order as nat);
                if big > MAX_ORDER {
                    &&& r is None
                    &&& *final(self) == *old(self)
                } else {
                    let a = old(self).lists()[big as int].last();
                    &&& r == Some(a)
                    &&& final(self).lists() == split_lists(old(self).lists(), order as nat, big, a as int)
                    &&& final(self).pages() == mark(
                        old(self).pages(),
                        page_index(old(self).start(), a as int) + pages_of(order as nat),
                        pages_of(big) - pages_of(order as nat),
                        false,
                    )
                    &&& aligned(a as int, big)
                    &&& old(self).in_bounds(a as int, big)
                    &&& fresh(old(self).start(), final(self).lists(), a as int, order as nat)
                }
            }),
    {
        let ghost l0 = self.lists();
        let ghost p0 = self.pages();
        let mut current_order = order;
        while current_order <= MAX_ORDER
            invariant
                order <= current_order <= NUM_ORDERS,
                *self == *old(self),
                old(self).wf(),
                l0 == self.lists(),
                p0 == self.pages(),
                lists_ok(self.start(), self.end(), l0),
                first_nonempty(l0, order as nat) == first_nonempty(l0, current_order as nat),
            decreases NUM_ORDERS - current_order,
        {
            if self.free_lists[current_order].len() > 0 {
                assert(self.free_lists@[current_order as int]@ == l0[current_order as int]);
                let big = current_order;
                let mut list = self.take_list(big);
                let a = list.pop().unwrap();
                self.put_list(big, list);
                proof {
                    assert(l0[big as int].len() > 0);
                    assert(a == l0[big as int].last());
                    assert(aligned(a as int, big as nat));
                    assert(block_in(self.start(), self.end(), a as int, big as nat));
                    lemma_order_size(big as nat);
                    assert(self.lists() =~= split_lists(l0, big as nat, big as nat, a as int));
                    assert(p0 =~= mark(p0, page_index(self.start(), a as int) + pages_of(big as nat), 0, false));
                    assert forall|o: int, k: int|
                        0 <= o < NUM_ORDERS && 0 <= k < self.lists()[o].len() implies {
                        &&& aligned(#[trigger] self.lists()[o][k] as int, o as nat)
                        &&& block_in(self.start(), self.end(), self.lists()[o][k] as int, o as nat)
                    } by {
                        assert(self.lists()[o][k] == l0[o][k]);
                    }
                    assert(first_nonempty(l0, big as nat) == big as nat);
                    let st = self.start();
                    let l1 = self.lists();
                    let last = l0[big as int].len() - 1;
                    assert(l0[big as int][last] == a);
                    assert forall|q: int, j: int| 0 <= q < NUM_ORDERS && 0 <= j < l1[q].len() implies pages_disjoint(
                        st,
                        a as int,
                        big as nat,
                        #[trigger] l1[q][j] as int,
                        q as nat,
                    ) by {
                        assert(l1[q][j] == l0[q][j]);
                        assert(pages_disjoint(st, l0[q][j] as int, q as nat, l0[big as int][last] as int, big as nat));
                    }
                    assert(l0[big as int].drop_last() =~= l0[big as int].remove(last));
                    assert(l1 =~= l0.update(big as int, l0[big as int].remove(last)));
                    assert(old(self).wf_pending(0, 0));
                    assert(free_covered(st, l0, p0, 0, 0));
                    let first = page_index(st, a as int);
                    assert forall|p: int|
                        0 <= p < p0.len() && !#[trigger] p0[p] && !(first <= p < first + pages_of(big as nat))
                            implies covered(st, l1, p) by {
                        lemma_covered_remove(st, l0, big as int, last, p);
                    }
                }
                let mut block_order = big;
                while block_order > order
                    invariant
                        order <= block_order <= big <= MAX_ORDER,
                        self.wf_pending(page_index(self.start(), a as int), pages_of(block_order as nat) as int),
                        self.same_frame(&*old(self)),
                        aligned(a as int, big as nat),
                        block_in(self.start(), self.end(), a as int, big as nat),
                        self.start() == old(self).start(),
                        self.lists() == split_lists(l0, block_order as nat, big as nat, a as int),
                        fresh(self.start(), self.lists(), a as int, block_order as nat),
                        self.pages() == mark(
                            p0,
                            page_index(self.start(), a as int) + pages_of(block_order as nat),
                            pages_of(big as nat) - pages_of(block_order as nat),
                            false,
                        ),
                    decreases block_order,
                {
                    block_order = block_order - 1;
                    let ghost bo = block_order as nat;
                    let ghost before_lists = self.lists();
                    let ghost before_pages = self.pages();
                    proof {
                        lemma_order_size(bo);
                        lemma_pow2_unfold(bo + 1);
                        if bo + 1 < big {
                            lemma_pow2_strictly_increases(bo + 1, big as nat);
                        }
                        lemma_aligned_down(a as int, bo, big as nat);
                        lemma_aligned_next(a as int, bo);
                        lemma_page_index_add(self.start(), a as int, bo);
                    }
                    let buddy = a + Self::order_to_size(block_order);
                    proof {
                        let st = self.start();
                        assert forall|q: int, j: int|
                            0 <= q < NUM_ORDERS && 0 <= j < before_lists[q].len() implies pages_disjoint(
                            st,
                            buddy as int,
                            bo,
                            #[trigger] before_lists[q][j] as int,
                            q as nat,
                        ) by {
                            assert(pages_disjoint(st, a as int, bo + 1, before_lists[q][j] as int, q as nat));
                        }
                    }
                    self.free_region(
                        buddy,
                        block_order,
                        Ghost(page_index(self.start(), a as int)),
                        Ghost(pages_of(bo + 1) as int),
                    );
                    proof {
                        let st = self.start();
                        let l2 = self.lists();
                        let first = page_index(st, a as int);
                        assert forall|p: int|
                            0 <= p < self.pages().len() && !#[trigger] self.pages()[p] && !(first <= p < first
                                + pages_of(bo)) implies covered(st, l2, p) by {
                            if first + pages_of(bo) <= p < first + pages_of(bo + 1) {
                                assert(page_index(st, buddy as int) <= p < page_index(st, buddy as int) + pages_of(bo));
                            }
                        }
                        assert forall|q: int, j: int| 0 <= q < NUM_ORDERS && 0 <= j < l2[q].len() implies pages_disjoint(
                            st,
                            a as int,
                            bo,
                            #[trigger] l2[q][j] as int,
                            q as nat,
                        ) by {
                            if q == bo as int && j == before_lists[q].len() {
                                assert(l2[q][j] == buddy);
                            } else {
                                assert(l2[q][j] == before_lists[q][j]);
                                assert(pages_disjoint(st, a as int, bo + 1, before_lists[q][j] as int, q as nat));
                            }
                        }
                        assert(self.lists() =~= split_lists(l0, bo, big as nat, a as int));
                        assert(self.pages() =~= mark(
                            p0,
                            page_index(self.start(), a as int) + pages_of(bo),
                            pages_of(big as nat) - pages_of(bo),
                            false,
                        ));
                    }
                }
                return Some(a);
            }
            current_order = current_order + 1;
        }
        None
    }

    /// Allocates a block of `2^order` pages and returns its address.
    pub fn allocate(&mut self, order: usize) -> (r: Result<PhysAddr, AllocError>)
        requires
            old(self).wf(),
        ensures
            final(self).wf(),
            final(self).same_bounds(&*old(self)),
            final(self).same_frame(&*old(self)),
            old(self).allocate_result(order as nat, *final(self), r),
            r matches Ok(p) ==> aligned(p.0 as int, order as nat) && old(self).in_bounds(
                p.0 as int,
                order as nat,
            ),
    {
        proof {
            lemma_first_nonempty(old(self).lists(), order as nat);
        }
        if !self.initialized {
            return Err(AllocError::NotInitialized);
        }
        if order > MAX_ORDER {
            return Err(AllocError::InvalidSize);
        }
        match self.find_free_block(order) {
            Some(block_addr) => {
                let ghost big = first_nonempty(old(self).lists(), order as nat);
                proof {
                    lemma_first_nonempty(old(self).lists(), order as nat);
                }
                let size = Self::order_to_size(order);
                proof {
                    lemma_order_size(order as nat);
                    lemma_pow2_pos(order as nat);
                    assert(size / PAGE_SIZE == pages_of(order as nat)) by (nonlinear_arith)
                        requires
                            size == PAGE_SIZE * pages_of(order as nat),
                    ;
                    lemma_aligned_down(block_addr as int, order as nat, big);
                    if (order as nat) < big {
                        lemma_pow2_strictly_increases(order as nat, big);
                    }
                }
                let page_index = (block_addr - self.memory_start.0) / PAGE_SIZE;
                self.mark_pages_as_allocated(page_index, size / PAGE_SIZE);
                Ok(PhysAddr(block_addr))
            },
            None => Err(AllocError::OutOfMemory),
        }
    }

    /// Whether the order-`order` block at `buddy_addr` lies in range and is
    /// on the free list of its order.
    fn is_buddy_free(&self, buddy_addr: usize, order: usize) -> (r: bool)
        requires
            self.wf_base(),
            order <= MAX_ORDER,
        ensures
            r == (self.in_bounds(buddy_addr as int, order as nat) && self.lists()[order as int].contains(buddy_addr)),
    {
        let size = Self::order_to_size(order);
        if buddy_addr < self.memory_start.0 || buddy_addr > self.memory_end.0
            || self.memory_end.0 - buddy_addr < size {
            return false;
        }
        let list = &self.free_lists[order];
        assert(list@ == self.lists()[order as int]);
        let mut i = list.len();
        while i > 0
            invariant
                i <= list@.len(),
                list@ == self.lists()[order as int],
                self.in_bounds(buddy_addr as int, order as nat),
                forall|j: int| i <= j < list@.len() ==> list@[j] != buddy_addr,
            decreases i,
        {
            i = i - 1;
            if list[i] == buddy_addr {
                assert(self.lists()[order as int][i as int] == buddy_addr);
                return true;
            }
        }
        false
    }

    /// Unlinks the block at `addr` from list `order`, the occurrence nearest
    /// the head; the list is unchanged where `addr` is not on it.
    fn remove_from_free_list(
        &mut self,
        addr: usize,
        order: usize,
        Ghost(lo): Ghost<int>,
        Ghost(n): Ghost<int>,
        Ghost(lo2): Ghost<int>,
        Ghost(n2): Ghost<int>,
    )
        requires
            old(self).wf_pending(lo, n),
            order <= MAX_ORDER,
            lo2 <= lo,
            lo + n <= lo2 + n2,
            lo2 <= page_index(old(self).start(), addr as int),
            page_index(old(self).start(), addr as int) + pages_of(order as nat) <= lo2 + n2,
        ensures
            final(self).wf_pending(lo2, n2),
            final(self).same_frame(&*old(self)),
            final(self).pages() == old(self).pages(),
            final(self).lists() == old(self).lists().update(
                order as int,
                remove_last_occ(old(self).lists()[order as int], addr),
            ),
            old(self).lists()[order as int].contains(addr) ==> exists|i: int|
                0 <= i < old(self).lists()[order as int].len() && old(self).lists()[order as int][i]
                    == addr && final(self).lists() == old(self).lists().update(
                    order as int,
                    old(self).lists()[order as int].remove(i),
                ),
    {
        let ghost l0 = self.lists();
        let mut list = self.take_list(order);
        let ghost s = list@;
        let mut i = list.len();
        let mut found = false;
        while i > 0 && !found
            invariant
                i <= s.len(),
                list@ == s,
                found ==> i < s.len() && s[i as int] == addr && forall|j: int|
                    i < j < s.len() ==> s[j] != addr,
                !found ==> forall|j: int| i <= j < s.len() ==> s[j] != addr,
            decreases i,
        {
            i = i - 1;
            if list[i] == addr {
                found = true;
            }
        }
        if found {
            list.remove(i);
            proof {
                lemma_remove_last_occ(s, addr, i as int);
            }
        } else {
            proof {
                lemma_remove_absent(s, addr);
            }
        }
        assert(list@ == remove_last_occ(s, addr));
        self.put_list(order, list);
        proof {
            let l2 = self.lists();
            assert(l2 == l0.update(order as int, list@));
            assert forall|o: int, k: int|
                0 <= o < NUM_ORDERS && 0 <= k < l2[o].len() implies {
                &&& aligned(#[trigger] l2[o][k] as int, o as nat)
                &&& block_in(self.start(), self.end(), l2[o][k] as int, o as nat)
            } by {
                if o != order as int {
                    assert(l2[o][k] == l0[o][k]);
                } else if found {
                    if k < i {
                        assert(l2[o][k] == s[k]);
                    } else {
                        assert(l2[o][k] == s[k + 1]);
                    }
                } else {
                    assert(l2[o][k] == s[k]);
                }
            }
            let st = self.start();
            let pg = self.pages();
            assert(old(self).wf_pending(lo, n));
            assert(free_covered(st, l0, pg, lo, n));
            assert forall|p: int|
                0 <= p < pg.len() && !#[trigger] pg[p] && !(lo2 <= p < lo2 + n2) implies covered(st, l2, p) by {
                assert(covered(st, l0, p));
                if found {
                    assert(l0[order as int][i as int] == addr);
                    assert(l2 =~= l0.update(order as int, l0[order as int].remove(i as int)));
                    lemma_covered_remove(st, l0, order as int, i as int, p);
                } else {
                    assert(l2 =~= l0);
                }
            }
        }
    }

    /// Frees the order-`order` block at `addr`, merging it with its buddy
    /// for as long as the buddy is free.
    fn free_block(&mut self, addr: usize, order: usize)
        requires
            old(self).wf_pending(
                page_index(old(self).start(), addr as int),
                pages_of(order as nat) as int,
            ),
            order <= MAX_ORDER,
            aligned(addr as int, order as nat),
            old(self).in_bounds(addr as int, order as nat),
            fresh(old(self).start(), old(self).lists(), addr as int, order as nat),
        ensures
            final(self).wf(),
            final(self).same_frame(&*old(self)),
            ({
                let c = coalesce(old(self).start(), old(self).end(), old(self).lists(), addr as int, order as nat);
                &&& final(self).lists() == c.0
                &&& final(self).pages() == mark(
                    old(self).pages(),
                    page_index(old(self).start(), c.1),
                    pages_of(c.2) as int,
                    false,
                )
            }),
        decreases MAX_ORDER - order,
    {
        let size = Self::order_to_size(order);
        proof {
            lemma_order_size(order as nat);
            lemma_merge(addr as int, order as nat);
        }
        proof {
            lemma_xor_buddy(addr, order as nat);
        }
        // the block of the same size with the size bit of the address flipped
        let buddy_addr = addr ^ size;
        assert(buddy_addr == buddy_of(addr as int, order as nat));
        if order < MAX_ORDER && self.is_buddy_free(buddy_addr, order) {
            let ghost l0 = self.lists();
            let merged_addr = if addr < buddy_addr {
                addr
            } else {
                buddy_addr
            };
            proof {
                lemma_pow2_unfold(order as nat + 1);
                lemma_page_index_add(self.start(), merged_addr as int, order as nat);
            }
            self.remove_from_free_list(
                buddy_addr,
                order,
                Ghost(page_index(self.start(), addr as int)),
                Ghost(pages_of(order as nat) as int),
                Ghost(page_index(self.start(), merged_addr as int)),
                Ghost(pages_of(order as nat + 1) as int),
            );
            proof {
                let st = self.start();
                let o = order as int;
                let i = choose|i: int|
                    0 <= i < l0[o].len() && l0[o][i] == buddy_addr && self.lists() == l0.update(
                        o,
                        l0[o].remove(i),
                    );
                let l1 = self.lists();
                lemma_pow2_unfold(order as nat + 1);
                lemma_page_index_add(st, merged_addr as int, order as nat);
                assert forall|q: int, j: int| 0 <= q < NUM_ORDERS && 0 <= j < l1[q].len() implies pages_disjoint(
                    st,
                    merged_addr as int,
                    order as nat + 1,
                    #[trigger] l1[q][j] as int,
                    q as nat,
                ) by {
                    let jj = if q == o && j >= i {
                        j + 1
                    } else {
                        j
                    };
                    assert(l1[q][j] == l0[q][jj]);
                    assert(pages_disjoint(st, addr as int, order as nat, l0[q][jj] as int, q as nat));
                    assert(pages_disjoint(st, l0[o][i] as int, order as nat, l0[q][jj] as int, q as nat));
                    lemma_pow2_pos(q as nat);
                    lemma_pow2_pos(order as nat);
                    if merged_addr == addr {
                        assert(buddy_addr == addr + size);
                        lemma_page_index_add(st, addr as int, order as nat);
                    } else {
                        assert(addr == buddy_addr + size);
                        lemma_page_index_add(st, buddy_addr as int, order as nat);
                    }
                }
            }
            self.free_block(merged_addr, order + 1);
        } else {
            self.free_region(
                addr,
                order,
                Ghost(page_index(self.start(), addr as int)),
                Ghost(pages_of(order as nat) as int),
            );
            // the block's own pages are now listed, so none is left pending
            assert(free_covered(self.start(), self.lists(), self.pages(), 0, 0));
        }
    }

    /// Frees the order-`order` block at `addr`, which the caller owns: its
    /// pages are allocated. A request before initialization, for an order
    /// beyond the largest, for an address not aligned to the block size, or
    /// for a block outside the managed range is dropped and changes nothing.
    pub fn free(&mut self, addr: PhysAddr, order: usize)
        requires
            old(self).wf(),
            old(self).free_accepts(addr.0 as int, order as nat) ==> block_allocated(
                old(self).start(),
                addr.0 as int,
                order as nat,
                old(self).pages(),
            ),
        ensures
            final(self).wf(),
            final(self).same_bounds(&*old(self)),
            final(self).same_frame(&*old(self)),
            old(self).free_result(addr.0 as int, order as nat, *final(self)),
    {
        if !self.initialized || order > MAX_ORDER {
            return;
        }
        let addr_val = addr.0;
        let size = Self::order_to_size(order);
        proof {
            lemma_order_size(order as nat);
        }
        if addr_val % size != 0 {
            return;
        }
        if addr_val < self.memory_start.0 || addr_val > self.memory_end.0
            || self.memory_end.0 - addr_val < size {
            return;
        }
        proof {
            self.lemma_fresh_if_allocated(addr_val as int, order as nat);
            assert(free_covered(self.start(), self.lists(), self.pages(), 0, 0));
            assert(self.wf_pending(page_index(self.start(), addr_val as int), pages_of(order as nat) as int));
        }
        self.free_block(addr_val, order);
    }

    /// The largest block that starts at `addr`, is aligned for its size and
    /// ends by `end_addr`: grown from one page while doubling keeps it aligned
    /// and in range, up to the largest order.
    fn max_block_size(addr: usize, end_addr: usize) -> (r: usize)
        requires
            aligned(addr as int, 0),
            addr <= end_addr,
            end_addr - addr >= PAGE_SIZE,
        ensures
            exists|o: nat|
                {
                    &&& o <= MAX_ORDER
                    &&& r == #[trigger] order_size(o)
                    &&& aligned(addr as int, o)
                    &&& addr + r <= end_addr
                    &&& (o == MAX_ORDER || !aligned(addr as int, o + 1) || addr + order_size(o + 1)
                        > end_addr)
                },
            r == order_size(carve_order(addr as int, end_addr as int)),
    {
        let mut size = PAGE_SIZE;
        let mut order: usize = 0;
        proof {
            lemma2_to64();
        }
        while order < MAX_ORDER
            invariant
                order <= MAX_ORDER,
                size == order_size(order as nat),
                aligned(addr as int, order as nat),
                addr + size <= end_addr,
                grow(addr as int, end_addr as int, 0) == grow(addr as int, end_addr as int, order as nat),
            decreases MAX_ORDER - order,
        {
            proof {
                lemma_order_size(order as nat);
                lemma_order_size((order + 1) as nat);
            }
            let next_size = size * 2;
            if addr % next_size != 0 || next_size > end_addr - addr {
                assert(order_size(order as nat) == size);
                return size;
            }
            size = next_size;
            order = order + 1;
        }
        assert(order_size(order as nat) == size);
        size
    }

    /// The smallest order whose blocks hold `size` bytes, at most the
    /// largest order.
    fn size_to_order(size: usize) -> (r: usize)
        ensures
            r <= MAX_ORDER,
            r == MAX_ORDER || pow2(r as nat) >= pages_for(size as nat),
            r == 0 || pow2((r - 1) as nat) < pages_for(size as nat),
            forall|o: nat| o <= MAX_ORDER && size == #[trigger] order_size(o) ==> r == o,
    {
        let pages = size / PAGE_SIZE + if size % PAGE_SIZE != 0 {
            1
        } else {
            0
        };
        proof {
            let q = size as int / PAGE_SIZE as int;
            let m = size as int % PAGE_SIZE as int;
            lemma_fundamental_div_mod(size as int, PAGE_SIZE as int);
            assert(pages == pages_for(size as nat)) by (nonlinear_arith)
                requires
                    size == PAGE_SIZE * q + m,
                    0 <= m < PAGE_SIZE,
                    pages == q + if m != 0 {
                        1int
                    } else {
                        0int
                    },
                    pages_for(size as nat) == (size + PAGE_SIZE - 1) / PAGE_SIZE as int,
            ;
        }
        let mut order: usize = 0;
        let mut order_pages: usize = 1;
        proof {
            lemma2_to64();
        }
        while order_pages < pages && order < MAX_ORDER
            invariant
                order <= MAX_ORDER,
                order_pages == pow2(order as nat),
                forall|j: nat| j < order ==> #[trigger] pow2(j) < pages,
            decreases MAX_ORDER - order,
        {
            proof {
                lemma2_to64();
                lemma_pow2_unfold((order + 1) as nat);
                if order + 1 < MAX_ORDER {
                    lemma_pow2_strictly_increases((order + 1) as nat, MAX_ORDER as nat);
                }
            }
            order = order + 1;
            order_pages = order_pages * 2;
        }
        proof {
            assert forall|o: nat| o <= MAX_ORDER && size == #[trigger] order_size(o) implies order == o by {
                lemma_pow2_pos(o);
                assert(pages == pow2(o)) by (nonlinear_arith)
                    requires
                        size == PAGE_SIZE * pow2(o),
                        pages == (size + PAGE_SIZE - 1) / PAGE_SIZE as int,
                ;
                if order < o {
                    lemma_pow2_strictly_increases(order as nat, o);
                } else if order > o {
                    assert(pow2(o) < pages);
                }
            }
        }
        order
    }

    /// Sets the allocator up from the memory map `entries`. Every page starts
    /// out allocated; then each available region, clipped to the managed
    /// range and shrunk to whole pages, is cut from its start into the
    /// largest aligned blocks that fit, and each block is listed as free
    /// (where an earlier, overlapping region already freed some of a block's
    /// pages, its other pages are listed one by one). Afterwards a page is
    /// free exactly when it is a whole page of an available region; when no
    /// two available regions share a page, the lists are `init_lists`.
    /// Does nothing once the allocator is initialized.
    #[verifier::rlimit(100)]
    #[verifier::spinoff_prover]
    pub fn initialize(&mut self, entries: &[MultibootMmapEntry])
        requires
            old(self).wf(),
        ensures
            final(self).wf(),
            final(self).is_initialized(),
            final(self).start() == old(self).start(),
            final(self).end() == old(self).end(),
            final(self).spec_total_pages() == old(self).spec_total_pages(),
            old(self).is_initialized() ==> *final(self) == *old(self),
            !old(self).is_initialized() ==> {
                &&& forall|o: int, k: int|
                    0 <= o < NUM_ORDERS && 0 <= k < final(self).lists()[o].len() ==> block_in_available(
                        entries@,
                        entries@.len() as int,
                        final(self).start(),
                        final(self).end(),
                        #[trigger] final(self).lists()[o][k] as int,
                        o as nat,
                    )
                &&& forall|p: int|
                    0 <= p < final(self).spec_total_pages() ==> (!#[trigger] final(self).pages()[p]
                        <==> page_in_available(
                        entries@,
                        entries@.len() as int,
                        final(self).start(),
                        final(self).end(),
                        p,
                    ))
                &&& regions_disjoint(entries@, final(self).start(), final(self).end()) ==> final(self).lists()
                    == init_lists(entries@, final(self).start(), final(self).end())

                &&& forall|m: int|
                    0 <= m < entries@.len() && entries@[m].entry_type == crate::multiboot::MultibootMmapEntryType::Available && #[trigger] isolated(
                        entries@,
                        m,
                        final(self).start(),
                        final(self).end(),
                    ) ==> region_carved(final(self).lists(), entries@[m], final(self).start(), final(self).end(), true)
            },
    {
        if self.initialized {
            return;
        }
        // empty every free list, then mark every page allocated
        let mut o: usize = 0;
        while o < NUM_ORDERS
            invariant
                o <= NUM_ORDERS,
                self.wf_base(),
                self.same_frame(&*old(self)),
                forall|j: int| 0 <= j < o ==> #[trigger] self.lists()[j].len() == 0,
            decreases NUM_ORDERS - o,
        {
            let ghost l0 = self.lists();
            let _emptied = self.take_list(o);
            proof {
                let l2 = self.lists();
                assert forall|p: int, k: int|
                    0 <= p < NUM_ORDERS && 0 <= k < l2[p].len() implies {
                    &&& aligned(#[trigger] l2[p][k] as int, p as nat)
                    &&& block_in(self.start(), self.end(), l2[p][k] as int, p as nat)
                } by {
                    assert(l2[p][k] == l0[p][k]);
                }
            }
            o = o + 1;
        }
        proof {
            self.bitmap.lemma_wf();
        }
        self.bitmap.fill_allocated();
        proof {
            assert(self.wf_base());
        }
        proof {
            self.bitmap.lemma_wf();
        }
        let ghost st = self.start();
        let ghost en = self.end();
        proof {
            self.lemma_shape();
            assert(entries@.subrange(0, 0).len() == 0);
            assert forall|j: int| 0 <= j < NUM_ORDERS implies self.lists()[j] == Seq::<usize>::empty() by {
                assert(self.lists()[j] =~= Seq::<usize>::empty());
            }
            assert(self.lists() =~= init_lists(entries@.subrange(0, 0), st, en));
        }
        let mut i: usize = 0;
        while i < entries.len()
            invariant
                i <= entries@.len(),
                self.wf(),
                self.same_frame(&*old(self)),
                st == self.start(),
                en == self.end(),
                forall|o: int, k: int|
                    0 <= o < NUM_ORDERS && 0 <= k < self.lists()[o].len() ==> block_in_available(
                        entries@,
                        i as int,
                        st,
                        en,
                        #[trigger] self.lists()[o][k] as int,
                        o as nat,
                    ),
                forall|p: int|
                    0 <= p < self.spec_total_pages() ==> (!#[trigger] self.pages()[p] <==> page_in_available(
                        entries@,
                        i as int,
                        st,
                        en,
                        p,
                    )),
                regions_disjoint(entries@, st, en) ==> self.lists() == init_lists(
                    entries@.subrange(0, i as int),
                    st,
                    en,
                ),
                forall|m: int|
                    0 <= m < entries@.len() && entries@[m].entry_type == crate::multiboot::MultibootMmapEntryType::Available && #[trigger] isolated(
                        entries@,
                        m,
                        st,
                        en,
                    ) ==> region_carved(self.lists(), entries@[m], st, en, m < i),
            decreases entries@.len() - i,
        {
            let entry = entries[i];
            let ghost n = i as int;
            i = i + 1;
            proof {
                assert(entries@.subrange(0, i as int).drop_last() =~= entries@.subrange(0, n));
                assert(entries@.subrange(0, i as int).last() == entries@[n]);
                let l = self.lists();
                assert forall|o: int, k: int|
                    0 <= o < NUM_ORDERS && 0 <= k < l[o].len() implies block_in_available(
                    entries@,
                    i as int,
                    st,
                    en,
                    #[trigger] l[o][k] as int,
                    o as nat,
                ) by {
                    assert(block_in_available(entries@, n, st, en, l[o][k] as int, o as nat));
                }
            }
            let region_start = entry.addr;
            let region_end = if entry.len > u64::MAX - entry.addr {
                u64::MAX
            } else {
                entry.addr + entry.len
            };
            let start64 = self.memory_start.0 as u64;
            let end64 = self.memory_end.0 as u64;
            let lo = if region_start < start64 {
                start64
            } else {
                region_start
            };
            let hi = if region_end > end64 {
                end64
            } else {
                region_end
            };
            proof {
                assert(clipped(entries@[n], st, en) == (lo as int, hi as int));
            }
            if !(entry.is_available() && lo < hi && hi - lo >= PAGE_SIZE as u64) {
                proof {
                    assert forall|p: int| 0 <= p < self.spec_total_pages() implies (!#[trigger] self.pages()[p]
                        <==> page_in_available(entries@, i as int, st, en, p)) by {
                        lemma_page_in_available_step(entries@, n, st, en, p);
                        assert(!page_in_available(entries@, n, st, en, p) ==> self.pages()[p]);
                    }
                    assert forall|m: int|
                        0 <= m < entries@.len() && entries@[m].entry_type == crate::multiboot::MultibootMmapEntryType::Available && #[trigger] isolated(
                            entries@,
                            m,
                            st,
                            en,
                        ) implies region_carved(self.lists(), entries@[m], st, en, m < i) by {
                        if m == n {
                            assert(region_span(entries@[n], st, en) == (0int, 0int));
                            assert(carve_into(empty_lists(), 0, 0) == empty_lists());
                        }
                    }
                }
                continue;
            }
            let aligned_start = align_up(lo as usize, PAGE_SIZE);
            let aligned_end = align_down(hi as usize, PAGE_SIZE);
            let ghost first = page_index(st, aligned_start as int);
            proof {
                lemma2_to64();
                assert(region_pages(entries@[n], st, en) == (first, page_index(st, aligned_end as int)));
                assert(region_span(entries@[n], st, en) == (aligned_start as int, aligned_end as int));
                if isolated(entries@, n, st, en) {
                    assert(entry == entries@[n]);
                    assert(entries@[n].entry_type == crate::multiboot::MultibootMmapEntryType::Available);
                    assert(0 <= n < entries@.len());
                    assert(region_carved(self.lists(), entries@[n], st, en, n < n));
                    assert forall|o: int| 0 <= o < NUM_ORDERS implies within(
                        self.lists()[o],
                        aligned_start as int,
                        aligned_end as int,
                    ) == Seq::<usize>::empty() by {
                        let sp = region_span(entries@[n], st, en);
                        assert(within(self.lists()[o], sp.0, sp.1) == Seq::<usize>::empty());
                    }
                    assert(Seq::new(
                        NUM_ORDERS as nat,
                        |o: int| within(self.lists()[o], aligned_start as int, aligned_end as int),
                    ) =~= empty_lists());
                }
            }
            let mut addr = aligned_start;
            while addr < aligned_end && aligned_end - addr >= PAGE_SIZE
                invariant
                    self.wf(),
                    self.same_frame(&*old(self)),
                    st == self.start(),
                    en == self.end(),
                    st <= aligned_start <= addr,
                    addr <= aligned_end || addr == aligned_start,
                    aligned_end <= en,
                    aligned_start % PAGE_SIZE == 0,
                    aligned_end % PAGE_SIZE == 0,
                    addr % PAGE_SIZE == 0,
                    i == n + 1,
                    0 <= n < entries@.len(),
                    first == page_index(st, aligned_start as int),
                    entries@[n].entry_type == crate::multiboot::MultibootMmapEntryType::Available,
                    clipped(entries@[n], st, en).0 <= aligned_start,
                    aligned_end <= clipped(entries@[n], st, en).1,
                    region_pages(entries@[n], st, en) == (first, page_index(st, aligned_end as int)),
                    forall|o: int, k: int|
                        0 <= o < NUM_ORDERS && 0 <= k < self.lists()[o].len() ==> block_in_available(
                            entries@,
                            i as int,
                            st,
                            en,
                            #[trigger] self.lists()[o][k] as int,
                            o as nat,
                        ),
                    forall|p: int|
                        0 <= p < self.spec_total_pages() ==> (!#[trigger] self.pages()[p] <==> (
                        page_in_available(entries@, n, st, en, p) || first <= p < page_index(st, addr as int))),
                    regions_disjoint(entries@, st, en) ==> carve_into(self.lists(), addr as int, aligned_end as int)
                        == init_lists(entries@.subrange(0, i as int), st, en),
                    region_span(entries@[n], st, en) == (aligned_start as int, aligned_end as int),
                    forall|m: int|
                        0 <= m < entries@.len() && m != n && entries@[m].entry_type == crate::multiboot::MultibootMmapEntryType::Available
                            && #[trigger] isolated(entries@, m, st, en) ==> region_carved(
                            self.lists(),
                            entries@[m],
                            st,
                            en,
                            m < n,
                        ),
                    isolated(entries@, n, st, en) ==> carve_into(
                        Seq::new(
                            NUM_ORDERS as nat,
                            |o: int| within(self.lists()[o], aligned_start as int, aligned_end as int),
                        ),
                        addr as int,
                        aligned_end as int,
                    ) == carve_into(empty_lists(), aligned_start as int, aligned_end as int),
                decreases aligned_end - addr,
            {
                proof {
                    lemma2_to64();
                }
                let size = Self::max_block_size(addr, aligned_end);
                let order = Self::size_to_order(size);
                let ghost w = carve_order(addr as int, aligned_end as int);
                proof {
                    lemma_grow_bound(addr as int, aligned_end as int, 0);
                }
                assert(order == w);
                let ghost w2 = choose|w2: nat|
                    {
                        &&& w2 <= MAX_ORDER
                        &&& size == #[trigger] order_size(w2)
                        &&& aligned(addr as int, w2)
                        &&& addr + size <= aligned_end
                        &&& (w2 == MAX_ORDER || !aligned(addr as int, w2 + 1) || addr + order_size(w2 + 1)
                            > aligned_end)
                    };
                assert(w2 == order);
                let ghost l0 = self.lists();
                let ghost p0 = self.pages();
                proof {
                    lemma_order_size(w);
                    lemma_page_index_add(st, addr as int, w);
                    lemma_div_is_ordered(aligned_start - st, addr - st, PAGE_SIZE as int);
                    lemma_div_is_ordered(addr + size - st, aligned_end - st, PAGE_SIZE as int);
                    self.lemma_shape();
                    if regions_disjoint(entries@, st, en) {
                        lemma_disjoint_isolated(entries@, n, st, en);
                    }
                    if isolated(entries@, n, st, en) {
                        assert forall|p: int|
                            page_index(st, addr as int) <= p < page_index(st, addr as int) + pages_of(w) && 0 <= p
                                < p0.len() implies #[trigger] p0[p] by {
                            if !p0[p] {
                                let j = choose|j: int|
                                    0 <= j < n && #[trigger] entries@[j].entry_type
                                        == crate::multiboot::MultibootMmapEntryType::Available && region_pages(
                                        entries@[j],
                                        st,
                                        en,
                                    ).0 <= p < region_pages(entries@[j], st, en).1;
                                assert(region_pages(entries@[j], st, en) == region_pages(entries@[j], st, en));
                                assert(region_pages(entries@[n], st, en) == region_pages(entries@[n], st, en));
                            }
                        }
                    }
                }
                self.release_block(addr, order);
                proof {
                    let l1 = self.lists();
                    self.lemma_shape();
                    lemma_round_multiple(clipped(entries@[n], st, en).0);
                    lemma_round_multiple(clipped(entries@[n], st, en).1);
                    assert forall|m: int|
                        0 <= m < entries@.len() && m != n && entries@[m].entry_type == crate::multiboot::MultibootMmapEntryType::Available
                            && #[trigger] isolated(entries@, m, st, en) implies region_carved(
                        l1,
                        entries@[m],
                        st,
                        en,
                        m < n,
                    ) by {
                        lemma_carved_kept(entries@, n, m, st, en, l0, l1, addr as int, addr + size, m < n);
                    }
                    if isolated(entries@, n, st, en) {
                        let as_ = aligned_start as int;
                        let ae = aligned_end as int;
                        let w0 = Seq::new(NUM_ORDERS as nat, |o: int| within(l0[o], as_, ae));
                        let w1 = Seq::new(NUM_ORDERS as nat, |o: int| within(l1[o], as_, ae));
                        assert(l1 == l0.update(w as int, l0[w as int].push(addr)));
                        assert forall|o: int| 0 <= o < NUM_ORDERS implies w1[o] == w0.update(
                            w as int,
                            w0[w as int].push(addr),
                        )[o] by {
                            if o == w as int {
                                lemma_within_push(l0[o], addr, as_, ae);
                            }
                        }
                        assert(w1 =~= w0.update(w as int, w0[w as int].push(addr)));
                        assert(addr + PAGE_SIZE <= ae);
                        assert(carve_order(addr as int, ae) == w);
                        assert(carve_into(w0, addr as int, ae) == carve_into(w1, addr + size, ae));
                    }
                    assert forall|o: int, k: int|
                        0 <= o < NUM_ORDERS && 0 <= k < l1[o].len() implies block_in_available(
                        entries@,
                        i as int,
                        st,
                        en,
                        #[trigger] l1[o][k] as int,
                        o as nat,
                    ) by {
                        if k < l0[o].len() {
                            assert(l1[o][k] == l0[o][k]);
                        } else {
                            assert(entries@[n].entry_type == crate::multiboot::MultibootMmapEntryType::Available
                                && clipped(entries@[n], st, en).0 <= l1[o][k] && l1[o][k] + order_size(o as nat)
                                <= clipped(entries@[n], st, en).1);
                        }
                    }
                    assert forall|p: int| 0 <= p < self.spec_total_pages() implies (!#[trigger] self.pages()[p]
                        <==> (page_in_available(entries@, n, st, en, p) || first <= p < page_index(
                        st,
                        addr + size,
                    ))) by {
                        if !(page_index(st, addr as int) <= p < page_index(st, addr as int) + pages_of(w)) {
                            assert(self.pages()[p] == p0[p]);
                        }
                    }
                    lemma_aligned_next(addr as int, w);
                    lemma_aligned_down(addr + size, 0, w);
                }
                addr = addr + size;
            }
            proof {
                if addr <= aligned_end {
                    lemma_fundamental_div_mod(addr as int, PAGE_SIZE as int);
                    lemma_fundamental_div_mod(aligned_end as int, PAGE_SIZE as int);
                    assert(addr == aligned_end) by (nonlinear_arith)
                        requires
                            addr == PAGE_SIZE * (addr as int / PAGE_SIZE as int),
                            aligned_end == PAGE_SIZE * (aligned_end as int / PAGE_SIZE as int),
                            addr <= aligned_end,
                            aligned_end - addr < PAGE_SIZE,
                    ;
                } else {
                    lemma_div_is_ordered(aligned_end - st, aligned_start - st, PAGE_SIZE as int);
                }
                assert forall|p: int| 0 <= p < self.spec_total_pages() implies (!#[trigger] self.pages()[p]
                    <==> page_in_available(entries@, i as int, st, en, p)) by {
                    lemma_page_in_available_step(entries@, n, st, en, p);
                }
                assert forall|m: int|
                    0 <= m < entries@.len() && m != n && entries@[m].entry_type == crate::multiboot::MultibootMmapEntryType::Available
                        && #[trigger] isolated(entries@, m, st, en) implies region_carved(
                    self.lists(),
                    entries@[m],
                    st,
                    en,
                    m < i,
                ) by {
                    assert(region_carved(self.lists(), entries@[m], st, en, m < n));
                }
                if isolated(entries@, n, st, en) {
                    let as_ = aligned_start as int;
                    let ae = aligned_end as int;
                    let wn = Seq::new(NUM_ORDERS as nat, |o: int| within(self.lists()[o], as_, ae));
                    assert(carve_into(wn, addr as int, ae) == wn);
                    assert(region_carved(self.lists(), entries@[n], st, en, true)) by {
                        assert forall|o: int| 0 <= o < NUM_ORDERS implies #[trigger] within(
                            self.lists()[o],
                            as_,
                            ae,
                        ) == carve_into(empty_lists(), as_, ae)[o] by {
                            assert(wn[o] == within(self.lists()[o], as_, ae));
                        }
                    }
                }
            }
        }
        proof {
            assert(entries@.subrange(0, entries@.len() as int) =~= entries@);
        }
        let ghost before = *self;
        self.initialized = true;
        assert(self.lists() == before.lists() && self.pages() == before.pages());
    }

    /// The start addresses of the free blocks of order `order`, head last.
    pub fn free_list(&self, order: usize) -> (r: Vec<usize>)
        requires
            self.wf(),
            order <= MAX_ORDER,
        ensures
            r@ == self.lists()[order as int],
    {
        let list = &self.free_lists[order];
        let mut r: Vec<usize> = Vec::new();
        let mut i: usize = 0;
        while i < list.len()
            invariant
                i <= list@.len(),
                r@ == list@.subrange(0, i as int),
            decreases list@.len() - i,
        {
            r.push(list[i]);
            i = i + 1;
        }
        assert(r@ =~= list@);
        r
    }

    /// Whether `initialize` has run.
    pub fn is_ready(&self) -> (r: bool)
        ensures
            r == self.is_initialized(),
    {
        self.initialized
    }

    /// Whether page `idx` of the managed range is marked allocated.
    pub fn is_page_allocated(&self, idx: usize) -> (r: bool)
        requires
            self.wf(),
            idx < self.spec_total_pages(),
        ensures
            r == self.pages()[idx as int],
    {
        self.bitmap.is_allocated(idx)
    }

    /// Number of pages in the managed range.
    pub fn total_pages(&self) -> (r: usize)
        ensures
            r == self.spec_total_pages(),
    {
        self.total_pages
    }

    /// Number of pages currently marked allocated.
    pub fn allocated_pages(&self) -> (r: usize)
        ensures
            r == self.spec_allocated_pages(),
    {
        self.bitmap.allocated()
    }

    /// In every well-formed state no page belongs to two listed blocks, and
    /// a page is marked free exactly when it is a page of a listed block.
    pub proof fn lemma_agreement(&self)
        requires
            self.wf(),
        ensures
            lists_disjoint(self.start(), self.lists()),
            lists_free_in(self.start(), self.lists(), self.pages()),
            forall|p: int|
                0 <= p < self.pages().len() && !#[trigger] self.pages()[p] ==> covered(
                    self.start(),
                    self.lists(),
                    p,
                ),
    {
    }

    /// In every well-formed state the allocated count is the number of
    /// pages the bitmap marks allocated, and at most the total: each
    /// managed page is either allocated or free.
    pub proof fn lemma_conservation(&self)
        requires
            self.wf(),
        ensures
            self.spec_allocated_pages() == count_set(self.pages()),
            self.spec_allocated_pages() <= self.spec_total_pages(),
    {
        self.bitmap.lemma_wf();
    }

    /// Number of pages currently free: every managed page is either
    /// allocated or free.
    pub fn free_pages(&self) -> (r: usize)
        requires
            self.wf(),
        ensures
            r + self.spec_allocated_pages() == self.spec_total_pages(),
    {
        proof {
            self.bitmap.lemma_wf();
        }
        self.total_pages - self.allocated_pages()
    }
}

/// `value` rounded up to a multiple of `align`.
pub fn align_up(value: usize, align: usize) -> (r: usize)
    requires
        align > 0,
        value + align - 1 <= usize::MAX,
    ensures
        r == round_up(value as int, align as int),
        r % align == 0,
        value <= r < value + align,
{
    let rem = value % align;
    proof {
        lemma_fundamental_div_mod(value as int, align as int);
        lemma_mod_multiples_basic(value as int / align as int, align as int);
        lemma_mod_multiples_basic(value as int / align as int + 1, align as int);
        assert((value as int / align as int) * align == value - rem) by (nonlinear_arith)
            requires
                value == align * (value as int / align as int) + rem,
        ;
        assert((value as int / align as int + 1) * align == value - rem + align) by (nonlinear_arith)
            requires
                value == align * (value as int / align as int) + rem,
        ;
    }
    if rem == 0 {
        value
    } else {
        value - rem + align
    }
}

/// `value` rounded down to a multiple of `align`.
pub fn align_down(value: usize, align: usize) -> (r: usize)
    requires
        align > 0,
    ensures
        r == round_down(value as int, align as int),
        r % align == 0,
        r <= value < r + align,
{
    let rem = value % align;
    proof {
        lemma_fundamental_div_mod(value as int, align as int);
        lemma_mod_multiples_basic(value as int / align as int, align as int);
        assert((value as int / align as int) * align == value - rem) by (nonlinear_arith)
            requires
                value == align * (value as int / align as int) + rem,
        ;
    }
    value - rem
}

/// Pages in the largest block.
pub const MAX_BLOCK_PAGES: usize = 2048;

/// Physical address where the kernel-wide allocator's range begins (1 MiB),
/// above the firmware and boot loader area.
pub const MEMORY_START: usize = 0x10_0000;

/// The smallest order from `o` up whose blocks hold `count` pages, at most
/// the largest order.
pub open spec fn count_order_from(count: nat, o: nat) -> nat
    decreases MAX_ORDER - o,
{
    if o >= MAX_ORDER || pow2(o) >= count {
        o
    } else {
        count_order_from(count, o + 1)
    }
}

/// The smallest order whose blocks hold `count` pages.
pub open spec fn count_order(count: nat) -> nat {
    count_order_from(count, 0)
}

/// The order that serves a request for `count` pages: the smallest whose
/// blocks hold them. `None` for zero pages or more than the largest block.
fn pages_to_order(count: usize) -> (r: Option<usize>)
    ensures
        count == 0 || count > MAX_BLOCK_PAGES ==> r is None,
        1 <= count <= MAX_BLOCK_PAGES ==> r is Some,
        r matches Some(o) ==> o == count_order(count as nat) && o <= MAX_ORDER && pow2(o as nat)
            >= count,
{
    if count == 0 {
        return None;
    }
    let mut order: usize = 0;
    let mut order_size: usize = 1;
    proof {
        lemma2_to64();
    }
    while order_size < count
        invariant
            order <= MAX_ORDER,
            order_size == pow2(order as nat),
            count_order(count as nat) == count_order_from(count as nat, order as nat),
        decreases MAX_ORDER - order,
    {
        proof {
            lemma2_to64();
            lemma_pow2_unfold((order + 1) as nat);
            if order + 1 < MAX_ORDER {
                lemma_pow2_strictly_increases((order + 1) as nat, MAX_ORDER as nat);
            }
        }
        if order == MAX_ORDER {
            return None;
        }
        order = order + 1;
        order_size = order_size * 2;
    }
    Some(order)
}

/// A kernel-wide allocator handle is consistent: where it holds an
/// allocator, that allocator is well formed.
pub open spec fn handle_ok(pma: &OnceLock<BuddyAllocator>) -> bool {
    &&& pma.wf()
    &&& (pma.spec_value() matches Some(a) ==> a.wf())
}

/// The end of a memory-map region, capped at the largest address.
pub open spec fn region_end(e: MultibootMmapEntry) -> int {
    if e.addr + e.len > usize::MAX {
        usize::MAX as int
    } else {
        e.addr + e.len
    }
}

/// Index of the longest available region of `entries`, the last one among
/// equals; -1 when none is available.
pub open spec fn largest_available(entries: Seq<MultibootMmapEntry>) -> int
    decreases entries.len(),
{
    if entries.len() == 0 {
        -1
    } else {
        let j = largest_available(entries.drop_last());
        let e = entries.last();
        if e.entry_type == crate::multiboot::MultibootMmapEntryType::Available && (j < 0
            || e.len >= entries[j].len) {
            entries.len() - 1
        } else {
            j
        }
    }
}

pub proof fn lemma_largest_available(entries: Seq<MultibootMmapEntry>)
    ensures
        -1 <= largest_available(entries) < entries.len(),
        largest_available(entries) >= 0 ==> entries[largest_available(entries)].entry_type
            == crate::multiboot::MultibootMmapEntryType::Available,
    decreases entries.len(),
{
    if entries.len() > 0 {
        lemma_largest_available(entries.drop_last());
    }
}

/// Words of the kernel-wide allocator's bitmap for `total` pages: one bit
/// per page, rounded up to bytes and then to 32-bit words.
pub open spec fn bitmap_words(total: int) -> int {
    ((total + 7) / 8 + 3) / 4
}

/// Where the bitmap storage carved from the start of region `e` ends: the
/// first page boundary after its bytes.
pub open spec fn bitmap_end(e: MultibootMmapEntry, total: int) -> int {
    round_up(e.addr + 4 * bitmap_words(total), PAGE_SIZE as int)
}

/// Region `e` without its part before `cut` (empty when nothing is left).
pub open spec fn carve_front(e: MultibootMmapEntry, cut: int) -> MultibootMmapEntry {
    let end = if e.addr + e.len > u64::MAX {
        u64::MAX as int
    } else {
        e.addr + e.len
    };
    if cut < end {
        MultibootMmapEntry { addr: cut as u64, len: (end - cut) as u64, ..e }
    } else {
        MultibootMmapEntry { len: 0, ..e }
    }
}

/// The memory map with the bitmap storage for `total` pages carved from
/// the start of region `j`.
pub open spec fn without_bitmap(entries: Seq<MultibootMmapEntry>, j: int, total: int) -> Seq<
    MultibootMmapEntry,
> {
    entries.update(j, carve_front(entries[j], bitmap_end(entries[j], total)))
}

/// Sets up the kernel-wide allocator in `pma` from the memory map: it manages
/// `[MEMORY_START, end)`, where `end` is the end of the longest available
/// region, whose first pages are set aside for the bitmap (one bit per
/// page) and never handed out. `pma` is left as it is when it already holds
/// an allocator, when no region is available or when that region ends below
/// `MEMORY_START`.
pub fn initialize(pma: &mut OnceLock<BuddyAllocator>, entries: &[MultibootMmapEntry])
    requires
        handle_ok(old(pma)),
    ensures
        handle_ok(final(pma)),
        ({
            let j = largest_available(entries@);
            if old(pma).spec_value() is None && j >= 0 && region_end(entries@[j]) >= MEMORY_START {
                final(pma).spec_value() matches Some(a) && {
                    &&& a.is_initialized()
                    &&& a.start() == MEMORY_START
                    &&& a.end() == region_end(entries@[j])
                    &&& a.spec_total_pages() == (region_end(entries@[j]) - MEMORY_START) / PAGE_SIZE as int
                    &&& ({
                        let map = without_bitmap(entries@, j, a.spec_total_pages() as int);
                        &&& forall|p: int|
                            0 <= p < a.spec_total_pages() ==> (!#[trigger] a.pages()[p] <==> page_in_available(
                                map,
                                map.len() as int,
                                a.start(),
                                a.end(),
                                p,
                            ))
                        &&& regions_disjoint(map, a.start(), a.end()) ==> a.lists() == init_lists(
                            map,
                            a.start(),
                            a.end(),
                        )
                    })
                }
            } else {
                final(pma).spec_value() == old(pma).spec_value()
            }
        }),
{
    if pma.get().is_some() {
        return;
    }
    let mut best: Option<MultibootMmapEntry> = None;
    let mut best_idx: usize = 0;
    let mut i: usize = 0;
    while i < entries.len()
        invariant
            i <= entries@.len(),
            ({
                let j = largest_available(entries@.subrange(0, i as int));
                &&& j < 0 ==> best is None
                &&& j >= 0 ==> best == Some(entries@[j]) && best_idx == j
            }),
        decreases entries@.len() - i,
    {
        let e = entries[i];
        proof {
            assert(entries@.subrange(0, i + 1).drop_last() =~= entries@.subrange(0, i as int));
            lemma_largest_available(entries@.subrange(0, i as int));
        }
        if e.is_available() {
            match best {
                Some(b) => {
                    if e.len >= b.len {
                        best = Some(e);
                        best_idx = i;
                    }
                },
                None => {
                    best = Some(e);
                    best_idx = i;
                },
            }
        }
        i = i + 1;
    }
    assert(entries@.subrange(0, entries@.len() as int) =~= entries@);
    let largest = match best {
        Some(b) => b,
        None => {
            return;
        },
    };
    let end = if largest.len > u64::MAX - largest.addr || largest.addr + largest.len
        > usize::MAX as u64 {
        usize::MAX
    } else {
        (largest.addr + largest.len) as usize
    };
    if end < MEMORY_START {
        return;
    }
    let total_pages = (end - MEMORY_START) / PAGE_SIZE;
    let bitmap_words = ((total_pages + 7) / 8 + 3) / 4;
    proof {
        let t = total_pages as int;
        let a = (t + 7) / 8;
        lemma_fundamental_div_mod(t + 7, 8);
        lemma_fundamental_div_mod(a + 3, 4);
        assert(bitmap_words * BITS >= t) by (nonlinear_arith)
            requires
                t + 7 == 8 * a + (t + 7) % 8,
                0 <= (t + 7) % 8 < 8,
                a + 3 == 4 * bitmap_words + (a + 3) % 4,
                0 <= (a + 3) % 4 < 4,
                BITS == 32,
        ;
    }
    // carve the bitmap storage from the front of the longest region
    let ghost j = best_idx as int;
    let largest_end = if largest.len > u64::MAX - largest.addr {
        u64::MAX
    } else {
        largest.addr + largest.len
    };
    let bytes = 4 * bitmap_words as u64;
    let mut cut_fits = false;
    let mut cut: u64 = 0;
    if bytes <= u64::MAX - largest.addr {
        let c = largest.addr + bytes;
        if c % 4096 == 0 {
            cut = c;
            cut_fits = true;
        } else if c <= u64::MAX - 4096 {
            cut = c - c % 4096 + 4096;
            cut_fits = true;
        }
    }
    let rest = if cut_fits && cut < largest_end {
        MultibootMmapEntry {
            size: largest.size,
            addr: cut,
            len: largest_end - cut,
            entry_type: largest.entry_type,
        }
    } else {
        MultibootMmapEntry { size: largest.size, addr: largest.addr, len: 0, entry_type: largest.entry_type }
    };
    proof {
        lemma_largest_available(entries@);
        assert(rest == carve_front(entries@[j], bitmap_end(entries@[j], total_pages as int)));
    }
    let mut map: Vec<MultibootMmapEntry> = Vec::new();
    let mut k: usize = 0;
    while k < entries.len()
        invariant
            k <= entries@.len(),
            map@ == entries@.subrange(0, k as int),
        decreases entries@.len() - k,
    {
        map.push(entries[k]);
        k = k + 1;
    }
    assert(map@ =~= entries@);
    map.set(best_idx, rest);
    assert(map@ == without_bitmap(entries@, j, total_pages as int));
    let bitmap_region: Vec<u32> = vec![0u32; bitmap_words];
    let mut allocator = BuddyAllocator::new(PhysAddr(MEMORY_START), PhysAddr(end), bitmap_region);
    allocator.initialize(map.as_slice());
    pma.initialize(allocator);
}

/// Allocates a block for `count` pages from the kernel-wide allocator. The
/// count is rounded up to a power of two: the block has `2^o` pages for the
/// order `o` given by `count_order`, and must be freed with a count that
/// rounds to the same order.
pub fn allocate_pages(pma: &mut OnceLock<BuddyAllocator>, count: usize) -> (r: Result<PhysAddr, AllocError>)
    requires
        handle_ok(old(pma)),
    ensures
        handle_ok(final(pma)),
        count == 0 || count > MAX_BLOCK_PAGES ==> r == Err::<PhysAddr, AllocError>(AllocError::InvalidSize)
            && final(pma).spec_value() == old(pma).spec_value(),
        1 <= count <= MAX_BLOCK_PAGES && old(pma).spec_value() is None ==> r == Err::<PhysAddr, AllocError>(AllocError::NotInitialized)
            && final(pma).spec_value() == old(pma).spec_value(),
        1 <= count <= MAX_BLOCK_PAGES && old(pma).spec_value() is Some ==> final(pma).spec_value() is Some
            && old(pma).spec_value()->Some_0.allocate_result(
            count_order(count as nat),
            final(pma).spec_value()->Some_0,
            r,
        ) && final(pma).spec_value()->Some_0.same_bounds(&old(pma).spec_value()->Some_0),
        r matches Ok(p) ==> old(pma).spec_value() matches Some(a) && aligned(p.0 as int, count_order(count as nat))
            && a.in_bounds(p.0 as int, count_order(count as nat)),
{
    let order = match pages_to_order(count) {
        Some(o) => o,
        None => {
            return Err(AllocError::InvalidSize);
        },
    };
    match pma.get_mut() {
        Some(allocator) => allocator.allocate(order),
        None => Err(AllocError::NotInitialized),
    }
}

/// Frees a block that `allocate_pages(count)` returned, with the same
/// count; the caller owns the block, so its pages are allocated. A zero
/// count or one beyond the largest block is dropped, as is any request
/// before the allocator is set up.
pub fn free_pages(pma: &mut OnceLock<BuddyAllocator>, addr: PhysAddr, count: usize)
    requires
        handle_ok(old(pma)),
        1 <= count <= MAX_BLOCK_PAGES ==> (old(pma).spec_value() matches Some(a) ==> (a.free_accepts(
            addr.0 as int,
            count_order(count as nat),
        ) ==> block_allocated(a.start(), addr.0 as int, count_order(count as nat), a.pages()))),
    ensures
        handle_ok(final(pma)),
        (count == 0 || count > MAX_BLOCK_PAGES || old(pma).spec_value() is None) ==> final(pma).spec_value()
            == old(pma).spec_value(),
        1 <= count <= MAX_BLOCK_PAGES && old(pma).spec_value() is Some ==> final(pma).spec_value() is Some
            && old(pma).spec_value()->Some_0.free_result(
            addr.0 as int,
            count_order(count as nat),
            final(pma).spec_value()->Some_0,
        ) && final(pma).spec_value()->Some_0.same_bounds(&old(pma).spec_value()->Some_0),
{
    let order = match pages_to_order(count) {
        Some(o) => o,
        None => {
            return;
        },
    };
    match pma.get_mut() {
        Some(allocator) => allocator.free(addr, order),
        None => {},
    }
}

/// Page counts of the kernel-wide allocator as `(total, allocated, free)`;
/// `None` before it is set up.
pub fn memory_stats(pma: &OnceLock<BuddyAllocator>) -> (r: Option<(usize, usize, usize)>)
    requires
        handle_ok(pma),
    ensures
        pma.spec_value() is None ==> r is None,
        pma.spec_value() matches Some(a) ==> r == Some(
            (
                a.spec_total_pages() as usize,
                a.spec_allocated_pages() as usize,
                (a.spec_total_pages() - a.spec_allocated_pages()) as usize,
            ),
        ),
        r matches Some(t) ==> t.1 + t.2 == t.0,
{
    match pma.get() {
        Some(allocator) => Some(
            (allocator.total_pages(), allocator.allocated_pages(), allocator.free_pages()),
        ),
        None => None,
    }
}

/// Where a block is aligned for the next order up, its index at its own
/// order is even, and the index of the block after it is odd.
pub proof fn lemma_even_index(a: int, o: nat)
    requires
        a >= 0,
        aligned(a, o + 1),
    ensures
        (a / order_size(o) as int) % 2 == 0,
        ((a + order_size(o)) / order_size(o) as int) % 2 == 1,
{
    lemma_pow2_pos(o);
    lemma_pow2_unfold(o + 1);
    let s = order_size(o) as int;
    lemma_fundamental_div_mod(a, 2 * s);
    let q = a / (2 * s);
    assert(a == s * (2 * q)) by (nonlinear_arith)
        requires
            a == (2 * s) * q + a % (2 * s),
            a % (2 * s) == 0,
    ;
    assert(a + s == s * (2 * q + 1)) by (nonlinear_arith)
        requires
            a == s * (2 * q),
    ;
    lemma_div_multiples_vanish(2 * q, s);
    lemma_div_multiples_vanish(2 * q + 1, s);
}

/// Coalescing from order `o` only touches the lists of order `o` and up.
pub proof fn lemma_coalesce_keeps_lower(start: int, end: int, lists: Seq<Seq<usize>>, a: int, o: nat, k: int)
    requires
        0 <= k < o,
        o < lists.len(),
        lists.len() == NUM_ORDERS,
    ensures
        coalesce(start, end, lists, a, o).0[k] == lists[k],
        coalesce(start, end, lists, a, o).0.len() == lists.len(),
    decreases MAX_ORDER - o,
{
    if o < MAX_ORDER && buddy_listed(start, end, lists, a, o) {
        let b = buddy_of(a, o);
        lemma_coalesce_keeps_lower(
            start,
            end,
            lists.update(o as int, remove_last_occ(lists[o as int], b as usize)),
            if a < b {
                a
            } else {
                b
            },
            o + 1,
            k,
        );
    }
}

/// Freeing the two halves of one split order-`o + 1` block, in either
/// order, ends exactly as freeing the whole block at order `o + 1`: the two
/// order-`o` blocks are never both listed.
pub proof fn lemma_coalesce_pair(start: int, end: int, lists: Seq<Seq<usize>>, a: int, o: nat)
    requires
        o < MAX_ORDER,
        lists.len() == NUM_ORDERS,
        a >= 0,
        aligned(a, o + 1),
        block_in(start, end, a, o + 1),
        end <= usize::MAX,
        !lists[o as int].contains(a as usize),
        !lists[o as int].contains((a + order_size(o)) as usize),
    ensures
        ({
            let b = a + order_size(o);
            let whole = coalesce(start, end, lists, a, o + 1);
            &&& coalesce(start, end, coalesce(start, end, lists, a, o).0, b, o) == whole
            &&& coalesce(start, end, coalesce(start, end, lists, b, o).0, a, o) == whole
            &&& whole.0[o as int] == lists[o as int]
        }),
{
    let s = order_size(o) as int;
    let b = a + s;
    lemma_pow2_pos(o);
    lemma_order_size(o);
    lemma_even_index(a, o);
    lemma_aligned_down(a, o, o + 1);
    lemma_aligned_next(a, o);
    assert(buddy_of(a, o) == b);
    assert(buddy_of(b, o) == a);
    assert(block_in(start, end, b, o));
    assert(block_in(start, end, a, o));
    // a first: its buddy b is not listed, so a is pushed; then b meets a
    let l1 = lists.update(o as int, lists[o as int].push(a as usize));
    assert(coalesce(start, end, lists, a, o) == (l1, a, o));
    assert(l1[o as int].contains(a as usize)) by {
        assert(l1[o as int][lists[o as int].len() as int] == a as usize);
    }
    assert(remove_last_occ(l1[o as int], a as usize) =~= lists[o as int]);
    assert(l1.update(o as int, lists[o as int]) =~= lists);
    // b first: symmetric
    let l2 = lists.update(o as int, lists[o as int].push(b as usize));
    assert(coalesce(start, end, lists, b, o) == (l2, b, o));
    assert(l2[o as int].contains(b as usize)) by {
        assert(l2[o as int][lists[o as int].len() as int] == b as usize);
    }
    assert(remove_last_occ(l2[o as int], b as usize) =~= lists[o as int]);
    assert(l2.update(o as int, lists[o as int]) =~= lists);
    lemma_coalesce_keeps_lower(start, end, lists, a, o + 1, o as int);
}

/// Once `allocate(0)` has failed for want of memory, no page is free, and
/// a further `allocate(0)` fails the same way and changes nothing.
pub proof fn lemma_exhaustion_stable(
    s: BuddyAllocator,
    mid: BuddyAllocator,
    fin: BuddyAllocator,
    r: Result<PhysAddr, AllocError>,
)
    requires
        s.wf(),
        s.allocate_result(0, mid, Err(AllocError::OutOfMemory)),
        mid.allocate_result(0, fin, r),
    ensures
        r == Err::<PhysAddr, AllocError>(AllocError::OutOfMemory),
        fin == mid,
        mid == s,
        s.spec_allocated_pages() == s.spec_total_pages(),
{
    let l = s.lists();
    s.lemma_agreement();
    s.lemma_conservation();
    s.bitmap.lemma_wf();
    lemma_first_nonempty(l, 0);
    assert forall|i: int| 0 <= i < s.pages().len() implies s.pages()[i] by {
        if !s.pages()[i] {
            assert(covered(s.start(), l, i));
            let (q, j) = choose|q: int, j: int|
                0 <= q < NUM_ORDERS && 0 <= j < l[q].len() && page_index(s.start(), #[trigger] l[q][j] as int)
                    <= i < page_index(s.start(), l[q][j] as int) + pages_of(q as nat);
            assert(l[q].len() == 0);
        }
    }
    crate::memory::bitmap::lemma_count_set_all(s.pages());
}

proof fn lemma_split_coalesce(start: int, end: int, lists: Seq<Seq<usize>>, a: int, k: nat, big: nat)
    requires
        lists.len() == NUM_ORDERS,
        k <= big <= MAX_ORDER,
        lists[big as int].len() > 0,
        a == lists[big as int].last(),
        aligned(a, big),
        block_in(start, end, a, big),
        end <= usize::MAX,
        !(big < MAX_ORDER && buddy_listed(
            start,
            end,
            lists.update(big as int, lists[big as int].drop_last()),
            a,
            big,
        )),
    ensures
        coalesce(start, end, split_lists(lists, k, big, a), a, k) == (lists, a, big),
    decreases big - k,
{
    let lk = split_lists(lists, k, big, a);
    if k == big {
        assert(lk =~= lists.update(big as int, lists[big as int].drop_last()));
        assert(lk[big as int].push(a as usize) =~= lists[big as int]);
        assert(lk.update(big as int, lk[big as int].push(a as usize)) =~= lists);
    } else {
        lemma_order_size(k);
        lemma_pow2_unfold(k + 1);
        if k + 1 < big {
            lemma_pow2_strictly_increases(k + 1, big);
        }
        lemma_aligned_down(a, k + 1, big);
        lemma_even_index(a, k);
        let b = a + order_size(k);
        assert(buddy_of(a, k) == b);
        assert(block_in(start, end, b, k));
        assert(lk[k as int] == lists[k as int].push(b as usize));
        assert(lk[k as int].contains(b as usize)) by {
            assert(lk[k as int][lists[k as int].len() as int] == b as usize);
        }
        assert(remove_last_occ(lk[k as int], b as usize) =~= lists[k as int]);
        assert(lk.update(k as int, lists[k as int]) =~= split_lists(lists, k + 1, big, a));
        lemma_split_coalesce(start, end, lists, a, k + 1, big);
    }
}

/// `allocate(order)` followed by `free` of the returned block at the same
/// order restores the free lists exactly, provided the block taken for the
/// request has no free buddy at its own order (or is of the largest order);
/// the bitmap then differs from the start only in that the taken block's
/// pages are marked free, so it is restored as well where they were.
pub proof fn lemma_round_trip_lists(
    s: BuddyAllocator,
    order: nat,
    mid: BuddyAllocator,
    p: PhysAddr,
    fin: BuddyAllocator,
)
    requires
        s.wf(),
        mid.wf(),
        mid.start() == s.start(),
        mid.end() == s.end(),
        mid.is_initialized() == s.is_initialized(),
        s.allocate_result(order, mid, Ok(p)),
        mid.free_result(p.0 as int, order, fin),
        ({
            let big = first_nonempty(s.lists(), order);
            !(big < MAX_ORDER && buddy_listed(
                s.start(),
                s.end(),
                s.lists().update(big as int, s.lists()[big as int].drop_last()),
                p.0 as int,
                big,
            ))
        }),
    ensures
        fin.lists() == s.lists(),
        ({
            let big = first_nonempty(s.lists(), order);
            let first = page_index(s.start(), p.0 as int);
            &&& fin.pages() == mark(s.pages(), first, pages_of(big) as int, false)
            &&& (forall|i: int| first <= i < first + pages_of(big) && 0 <= i < s.pages().len() ==> !s.pages()[i])
                ==> fin.pages() == s.pages()
        }),
{
    let l = s.lists();
    lemma_first_nonempty(l, order);
    let big = first_nonempty(l, order);
    let a = p.0 as int;
    assert(s.is_initialized() && order <= MAX_ORDER && big <= MAX_ORDER);
    assert(a == l[big as int].last());
    assert(aligned(a, big) && s.in_bounds(a, big)) by {
        assert(l[big as int][l[big as int].len() - 1] == l[big as int].last());
    }
    lemma_order_size(order);
    if order < big {
        lemma_pow2_strictly_increases(order, big);
    }
    lemma_aligned_down(a, order, big);
    assert(mid.free_accepts(a, order));
    lemma_split_coalesce(s.start(), s.end(), l, a, order, big);
    let first = page_index(s.start(), a);
    lemma_pow2_pos(order);
    assert(fin.pages() =~= mark(s.pages(), first, pages_of(big) as int, false));
    if forall|i: int| first <= i < first + pages_of(big) && 0 <= i < s.pages().len() ==> !s.pages()[i] {
        assert(fin.pages() =~= s.pages());
    }
}

/// Every page of the order-`o` block at `a` that lies in `pages` is free
/// there.
pub open spec fn block_free(start: int, a: int, o: nat, pages: Seq<bool>) -> bool {
    forall|p: int|
        page_index(start, a) <= p < page_index(start, a) + pages_of(o) && 0 <= p < pages.len()
            ==> !#[trigger] pages[p]
}

/// Every page of the order-`o` block at `a` that lies in `pages` is
/// allocated there.
pub open spec fn block_allocated(start: int, a: int, o: nat, pages: Seq<bool>) -> bool {
    forall|p: int|
        page_index(start, a) <= p < page_index(start, a) + pages_of(o) && 0 <= p < pages.len()
            ==> #[trigger] pages[p]
}

/// Page `p` is a page of a block on `lists`.
pub open spec fn covered(start: int, lists: Seq<Seq<usize>>, p: int) -> bool {
    exists|q: int, j: int|
        0 <= q < NUM_ORDERS && 0 <= j < lists[q].len() && page_index(start, #[trigger] lists[q][j] as int)
            <= p < page_index(start, lists[q][j] as int) + pages_of(q as nat)
}

/// Every free page of `pages` outside `[lo, lo + n)` is a page of a block
/// on `lists`.
pub open spec fn free_covered(start: int, lists: Seq<Seq<usize>>, pages: Seq<bool>, lo: int, n: int) -> bool {
    forall|p: int|
        0 <= p < pages.len() && !#[trigger] pages[p] && !(lo <= p < lo + n) ==> covered(start, lists, p)
}

/// The pages of the order-`o1` block at `a1` and of the order-`o2` block
/// at `a2` do not overlap.
pub open spec fn pages_disjoint(start: int, a1: int, o1: nat, a2: int, o2: nat) -> bool {
    page_index(start, a1) + pages_of(o1) <= page_index(start, a2) || page_index(start, a2)
        + pages_of(o2) <= page_index(start, a1)
}

/// The order-`o` block at `a` shares no page with a block on `lists`.
pub open spec fn fresh(start: int, lists: Seq<Seq<usize>>, a: int, o: nat) -> bool {
    forall|q: int, j: int|
        0 <= q < NUM_ORDERS && 0 <= j < lists[q].len() ==> pages_disjoint(
            start,
            a,
            o,
            #[trigger] lists[q][j] as int,
            q as nat,
        )
}

/// No two entries of `lists` share a page.
pub open spec fn lists_disjoint(start: int, lists: Seq<Seq<usize>>) -> bool {
    forall|q1: int, j1: int, q2: int, j2: int|
        0 <= q1 < NUM_ORDERS && 0 <= j1 < lists[q1].len() && 0 <= q2 < NUM_ORDERS && 0 <= j2
            < lists[q2].len() && (q1 != q2 || j1 != j2) ==> pages_disjoint(
            start,
            #[trigger] lists[q1][j1] as int,
            q1 as nat,
            #[trigger] lists[q2][j2] as int,
            q2 as nat,
        )
}

/// Pushing a block keeps every covered page covered and covers the block's
/// pages.
pub proof fn lemma_covered_push(start: int, lists: Seq<Seq<usize>>, o: int, x: usize, p: int)
    requires
        0 <= o < NUM_ORDERS,
        lists.len() == NUM_ORDERS,
        covered(start, lists, p) || page_index(start, x as int) <= p < page_index(start, x as int)
            + pages_of(o as nat),
    ensures
        covered(start, lists.update(o, lists[o].push(x)), p),
{
    let l2 = lists.update(o, lists[o].push(x));
    if page_index(start, x as int) <= p < page_index(start, x as int) + pages_of(o as nat) {
        let j = lists[o].len() as int;
        assert(l2[o][j] == x);
        assert(page_index(start, l2[o][j] as int) <= p < page_index(start, l2[o][j] as int) + pages_of(
            o as nat,
        ));
    } else {
        let (q, j) = choose|q: int, j: int|
            0 <= q < NUM_ORDERS && 0 <= j < lists[q].len() && page_index(start, #[trigger] lists[q][j] as int)
                <= p < page_index(start, lists[q][j] as int) + pages_of(q as nat);
        assert(l2[q][j] == lists[q][j]);
        assert(page_index(start, l2[q][j] as int) <= p < page_index(start, l2[q][j] as int) + pages_of(
            q as nat,
        ));
    }
}

/// Taking entry `i` out of list `o` keeps covered every covered page that
/// is not a page of that entry.
pub proof fn lemma_covered_remove(start: int, lists: Seq<Seq<usize>>, o: int, i: int, p: int)
    requires
        0 <= o < NUM_ORDERS,
        lists.len() == NUM_ORDERS,
        0 <= i < lists[o].len(),
        covered(start, lists, p),
        !(page_index(start, lists[o][i] as int) <= p < page_index(start, lists[o][i] as int) + pages_of(
            o as nat,
        )),
    ensures
        covered(start, lists.update(o, lists[o].remove(i)), p),
{
    let l2 = lists.update(o, lists[o].remove(i));
    let (q, j) = choose|q: int, j: int|
        0 <= q < NUM_ORDERS && 0 <= j < lists[q].len() && page_index(start, #[trigger] lists[q][j] as int)
            <= p < page_index(start, lists[q][j] as int) + pages_of(q as nat);
    let jj = if q == o && j > i {
        j - 1
    } else {
        j
    };
    assert(q != o || j != i);
    assert(l2[q][jj] == lists[q][j]);
    assert(page_index(start, l2[q][jj] as int) <= p < page_index(start, l2[q][jj] as int) + pages_of(
        q as nat,
    ));
}

/// The bitmap `pages` agrees with the free lists: every page of every
/// listed block is free.
pub open spec fn lists_free_in(start: int, lists: Seq<Seq<usize>>, pages: Seq<bool>) -> bool {
    forall|o: int, k: int|
        0 <= o < NUM_ORDERS && 0 <= k < lists[o].len() ==> block_free(
            start,
            #[trigger] lists[o][k] as int,
            o as nat,
            pages,
        )
}

pub proof fn lemma_remove_last_occ_subset(s: Seq<usize>, v: usize)
    ensures
        remove_last_occ(s, v).len() <= s.len(),
        forall|i: int|
            0 <= i < remove_last_occ(s, v).len() ==> s.contains(#[trigger] remove_last_occ(s, v)[i]),
    decreases s.len(),
{
    if s.len() > 0 && s.last() != v {
        let r = remove_last_occ(s.drop_last(), v);
        lemma_remove_last_occ_subset(s.drop_last(), v);
        assert forall|i: int| 0 <= i < r.push(s.last()).len() implies s.contains(
            #[trigger] r.push(s.last())[i],
        ) by {
            if i < r.len() {
                let x = r[i];
                assert(s.drop_last().contains(x));
                let j = choose|j: int| 0 <= j < s.drop_last().len() && s.drop_last()[j] == x;
                assert(s[j] == x);
            } else {
                assert(s[s.len() - 1] == s.last());
            }
        }
    } else if s.len() > 0 {
        assert forall|i: int| 0 <= i < s.drop_last().len() implies s.contains(#[trigger] s.drop_last()[i]) by {
            assert(s[i] == s.drop_last()[i]);
        }
    }
}

/// Coalescing a free block into lists whose blocks are all free in `pages`
/// ends with a block that contains the first one and is free too.
pub proof fn lemma_coalesce_free(
    start: int,
    end: int,
    lists: Seq<Seq<usize>>,
    a: int,
    o: nat,
    pages: Seq<bool>,
)
    requires
        lists.len() == NUM_ORDERS,
        o <= MAX_ORDER,
        a >= 0,
        aligned(a, o),
        block_in(start, end, a, o),
        end <= usize::MAX,
        lists_free_in(start, lists, pages),
        block_free(start, a, o, pages),
    ensures
        ({
            let c = coalesce(start, end, lists, a, o);
            &&& block_free(start, c.1, c.2, pages)
            &&& c.2 <= MAX_ORDER
            &&& page_index(start, c.1) <= page_index(start, a)
            &&& page_index(start, a) + pages_of(o) <= page_index(start, c.1) + pages_of(c.2)
        }),
    decreases MAX_ORDER - o,
{
    if o < MAX_ORDER && buddy_listed(start, end, lists, a, o) {
        let b = buddy_of(a, o);
        lemma_merge(a, o);
        lemma_order_size(o);
        lemma_pow2_unfold(o + 1);
        let m = if a < b {
            a
        } else {
            b
        };
        let k = choose|k: int| 0 <= k < lists[o as int].len() && lists[o as int][k] == b as usize;
        assert(block_free(start, lists[o as int][k] as int, o, pages));
        lemma_page_index_add(start, m, o);
        lemma_page_index_add(start, m, o + 1);
        assert(block_free(start, m, o + 1, pages)) by {
            assert forall|p: int|
                page_index(start, m) <= p < page_index(start, m) + pages_of(o + 1) && 0 <= p
                    < pages.len() implies !#[trigger] pages[p] by {
                if p < page_index(start, m) + pages_of(o) {
                    if m == a {
                    } else {
                        assert(block_free(start, b, o, pages));
                    }
                } else {
                    if m == a {
                        assert(block_free(start, b, o, pages));
                    }
                }
            }
        }
        let rest = remove_last_occ(lists[o as int], b as usize);
        let l2 = lists.update(o as int, rest);
        lemma_remove_last_occ_subset(lists[o as int], b as usize);
        assert forall|q: int, j: int| 0 <= q < NUM_ORDERS && 0 <= j < l2[q].len() implies block_free(
            start,
            #[trigger] l2[q][j] as int,
            q as nat,
            pages,
        ) by {
            if q == o {
                let x = rest[j];
                assert(lists[o as int].contains(x));
                let i = choose|i: int| 0 <= i < lists[o as int].len() && lists[o as int][i] == x;
                assert(block_free(start, lists[o as int][i] as int, o, pages));
            } else {
                assert(l2[q][j] == lists[q][j]);
            }
        }
        assert(block_in(start, end, m, o + 1));
        lemma_coalesce_free(start, end, l2, m, o + 1, pages);
    }
}

/// `allocate(order)` followed by `free` of the returned block at the same
/// order leaves the bitmap, and so the page counts, as they were.
pub proof fn lemma_round_trip_stats(
    s: BuddyAllocator,
    order: nat,
    mid: BuddyAllocator,
    p: PhysAddr,
    fin: BuddyAllocator,
)
    requires
        s.wf(),
        mid.wf(),
        fin.wf(),
        mid.start() == s.start(),
        mid.end() == s.end(),
        mid.is_initialized() == s.is_initialized(),
        fin.spec_total_pages() == s.spec_total_pages(),
        s.allocate_result(order, mid, Ok(p)),
        mid.free_result(p.0 as int, order, fin),
    ensures
        fin.pages() == s.pages(),
        fin.spec_allocated_pages() == s.spec_allocated_pages(),
        fin.spec_total_pages() == s.spec_total_pages(),
{
    let l = s.lists();
    let pg = s.pages();
    let st = s.start();
    s.lemma_agreement();
    lemma_first_nonempty(l, order);
    let big = first_nonempty(l, order);
    let a = p.0 as int;
    assert(s.is_initialized() && order <= MAX_ORDER && big <= MAX_ORDER);
    assert(l[big as int][l[big as int].len() - 1] == l[big as int].last());
    assert(aligned(a, big) && s.in_bounds(a, big));
    assert(block_free(st, a, big, pg));
    lemma_order_size(order);
    if order < big {
        lemma_pow2_strictly_increases(order, big);
    }
    lemma_aligned_down(a, order, big);
    assert(mid.free_accepts(a, order));
    let ml = split_lists(l, order, big, a);
    assert forall|q: int, j: int| 0 <= q < NUM_ORDERS && 0 <= j < ml[q].len() implies block_free(
        st,
        #[trigger] ml[q][j] as int,
        q as nat,
        pg,
    ) by {
        if order <= q < big && j == l[q].len() {
            let h = a + order_size(q as nat);
            lemma_page_index_add(st, a, q as nat);
            lemma_pow2_unfold((q + 1) as nat);
            if q + 1 < big {
                lemma_pow2_strictly_increases((q + 1) as nat, big);
            }
            assert forall|x: int|
                page_index(st, h) <= x < page_index(st, h) + pages_of(q as nat) && 0 <= x < pg.len()
                    implies !#[trigger] pg[x] by {
                assert(page_index(st, a) <= x < page_index(st, a) + pages_of(big));
            }
        } else if q == big {
            assert(ml[q][j] == l[q][j]);
        } else {
            assert(ml[q][j] == l[q][j]);
        }
    }
    if order < big {
        lemma_pow2_strictly_increases(order, big);
    }
    assert(block_free(st, a, order, pg));
    lemma_coalesce_free(st, s.end(), ml, a, order, pg);
    let c = coalesce(st, s.end(), ml, a, order);
    let first = page_index(st, a);
    assert(fin.pages() =~= pg) by {
        assert forall|i: int| 0 <= i < pg.len() implies fin.pages()[i] == pg[i] by {
            if page_index(st, c.1) <= i < page_index(st, c.1) + pages_of(c.2) {
            } else if first <= i < first + pages_of(big) {
            }
        }
    }
    s.lemma_conservation();
    fin.lemma_conservation();
}

/// Freeing the two halves of one order-`o + 1` block with `free`, in either
/// order, leaves the same lists as freeing the whole block at order `o + 1`,
/// with neither half on the list of order `o`.
pub proof fn lemma_free_pair(
    s: BuddyAllocator,
    a: usize,
    o: nat,
    first_low: bool,
    mid: BuddyAllocator,
    fin: BuddyAllocator,
)
    requires
        s.wf(),
        s.is_initialized(),
        o < MAX_ORDER,
        aligned(a as int, o + 1),
        s.in_bounds(a as int, o + 1),
        !s.lists()[o as int].contains(a),
        !s.lists()[o as int].contains((a + order_size(o)) as usize),
        mid.same_bounds(&s),
        s.free_result(if first_low {
            a as int
        } else {
            a + order_size(o)
        }, o, mid),
        mid.free_result(if first_low {
            a + order_size(o)
        } else {
            a as int
        }, o, fin),
    ensures
        fin.lists() == coalesce(s.start(), s.end(), s.lists(), a as int, o + 1).0,
        fin.lists()[o as int] == s.lists()[o as int],
{
    s.lemma_shape();
    lemma_order_size(o);
    lemma_order_size(o + 1);
    lemma_aligned_down(a as int, o, o + 1);
    lemma_aligned_next(a as int, o);
    assert(s.end() <= usize::MAX);
    lemma_coalesce_pair(s.start(), s.end(), s.lists(), a as int, o);
}

/// Marking `n` pages whose state differs from `v` changes the count of
/// allocated pages by `n`.
pub proof fn lemma_count_mark(pages: Seq<bool>, first: int, n: int, v: bool)
    requires
        0 <= first,
        0 <= n,
        first + n <= pages.len(),
        forall|i: int| first <= i < first + n ==> pages[i] != v,
    ensures
        count_set(mark(pages, first, n, v)) == count_set(pages) + if v {
            n
        } else {
            -n
        },
    decreases n,
{
    if n == 0 {
        assert(mark(pages, first, 0, v) =~= pages);
    } else {
        lemma_count_mark(pages, first, n - 1, v);
        let m = mark(pages, first, n - 1, v);
        assert(mark(pages, first, n, v) =~= m.update(first + n - 1, v));
        crate::memory::bitmap::lemma_count_set_update(m, first + n - 1, v);
    }
}

/// A successful `allocate(order)` marks exactly `2^order` more pages
/// allocated.
pub proof fn lemma_allocate_count(s: BuddyAllocator, order: nat, after: BuddyAllocator, p: PhysAddr)
    requires
        s.wf(),
        after.wf(),
        s.allocate_result(order, after, Ok(p)),
    ensures
        after.spec_allocated_pages() == s.spec_allocated_pages() + pages_of(order),
{
    let l = s.lists();
    let pg = s.pages();
    let st = s.start();
    s.lemma_shape();
    s.lemma_agreement();
    lemma_first_nonempty(l, order);
    let big = first_nonempty(l, order);
    let a = p.0 as int;
    assert(l[big as int][l[big as int].len() - 1] == l[big as int].last());
    assert(block_free(st, a, big, pg));
    assert(aligned(a, big) && s.in_bounds(a, big));
    s.lemma_block_pages(a, big);
    if order < big {
        lemma_pow2_strictly_increases(order, big);
    }
    let first = page_index(st, a);
    let m1 = mark(pg, first + pages_of(order), pages_of(big) - pages_of(order), false);
    assert(m1 =~= pg);
    lemma_count_mark(pg, first, pages_of(order) as int, true);
    s.lemma_conservation();
    after.lemma_conservation();
}

/// Coalescing the block at `a` into lists whose blocks are all free in
/// `pages` ends with a block that contains it and whose other pages are all
/// free.
pub proof fn lemma_coalesce_adds_free(
    start: int,
    end: int,
    lists: Seq<Seq<usize>>,
    a: int,
    o: nat,
    pages: Seq<bool>,
)
    requires
        lists.len() == NUM_ORDERS,
        o <= MAX_ORDER,
        a >= 0,
        aligned(a, o),
        block_in(start, end, a, o),
        end <= usize::MAX,
        lists_free_in(start, lists, pages),
    ensures
        ({
            let c = coalesce(start, end, lists, a, o);
            let f = page_index(start, a);
            &&& c.2 <= MAX_ORDER
            &&& page_index(start, c.1) <= f
            &&& f + pages_of(o) <= page_index(start, c.1) + pages_of(c.2)
            &&& forall|p: int|
                page_index(start, c.1) <= p < page_index(start, c.1) + pages_of(c.2) && !(f <= p < f
                    + pages_of(o)) && 0 <= p < pages.len() ==> !#[trigger] pages[p]
        }),
    decreases MAX_ORDER - o,
{
    if o < MAX_ORDER && buddy_listed(start, end, lists, a, o) {
        let b = buddy_of(a, o);
        lemma_merge(a, o);
        lemma_order_size(o);
        lemma_pow2_unfold(o + 1);
        let m = if a < b {
            a
        } else {
            b
        };
        let k = choose|k: int| 0 <= k < lists[o as int].len() && lists[o as int][k] == b as usize;
        assert(block_free(start, lists[o as int][k] as int, o, pages));
        lemma_page_index_add(start, m, o);
        let rest = remove_last_occ(lists[o as int], b as usize);
        let l2 = lists.update(o as int, rest);
        lemma_remove_last_occ_subset(lists[o as int], b as usize);
        assert forall|q: int, j: int| 0 <= q < NUM_ORDERS && 0 <= j < l2[q].len() implies block_free(
            start,
            #[trigger] l2[q][j] as int,
            q as nat,
            pages,
        ) by {
            if q == o {
                let x = rest[j];
                assert(lists[o as int].contains(x));
                let i = choose|i: int| 0 <= i < lists[o as int].len() && lists[o as int][i] == x;
                assert(block_free(start, lists[o as int][i] as int, o, pages));
            } else {
                assert(l2[q][j] == lists[q][j]);
            }
        }
        assert(block_in(start, end, m, o + 1));
        lemma_coalesce_adds_free(start, end, l2, m, o + 1, pages);
        let c = coalesce(start, end, l2, m, o + 1);
        let f = page_index(start, a);
        assert forall|p: int|
            page_index(start, c.1) <= p < page_index(start, c.1) + pages_of(c.2) && !(f <= p < f
                + pages_of(o)) && 0 <= p < pages.len() implies !#[trigger] pages[p] by {
            if page_index(start, m) <= p < page_index(start, m) + pages_of(o + 1) {
                assert(block_free(start, b, o, pages));
            }
        }
    } else {
        lemma_pow2_pos(o);
    }
}

/// A `free` that acts marks exactly `2^order` fewer pages allocated.
pub proof fn lemma_free_count(s: BuddyAllocator, addr: int, order: nat, after: BuddyAllocator)
    requires
        s.wf(),
        after.wf(),
        s.free_accepts(addr, order),
        block_allocated(s.start(), addr, order, s.pages()),
        s.free_result(addr, order, after),
    ensures
        after.spec_allocated_pages() + pages_of(order) == s.spec_allocated_pages(),
{
    let pg = s.pages();
    let st = s.start();
    s.lemma_shape();
    s.lemma_agreement();
    s.lemma_block_pages(addr, order);
    lemma_coalesce_adds_free(st, s.end(), s.lists(), addr, order, pg);
    let c = coalesce(st, s.end(), s.lists(), addr, order);
    let f = page_index(st, addr);
    let p1 = mark(pg, f, pages_of(order) as int, false);
    lemma_count_mark(pg, f, pages_of(order) as int, false);
    assert(after.pages() =~= p1);
    s.lemma_conservation();
    after.lemma_conservation();
}

/// Calling `allocate(0)` until it fails hands out one page per free page:
/// when `n` calls succeed and the next fails for want of memory, exactly
/// `n` pages were free at the start and none is left.
pub proof fn lemma_exhaustion_count(
    states: Seq<BuddyAllocator>,
    results: Seq<Result<PhysAddr, AllocError>>,
    n: int,
)
    requires
        0 <= n,
        states.len() == n + 2,
        results.len() == n + 1,
        forall|k: int| 0 <= k < n + 2 ==> (#[trigger] states[k]).wf(),
        forall|k: int|
            0 <= k < n + 1 ==> #[trigger] states[k].allocate_result(0, states[k + 1], results[k])
                && states[k + 1].same_bounds(&states[k]),
        forall|k: int| 0 <= k < n ==> (#[trigger] results[k]) is Ok,
        results[n] == Err::<PhysAddr, AllocError>(AllocError::OutOfMemory),
    ensures
        states[0].spec_total_pages() - states[0].spec_allocated_pages() == n,
        states[n + 1].spec_allocated_pages() == states[n + 1].spec_total_pages(),
{
    lemma2_to64();
    assert forall|k: int| 0 <= k <= n implies #[trigger] states[k].spec_allocated_pages()
        == states[0].spec_allocated_pages() + k && states[k].spec_total_pages() == states[0].spec_total_pages() by {
        lemma_exhaustion_prefix(states, results, n, k);
    }
    let s = states[n];
    assert(states[n].allocate_result(0, states[n + 1], results[n]));
    lemma_exhaustion_stable(s, states[n + 1], states[n + 1], results[n]);
}

proof fn lemma_exhaustion_prefix(
    states: Seq<BuddyAllocator>,
    results: Seq<Result<PhysAddr, AllocError>>,
    n: int,
    k: int,
)
    requires
        0 <= k <= n,
        states.len() == n + 2,
        results.len() == n + 1,
        forall|j: int| 0 <= j < n + 2 ==> (#[trigger] states[j]).wf(),
        forall|j: int|
            0 <= j < n + 1 ==> #[trigger] states[j].allocate_result(0, states[j + 1], results[j])
                && states[j + 1].same_bounds(&states[j]),
        forall|j: int| 0 <= j < n ==> (#[trigger] results[j]) is Ok,
    ensures
        states[k].spec_allocated_pages() == states[0].spec_allocated_pages() + k,
        states[k].spec_total_pages() == states[0].spec_total_pages(),
    decreases k,
{
    if k > 0 {
        lemma_exhaustion_prefix(states, results, n, k - 1);
        lemma2_to64();
        let j = k - 1;
        assert(states[j].allocate_result(0, states[j + 1], results[j]));
        assert(results[j] is Ok);
        let p = results[j]->Ok_0;
        lemma_allocate_count(states[j], 0, states[j + 1], p);
    }
}

/// No free page of `pages` is in `reserved`.
pub open spec fn free_avoids(pages: Seq<bool>, reserved: spec_fn(int) -> bool) -> bool {
    forall|p: int| 0 <= p < pages.len() && !#[trigger] pages[p] ==> !reserved(p)
}

/// No page of the order-`o` block at `a` is in `reserved`.
pub open spec fn block_avoids(start: int, a: int, o: nat, reserved: spec_fn(int) -> bool) -> bool {
    forall|p: int| page_index(start, a) <= p < page_index(start, a) + pages_of(o) ==> !#[trigger] reserved(p)
}

/// `allocate` hands out only free pages: where no free page is reserved,
/// the block it returns holds no reserved page and no free page becomes
/// reserved. After `initialize`, with the pages outside every available
/// region as `reserved`, no sequence of `allocate` and `free` of returned
/// blocks ever hands out such a page.
pub proof fn lemma_allocate_avoids(
    s: BuddyAllocator,
    order: nat,
    after: BuddyAllocator,
    p: PhysAddr,
    reserved: spec_fn(int) -> bool,
)
    requires
        s.wf(),
        s.allocate_result(order, after, Ok(p)),
        free_avoids(s.pages(), reserved),
    ensures
        block_avoids(s.start(), p.0 as int, order, reserved),
        free_avoids(after.pages(), reserved),
{
    let l = s.lists();
    let pg = s.pages();
    let st = s.start();
    s.lemma_shape();
    s.lemma_agreement();
    lemma_first_nonempty(l, order);
    let big = first_nonempty(l, order);
    let a = p.0 as int;
    assert(l[big as int][l[big as int].len() - 1] == l[big as int].last());
    assert(block_free(st, a, big, pg));
    assert(aligned(a, big) && s.in_bounds(a, big));
    s.lemma_block_pages(a, big);
    if order < big {
        lemma_pow2_strictly_increases(order, big);
    }
    let first = page_index(st, a);
    assert forall|x: int| first <= x < first + pages_of(order) implies !#[trigger] reserved(x) by {
        assert(!pg[x]);
    }
    assert forall|x: int| 0 <= x < after.pages().len() && !#[trigger] after.pages()[x] implies !reserved(x) by {
        if first <= x < first + pages_of(big) {
            assert(!pg[x]);
        } else {
            assert(after.pages()[x] == pg[x]);
        }
    }
}

/// `free` of a block with no reserved page keeps every free page
/// unreserved: the block it finally lists adds only that block and pages
/// that were already free.
pub proof fn lemma_free_avoids(
    s: BuddyAllocator,
    addr: int,
    order: nat,
    after: BuddyAllocator,
    reserved: spec_fn(int) -> bool,
)
    requires
        s.wf(),
        s.free_result(addr, order, after),
        free_avoids(s.pages(), reserved),
        block_avoids(s.start(), addr, order, reserved),
    ensures
        free_avoids(after.pages(), reserved),
{
    if s.free_accepts(addr, order) {
        let pg = s.pages();
        let st = s.start();
        s.lemma_shape();
        s.lemma_agreement();
        lemma_coalesce_adds_free(st, s.end(), s.lists(), addr, order, pg);
        let c = coalesce(st, s.end(), s.lists(), addr, order);
        let f = page_index(st, addr);
        assert forall|x: int| 0 <= x < after.pages().len() && !#[trigger] after.pages()[x] implies !reserved(x) by {
            if page_index(st, c.1) <= x < page_index(st, c.1) + pages_of(c.2) {
                if !(f <= x < f + pages_of(order)) {
                    assert(!pg[x]);
                }
            } else {
                assert(after.pages()[x] == pg[x]);
            }
        }
    }
}

/// A run of calls: `ops[k]` is `(true, _, o)` for `allocate(o)` with result
/// `results[k]`, or `(false, a, o)` for `free` of the order-`o` block at
/// `a`, which an earlier `allocate(o)` of the run returned; `states[k]` is
/// the allocator before call `k`.
pub open spec fn valid_run(
    states: Seq<BuddyAllocator>,
    ops: Seq<(bool, usize, nat)>,
    results: Seq<Result<PhysAddr, AllocError>>,
) -> bool {
    &&& states.len() == ops.len() + 1
    &&& results.len() == ops.len()
    &&& forall|k: int| 0 <= k < states.len() ==> (#[trigger] states[k]).wf()
    &&& forall|k: int| 0 <= k < ops.len() ==> #[trigger] states[k + 1].same_bounds(&states[k])
    &&& forall|k: int|
        0 <= k < ops.len() && (#[trigger] ops[k]).0 ==> states[k].allocate_result(
            ops[k].2,
            states[k + 1],
            results[k],
        )
    &&& forall|k: int|
        0 <= k < ops.len() && !(#[trigger] ops[k]).0 ==> {
            &&& states[k].free_result(ops[k].1 as int, ops[k].2, states[k + 1])
            &&& exists|j: int|
                0 <= j < k && (#[trigger] ops[j]).0 && ops[j].2 == ops[k].2 && results[j] == Ok::<
                    PhysAddr,
                    AllocError,
                >(PhysAddr(ops[k].1))
        }
}

/// Over a run that starts with no reserved page free, no block that
/// `allocate` returns holds a reserved page. After `initialize`, taking the
/// pages outside every available region as reserved, no such page is ever
/// handed out.
pub proof fn lemma_never_reserved(
    states: Seq<BuddyAllocator>,
    ops: Seq<(bool, usize, nat)>,
    results: Seq<Result<PhysAddr, AllocError>>,
    reserved: spec_fn(int) -> bool,
    k: int,
)
    requires
        valid_run(states, ops, results),
        free_avoids(states[0].pages(), reserved),
        0 <= k < ops.len(),
        ops[k].0,
        results[k] is Ok,
    ensures
        block_avoids(states[0].start(), results[k]->Ok_0.0 as int, ops[k].2, reserved),
{
    lemma_avoid_prefix(states, ops, results, reserved, k + 1);
}

proof fn lemma_avoid_prefix(
    states: Seq<BuddyAllocator>,
    ops: Seq<(bool, usize, nat)>,
    results: Seq<Result<PhysAddr, AllocError>>,
    reserved: spec_fn(int) -> bool,
    k: int,
)
    requires
        valid_run(states, ops, results),
        free_avoids(states[0].pages(), reserved),
        0 <= k <= ops.len(),
    ensures
        free_avoids(states[k].pages(), reserved),
        states[k].start() == states[0].start(),
        forall|j: int|
            0 <= j < k && (#[trigger] ops[j]).0 && results[j] is Ok ==> block_avoids(
                states[0].start(),
                results[j]->Ok_0.0 as int,
                ops[j].2,
                reserved,
            ),
    decreases k,
{
    if k > 0 {
        let i = k - 1;
        lemma_avoid_prefix(states, ops, results, reserved, i);
        assert(states[i + 1].same_bounds(&states[i]));
        assert(states[i].wf());
        if ops[i].0 {
            assert(states[i].allocate_result(ops[i].2, states[i + 1], results[i]));
            if results[i] is Ok {
                lemma_allocate_avoids(states[i], ops[i].2, states[i + 1], results[i]->Ok_0, reserved);
            }
        } else {
            let j = choose|j: int|
                0 <= j < i && (#[trigger] ops[j]).0 && ops[j].2 == ops[i].2 && results[j] == Ok::<
                    PhysAddr,
                    AllocError,
                >(PhysAddr(ops[i].1));
            assert(block_avoids(states[0].start(), results[j]->Ok_0.0 as int, ops[j].2, reserved));
            lemma_free_avoids(states[i], ops[i].1 as int, ops[i].2, states[i + 1], reserved);
        }
    }
}

} // verus!
