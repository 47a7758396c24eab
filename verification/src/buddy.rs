//! The allocator proper: free lists, the split-down allocation path and
//! the coalescing-up release path.

use vstd::prelude::*;
use crate::geometry::{
    block_bytes, block_units, is_pow2, order_of, align_f, lemma_block_table, lemma_align_widen,
    lemma_mod_add_self, lemma_mod_scale, lemma_mod_transfer, lemma_mod_unscale,
    lemma_order_bounds, MAX_BLOCK_BYTES, NIL, PAGE_META_BYTES, MAX_PAGES,
};
use crate::page::Page;
use vstd::arithmetic::div_mod::lemma_fundamental_div_mod;
use vstd::arithmetic::div_mod::lemma_fundamental_div_mod_converse_mod;
use vstd::arithmetic::div_mod::lemma_mod_multiples_basic;

verus! {

/// Why an allocation request failed.
#[derive(Clone, Copy, Debug, PartialEq, Eq, Structural)]
pub enum AllocError {
    /// The request was for zero bytes or for more than `MAX_BLOCK_BYTES`.
    InvalidSize,
    /// No free block at the required order exists, nor at any larger one.
    ArenaExhausted,
}

/// The unit index of the buddy of a block starting at unit `i` at order
/// `o`: the other half of the aligned order-`o - 1` run containing `i`.
pub open spec fn buddy_of(i: int, o: int) -> int {
    if i % (2 * block_units(o)) == 0 {
        i + block_units(o)
    } else {
        i - block_units(o)
    }
}

/// The start of the aligned order-`o` block containing unit `i`.
pub open spec fn align_down(i: int, o: int) -> int {
    i - i % block_units(o)
}

/// A unit inside an aligned block is brought back to that block's
/// start by rounding down.
proof fn lemma_align_down_in(x: int, y: int, m: int)
    requires
        0 < m,
        0 <= x,
        x % m == 0,
        x <= y < x + m,
    ensures
        y % m == y - x,
{
    lemma_fundamental_div_mod(x, m);
    assert(y == (x / m) * m + (y - x)) by (nonlinear_arith)
        requires
            x == m * (x / m),
    ;
    lemma_fundamental_div_mod_converse_mod(y, m, x / m, y - x);
}

/// Whole order-0 blocks reserved for the page table in an arena of
/// `len` bytes: the table size, rounded up to a full largest block.
pub open spec fn meta_blocks_of(len: int) -> int {
    ((len / 4096) * 40 + 1048575) / 1048576
}

/// Number of whole order-0 blocks in an arena of `len` bytes.
pub open spec fn arena_blocks_of(len: int) -> int {
    len / 1048576
}

/// The order-0 free list right after construction: every whole largest
/// block beyond the reserved prefix, lowest first.
pub open spec fn initial_list0(len: int) -> Seq<usize> {
    if arena_blocks_of(len) >= meta_blocks_of(len) {
        Seq::new(
            (arena_blocks_of(len) - meta_blocks_of(len)) as nat,
            |q: int| ((meta_blocks_of(len) + q) * 256) as usize,
        )
    } else {
        Seq::empty()
    }
}

/// A multiple of `d` in the window `[n, n + d)` is `d` times the
/// rounded-up quotient of `n`.
proof fn lemma_ceil_div(n: int, d: int, r: int)
    requires
        0 < d,
        0 <= n,
        r % d == 0,
        n <= r < n + d,
    ensures
        r / d == (n + d - 1) / d,
{
    let t = r / d;
    lemma_fundamental_div_mod(r, d);
    let s = (n + d - 1) / d;
    lemma_fundamental_div_mod(n + d - 1, d);
    let rem = (n + d - 1) % d;
    vstd::arithmetic::div_mod::lemma_mod_division_less_than_divisor(n + d - 1, d);
    assert(t == s) by (nonlinear_arith)
        requires
            r == d * t,
            n <= r < n + d,
            n + d - 1 == d * s + rem,
            0 <= rem < d,
            d > 0,
    ;
}

/// Geometry of a buddy pair: the buddy is the adjacent same-size block,
/// and the lower-indexed of the two starts the merged next-larger block.
proof fn lemma_merge_geom(i: int, o: int)
    requires
        1 <= o <= 8,
        0 <= i,
        i % block_units(o) == 0,
    ensures
        ({
            let u = block_units(o);
            let b = buddy_of(i, o);
            let lo = if b < i { b } else { i };
            let hi = if b < i { i } else { b };
            &&& b != i
            &&& 0 <= b
            &&& b % u == 0
            &&& (b == i + u || b == i - u)
            &&& lo % block_units(o - 1) == 0
            &&& lo + block_units(o - 1) == hi + u
            &&& block_units(o - 1) == 2 * u
        }),
{
    lemma_block_table();
    let u = block_units(o);
    lemma_fundamental_div_mod(i, u);
    let q = i / u;
    lemma_fundamental_div_mod(q, 2);
    let r = q % 2;
    assert(i == (2 * u) * (q / 2) + r * u) by (nonlinear_arith)
        requires
            i == u * q,
            q == 2 * (q / 2) + r,
    ;
    assert(0 <= r < 2);
    assert(0 <= r * u < 2 * u) by (nonlinear_arith)
        requires
            0 <= r < 2,
            u > 0,
    ;
    lemma_fundamental_div_mod_converse_mod(i, 2 * u, q / 2, r * u);
    assert(i % (2 * u) == r * u);
    if r == 0 {
        // `i` is the lower half; the buddy lies just above
        assert(r * u == 0) by (nonlinear_arith)
            requires
                r == 0,
        ;
        assert(i % (2 * u) == 0);
        assert(buddy_of(i, o) == i + u);
        lemma_mod_add_self(i, 1, u);
        lemma_mod_multiples_basic(q / 2, 2 * u);
        assert(i == (q / 2) * (2 * u)) by (nonlinear_arith)
            requires
                i == (2 * u) * (q / 2) + r * u,
                r == 0,
        ;
    } else {
        // `i` is the upper half; the buddy lies just below
        assert(r * u == u) by (nonlinear_arith)
            requires
                r == 1,
        ;
        assert(i % (2 * u) == u);
        assert(buddy_of(i, o) == i - u);
        let b = i - u;
        assert(b == (q / 2) * (2 * u)) by (nonlinear_arith)
            requires
                b == i - u,
                i == (2 * u) * (q / 2) + r * u,
                r == 1,
        ;
        lemma_mod_multiples_basic(q / 2, 2 * u);
        assert(b % (2 * u) == 0);
        assert((2 * u) % u == 0) by {
            lemma_mod_multiples_basic(2, u);
        }
        lemma_mod_transfer(b, 2 * u, u);
    }
}

/// A fixed-arena buddy allocator.
///
/// All bookkeeping lives in `pages`, one record per 4096-byte unit of
/// the arena; free-list links are indices into that table.  Addresses
/// handed out and taken back are byte offsets from the arena base; the
/// caller owns the arena storage itself.
pub struct Allocator {
    /// One bookkeeping record per arena unit.
    pub pages: Vec<Page>,
    /// Head unit index per order, `NIL` for an empty list.
    pub free_lists: Vec<usize>,
    /// Arena byte length.
    pub size: usize,
    /// Bytes the page table itself would occupy inside the arena; the
    /// prefix reserved for it is never handed out.
    pub meta_size: usize,
    /// Model of the free lists: for each order, the member unit indices
    /// in list order, head first.
    pub fl: Ghost<Seq<Seq<usize>>>,
}

impl Allocator {
    /// Number of units in the arena.
    pub open spec fn npages(self) -> int {
        self.pages@.len() as int
    }

    /// Units of the reserved metadata prefix: the page table size
    /// rounded up to whole order-0 blocks.
    pub open spec fn reserved_units(self) -> int {
        ((self.meta_size + 1048575) as int / 1048576) * 256
    }

    /// Whether unit `i` is linked into any free list.
    pub open spec fn in_some_list(self, i: int) -> bool {
        exists|o: int, j: int|
            0 <= o < 9 && 0 <= j < self.fl@[o].len() && #[trigger] self.fl@[o][j] == i
    }

    /// The stored head of list `o` matches the model.
    pub open spec fn head_ok(self, o: int) -> bool {
        self.free_lists@[o] == if self.fl@[o].len() == 0 {
            NIL
        } else {
            self.fl@[o][0]
        }
    }

    /// The member at position `j` of list `o` is a well-formed idle
    /// block of order `o`, linked to its neighbours.
    pub open spec fn member_ok(self, o: int, j: int) -> bool {
        let i = self.fl@[o][j] as int;
        &&& 0 <= i < self.npages()
        &&& self.pages@[i].ord == o
        &&& self.pages@[i].ref_cnt == 0
        &&& self.pages@[i].prev == (if j == 0 {
            NIL
        } else {
            self.fl@[o][j - 1]
        })
        &&& self.pages@[i].next == (if j == self.fl@[o].len() - 1 {
            NIL
        } else {
            self.fl@[o][j + 1]
        })
        &&& self.reserved_units() <= i
        &&& i % block_units(o) == 0
        &&& i + block_units(o) <= self.npages()
    }

    /// Unit `i` starts a current block: an idle block in a free list or
    /// an allocated block.
    pub open spec fn is_block_start(self, i: int) -> bool {
        0 <= i < self.npages() && (self.pages@[i].ref_cnt > 0 || self.in_some_list(i))
    }

    /// No current block overlaps the unit range `[lo, hi)`.
    pub open spec fn range_free(self, lo: int, hi: int) -> bool {
        forall|b: int|
            #[trigger] self.is_block_start(b) ==> b + block_units(self.pages@[b].ord as int) <= lo
                || hi <= b
    }

    /// If unit `i` starts an allocated block, that block is geometrically
    /// valid and unlinked.
    pub open spec fn allocated_ok(self, i: int) -> bool {
        self.pages@[i].ref_cnt > 0 ==> {
            let o = self.pages@[i].ord as int;
            &&& o <= 8
            &&& self.pages@[i].next == NIL
            &&& self.pages@[i].prev == NIL
            &&& !self.in_some_list(i)
            &&& self.reserved_units() <= i
            &&& i % block_units(o) == 0
            &&& i + block_units(o) <= self.npages()
        }
    }

    /// The ranges of distinct current blocks never overlap.
    pub open spec fn disjoint_ok(self) -> bool {
        forall|i1: int, i2: int|
            #[trigger] self.is_block_start(i1) && #[trigger] self.is_block_start(i2) && i1 != i2
                ==> i1 + block_units(self.pages@[i1].ord as int) <= i2
                || i2 + block_units(self.pages@[i2].ord as int) <= i1
    }

    /// Well-formedness: the invariant every public operation preserves.
    pub open spec fn wf(self) -> bool {
        &&& self.free_lists@.len() == 9
        &&& self.fl@.len() == 9
        &&& self.npages() <= MAX_PAGES
        &&& self.size == self.pages@.len() * 4096
        &&& self.meta_size == self.pages@.len() * PAGE_META_BYTES
        &&& forall|o: int| 0 <= o < 9 ==> #[trigger] self.head_ok(o)
        &&& forall|o: int, j: int|
            0 <= o < 9 && 0 <= j < self.fl@[o].len() ==> #[trigger] self.member_ok(o, j)
        &&& forall|o: int| 0 <= o < 9 ==> (#[trigger] self.fl@[o]).no_duplicates()
        &&& forall|i: int| 0 <= i < self.npages() ==> (#[trigger] self.pages@[i]).idx == i
        &&& forall|i: int| 0 <= i < self.npages() ==> #[trigger] self.allocated_ok(i)
        &&& forall|i: int|
            0 <= i < self.npages() && !(#[trigger] self.in_some_list(i)) ==> self.pages@[i].next
                == NIL && self.pages@[i].prev == NIL
        &&& self.disjoint_ok()
    }

    /// A detached block the code is holding: idle, unlinked, valid for
    /// order `o`, and overlapping no current block.
    pub open spec fn floating(self, i: int, o: int) -> bool {
        &&& 0 <= i < self.npages()
        &&& 0 <= o <= 8
        &&& self.pages@[i].ord == o
        &&& self.pages@[i].ref_cnt == 0
        &&& self.pages@[i].next == NIL
        &&& self.pages@[i].prev == NIL
        &&& !self.in_some_list(i)
        &&& self.reserved_units() <= i
        &&& i % block_units(o) == 0
        &&& i + block_units(o) <= self.npages()
        &&& self.range_free(i, i + block_units(o))
    }

    /// Everything the caller can observe of the state.
    pub open spec fn state_eq(self, other: Allocator) -> bool {
        &&& self.pages@ == other.pages@
        &&& self.free_lists@ == other.free_lists@
        &&& self.fl@ == other.fl@
        &&& self.size == other.size
        &&& self.meta_size == other.meta_size
    }

    /// Sum of block sizes across all free lists, in bytes.
    pub open spec fn free_capacity(self) -> int {
        self.fl@[0].len() * block_bytes(0) + self.fl@[1].len() * block_bytes(1)
            + self.fl@[2].len() * block_bytes(2) + self.fl@[3].len() * block_bytes(3)
            + self.fl@[4].len() * block_bytes(4) + self.fl@[5].len() * block_bytes(5)
            + self.fl@[6].len() * block_bytes(6) + self.fl@[7].len() * block_bytes(7)
            + self.fl@[8].len() * block_bytes(8)
    }

    /// The order whose free list satisfies a request at order `o`: the
    /// largest order at or below `o` (i.e. the smallest adequate block)
    /// with a non-empty list, or -1 when every candidate list is empty.
    pub open spec fn scan_order(self, o: int) -> int
        decreases (if o >= 0 { o + 1 } else { 0 }),
    {
        if o < 0 {
            -1
        } else if self.fl@[o].len() > 0 {
            o
        } else {
            self.scan_order(o - 1)
        }
    }

    /// `scan_order` picks `o` when list `o` is the first non-empty one
    /// at or below `top`.
    proof fn lemma_scan_order_found(self, o: int, top: int)
        requires
            0 <= o <= top,
            self.fl@[o].len() > 0,
            forall|oo: int| o < oo <= top ==> self.fl@[oo].len() == 0,
        ensures
            self.scan_order(top) == o,
        decreases top,
    {
        if top > o {
            self.lemma_scan_order_found(o, top - 1);
        }
    }

    /// Between `pre` and `post`, order `o2`'s free list lost exactly
    /// one member: the buddy of the aligned order-`o2` block
    /// containing unit `i`.
    pub open spec fn buddy_removed(pre: Allocator, post: Allocator, i: int, o2: int) -> bool {
        exists|j: int|
            0 <= j < pre.fl@[o2].len() && #[trigger] pre.fl@[o2][j] == (buddy_of(
                align_down(i, o2),
                o2,
            ) as usize) && post.fl@[o2] == pre.fl@[o2].remove(j)
    }

    /// What coalescing a freed order-`o0` block at unit `i` does when
    /// it comes to rest at order `f`: the survivor is the aligned
    /// order-`f` block containing `i`, idle at the head of list `f`; at
    /// every order crossed on the way up, exactly the buddy of the
    /// growing block left its list; no other list changed; no further
    /// merge is possible; and no record outside the survivor's range
    /// changed its order.
    pub open spec fn coalesce_outcome(
        pre: Allocator,
        post: Allocator,
        i: int,
        o0: int,
        f: int,
    ) -> bool {
        let s = align_down(i, f);
        &&& 0 <= f <= o0
        &&& s % block_units(f) == 0
        &&& post.pages@[s].ord == f
        &&& post.pages@[s].ref_cnt == 0
        &&& post.fl@[f] == seq![(s as usize)].add(pre.fl@[f])
        &&& forall|o2: int|
            0 <= o2 < 9 && o2 != f && !(f < o2 <= o0) ==> #[trigger] post.fl@[o2] == pre.fl@[o2]
        &&& forall|o2: int|
            f < o2 <= o0 ==> #[trigger] Self::buddy_removed(pre, post, i, o2)
        &&& (f == 0 || !post.mergeable(s, f))
        &&& forall|m: int|
            #![trigger post.pages@[m]]
            0 <= m < pre.npages() && !(s <= m < s + block_units(f)) ==> post.pages@[m].ord
                == pre.pages@[m].ord
    }

    /// The free-list model after serving a request at order `ord` from
    /// the list at order `sel`: the head block of list `sel` is taken,
    /// and when `sel < ord` that block is split down, each order in
    /// between keeping the spared upper half at its head.
    pub open spec fn lists_after_alloc(l: Seq<Seq<usize>>, sel: int, ord: int) -> Seq<
        Seq<usize>,
    > {
        let i = l[sel][0];
        let popped = l.update(sel, l[sel].remove(0));
        Seq::new(
            9,
            |o: int|
                if sel < o <= ord {
                    seq![((i as int + block_units(o)) as usize)].add(popped[o])
                } else {
                    popped[o]
                },
        )
    }

    /// Whether the block at unit `i`, order `o`, has an idle, linked,
    /// order-matched buddy it could merge with.
    pub open spec fn mergeable(self, i: int, o: int) -> bool {
        &&& 1 <= o
        &&& {
            let b = buddy_of(i, o);
            &&& 0 <= b < self.npages()
            &&& self.pages@[b].ord == o
            &&& self.pages@[b].ref_cnt == 0
            &&& self.in_some_list(b)
        }
    }

    /// Inserting the surviving block closes out a coalescing run: from
    /// the bookkeeping the run left behind (`pre` at entry, `entry`
    /// just before the insertion, `post` after it), the full outcome
    /// follows.
    proof fn lemma_join_exit(
        pre: Allocator,
        entry: Allocator,
        post: Allocator,
        i: int,
        o0: int,
        cur: usize,
        f: int,
    )
        requires
            0 <= f <= o0 <= 8,
            0 <= i < pre.npages(),
            entry.pages@.len() == pre.pages@.len(),
            post.pages@.len() == entry.pages@.len(),
            0 <= cur < entry.npages(),
            entry.pages@[cur as int].ord == f,
            entry.pages@[cur as int].ref_cnt == 0,
            (cur as int) % block_units(f) == 0,
            cur as int == align_down(i, f),
            (cur as int) <= i < cur as int + block_units(f),
            forall|o2: int|
                0 <= o2 < 9 && !(f < o2 <= o0) ==> #[trigger] entry.fl@[o2] == pre.fl@[o2],
            forall|o2: int|
                f < o2 <= o0 ==> #[trigger] Self::buddy_removed(pre, entry, i, o2),
            forall|m: int|
                #![trigger entry.pages@[m]]
                0 <= m < pre.npages() && !(cur as int <= m < cur as int + block_units(f))
                    ==> entry.pages@[m].ord == pre.pages@[m].ord,
            entry.fl@.len() == 9,
            post.fl@ == entry.fl@.update(f, seq![cur].add(entry.fl@[f])),
            forall|m: int|
                0 <= m < entry.npages() ==> (#[trigger] post.pages@[m]).ord == entry.pages@[
                m].ord && post.pages@[m].ref_cnt == entry.pages@[m].ref_cnt,
            forall|m: int| post.in_some_list(m) <==> (m == cur as int || entry.in_some_list(m)),
            f >= 1 ==> !entry.mergeable(cur as int, f),
        ensures
            Self::coalesce_outcome(pre, post, i, o0, f),
    {
        assert(align_down(i, f) == cur as int);
        assert(post.fl@[f] == seq![cur].add(pre.fl@[f]));
        assert forall|o2: int|
            0 <= o2 < 9 && o2 != f && !(f < o2 <= o0) implies #[trigger] post.fl@[o2]
            == pre.fl@[o2] by {
            assert(post.fl@[o2] == entry.fl@[o2]);
        }
        assert forall|o2: int| f < o2 <= o0 implies #[trigger] Self::buddy_removed(
            pre,
            post,
            i,
            o2,
        ) by {
            assert(Self::buddy_removed(pre, entry, i, o2));
            assert(post.fl@[o2] == entry.fl@[o2]);
            let j = choose|j: int|
                0 <= j < pre.fl@[o2].len() && #[trigger] pre.fl@[o2][j] == (buddy_of(
                    align_down(i, o2),
                    o2,
                ) as usize) && entry.fl@[o2] == pre.fl@[o2].remove(j);
            assert(0 <= j < pre.fl@[o2].len() && pre.fl@[o2][j] == (buddy_of(
                align_down(i, o2),
                o2,
            ) as usize) && post.fl@[o2] == pre.fl@[o2].remove(j));
        }
        if f >= 1 {
            assert(!post.mergeable(cur as int, f)) by {
                if post.mergeable(cur as int, f) {
                    lemma_merge_geom(cur as int, f);
                    let bd = buddy_of(cur as int, f);
                    assert(bd != cur as int);
                    assert(post.pages@[bd].ord == entry.pages@[bd].ord);
                    assert(post.pages@[bd].ref_cnt == entry.pages@[bd].ref_cnt);
                    assert(entry.in_some_list(bd));
                    assert(entry.mergeable(cur as int, f));
                }
            }
        }
        assert forall|m: int|
            #![trigger post.pages@[m]]
            0 <= m < pre.npages() && !(cur as int <= m < cur as int + block_units(f))
                implies post.pages@[m].ord == pre.pages@[m].ord by {
            assert(post.pages@[m].ord == entry.pages@[m].ord);
        }
    }

    /// Observably equal states agree on what can merge.
    proof fn lemma_mergeable_congruent(a: Allocator, b: Allocator, i: int, o: int)
        requires
            a.state_eq(b),
        ensures
            a.mergeable(i, o) == b.mergeable(i, o),
    {
        Self::lemma_same_lists(a, b);
    }

    /// Two states with the same free-list model agree on membership.
    pub proof fn lemma_same_lists(a: Allocator, b: Allocator)
        requires
            a.fl@ == b.fl@,
        ensures
            forall|m: int| #[trigger] a.in_some_list(m) <==> b.in_some_list(m),
    {
        assert forall|m: int| #[trigger] a.in_some_list(m) implies b.in_some_list(m) by {
            let (o2, j2): (int, int) = choose|o2: int, j2: int|
                0 <= o2 < 9 && 0 <= j2 < a.fl@[o2].len() && #[trigger] a.fl@[o2][j2] == m;
            assert(b.fl@[o2][j2] == m);
        }
        assert forall|m: int| b.in_some_list(m) implies a.in_some_list(m) by {
            let (o2, j2): (int, int) = choose|o2: int, j2: int|
                0 <= o2 < 9 && 0 <= j2 < b.fl@[o2].len() && #[trigger] b.fl@[o2][j2] == m;
            assert(a.fl@[o2][j2] == m);
        }
    }

    /// Push the detached block `i` at the head of its order's free list.
    pub fn add_to_fl(&mut self, i: usize)
        requires
            old(self).wf(),
            old(self).floating(i as int, old(self).pages@[i as int].ord as int),
        ensures
            final(self).wf(),
            final(self).fl@ == old(self).fl@.update(
                old(self).pages@[i as int].ord as int,
                seq![i].add(old(self).fl@[old(self).pages@[i as int].ord as int]),
            ),
            final(self).size == old(self).size,
            final(self).meta_size == old(self).meta_size,
            final(self).pages@.len() == old(self).pages@.len(),
            forall|m: int|
                0 <= m < old(self).npages() ==> {
                    &&& (#[trigger] final(self).pages@[m]).ord == old(self).pages@[m].ord
                    &&& final(self).pages@[m].ref_cnt == old(self).pages@[m].ref_cnt
                    &&& final(self).pages@[m].idx == old(self).pages@[m].idx
                },
            forall|m: int|
                0 <= m < old(self).npages() && m != i && !old(self).in_some_list(m)
                    ==> final(self).pages@[m] == old(self).pages@[m],
            forall|m: int|
                final(self).in_some_list(m) <==> (m == i || old(self).in_some_list(m)),
            final(self).free_capacity() == old(self).free_capacity() + block_bytes(
                old(self).pages@[i as int].ord as int,
            ),
    {
        let ghost pre = *old(self);
        let o = self.pages[i].ord;
        let ghost oo = o as int;
        let ghost oldlist = pre.fl@[oo];
        let h = self.free_lists[o];
        proof {
            assert(pre.head_ok(oo));
            if oldlist.len() > 0 {
                assert(pre.member_ok(oo, 0));
            }
            assert(pre.npages() < NIL);
        }
        if h != NIL {
            self.pages[i].next = h;
            self.pages[h].prev = i;
        }
        self.free_lists[o] = i;
        self.fl = Ghost(self.fl@.update(o as int, seq![i].add(self.fl@[o as int])));
        proof {
            let post = *self;
            let newlist = post.fl@[oo];
            assert(newlist == seq![i].add(oldlist));
            assert(newlist[0] == i);
            assert forall|j: int| 1 <= j < newlist.len() implies newlist[j] == oldlist[j - 1] by {}

            // membership in the new state
            assert forall|m: int| post.in_some_list(m) implies (m == i || pre.in_some_list(m)) by {
                let (o2, j2): (int, int) = choose|o2: int, j2: int|
                    0 <= o2 < 9 && 0 <= j2 < post.fl@[o2].len() && #[trigger] post.fl@[o2][j2]
                        == m;
                if o2 == oo {
                    if j2 == 0 {
                        assert(m == i);
                    } else {
                        assert(pre.fl@[o2][j2 - 1] == m);
                        assert(pre.in_some_list(m));
                    }
                } else {
                    assert(pre.fl@[o2][j2] == m);
                    assert(pre.in_some_list(m));
                }
            }
            assert forall|m: int| (m == i || pre.in_some_list(m)) implies post.in_some_list(
                m,
            ) by {
                if m == i {
                    assert(post.fl@[oo][0] == m);
                } else {
                    let (o2, j2): (int, int) = choose|o2: int, j2: int|
                        0 <= o2 < 9 && 0 <= j2 < pre.fl@[o2].len() && #[trigger] pre.fl@[o2][j2]
                            == m;
                    if o2 == oo {
                        assert(post.fl@[oo][j2 + 1] == m);
                    } else {
                        assert(post.fl@[o2][j2] == m);
                    }
                }
            }

            // pages touched: i, and the old head if there was one
            assert forall|m: int|
                0 <= m < pre.npages() && m != i && (oldlist.len() == 0 || m
                    != oldlist[0]) implies post.pages@[m] == pre.pages@[m] by {}

            // heads
            assert forall|o2: int| 0 <= o2 < 9 implies post.head_ok(o2) by {
                if o2 != oo {
                    assert(pre.head_ok(o2));
                }
            }

            // members
            assert forall|o2: int, j2: int|
                0 <= o2 < 9 && 0 <= j2 < post.fl@[o2].len() implies post.member_ok(o2, j2) by {
                if o2 == oo {
                    if j2 == 0 {
                        assert(post.member_ok(o2, 0));
                    } else {
                        let m = oldlist[j2 - 1] as int;
                        assert(pre.member_ok(oo, j2 - 1));
                        if j2 == 1 {
                            assert(post.pages@[m].prev == i);
                            assert(post.member_ok(o2, j2));
                        } else {
                            // untouched interior member
                            assert(m != i as int);
                            assert(oldlist.no_duplicates());
                            assert(m != oldlist[0] as int);
                            assert(post.pages@[m] == pre.pages@[m]);
                            assert(post.member_ok(o2, j2));
                        }
                    }
                } else {
                    let m = pre.fl@[o2][j2] as int;
                    assert(pre.member_ok(o2, j2));
                    assert(m != i as int) by {
                        assert(pre.in_some_list(m));
                    }
                    if oldlist.len() > 0 && m == oldlist[0] as int {
                        // same index in two lists of different orders is impossible
                        assert(pre.member_ok(oo, 0));
                        assert(pre.pages@[m].ord == oo);
                        assert(pre.pages@[m].ord == o2);
                        assert(false);
                    }
                    assert(post.pages@[m] == pre.pages@[m]);
                    assert(post.member_ok(o2, j2));
                }
            }

            // no duplicates
            assert forall|o2: int| 0 <= o2 < 9 implies (#[trigger] post.fl@[o2]).no_duplicates()
                by {
                if o2 == oo {
                    assert forall|a: int, b: int|
                        0 <= a < newlist.len() && 0 <= b < newlist.len() && a
                            != b implies newlist[a] != newlist[b] by {
                        if a == 0 {
                            if newlist[b] == i {
                                assert(pre.fl@[oo][b - 1] == i);
                                assert(pre.in_some_list(i as int));
                            }
                        } else if b == 0 {
                            if newlist[a] == i {
                                assert(pre.fl@[oo][a - 1] == i);
                                assert(pre.in_some_list(i as int));
                            }
                        } else {
                            assert(oldlist.no_duplicates());
                        }
                    }
                }
            }

            // idx fields
            assert forall|m: int| 0 <= m < post.npages() implies (#[trigger] post.pages@[m]).idx
                == m by {}

            // allocated blocks
            assert forall|m: int| 0 <= m < post.npages() implies post.allocated_ok(m) by {
                if post.pages@[m].ref_cnt > 0 {
                    assert(pre.allocated_ok(m));
                    assert(m != i as int);
                    if oldlist.len() > 0 && m == oldlist[0] as int {
                        assert(pre.member_ok(oo, 0));
                        assert(false);
                    }
                    assert(post.pages@[m] == pre.pages@[m]);
                }
            }

            // unlinked non-members
            assert forall|m: int|
                0 <= m < post.npages() && !(#[trigger] post.in_some_list(
                    m,
                )) implies post.pages@[m].next == NIL && post.pages@[m].prev == NIL by {
                assert(!pre.in_some_list(m));
                assert(m != i as int);
                if oldlist.len() > 0 && m == oldlist[0] as int {
                    assert(pre.member_ok(oo, 0));
                    assert(pre.in_some_list(m));
                }
                assert(post.pages@[m] == pre.pages@[m]);
            }

            // disjointness
            assert forall|i1: int, i2: int|
                #[trigger] post.is_block_start(i1) && #[trigger] post.is_block_start(i2) && i1
                    != i2 implies i1 + block_units(post.pages@[i1].ord as int) <= i2 || i2
                    + block_units(post.pages@[i2].ord as int) <= i1 by {
                assert(post.pages@[i1].ord == pre.pages@[i1].ord);
                assert(post.pages@[i2].ord == pre.pages@[i2].ord);
                if i1 == i as int {
                    assert(pre.is_block_start(i2));
                    assert(pre.range_free(i1, i1 + block_units(pre.pages@[i1].ord as int)));
                } else if i2 == i as int {
                    assert(pre.is_block_start(i1));
                    assert(pre.range_free(i2, i2 + block_units(pre.pages@[i2].ord as int)));
                } else {
                    assert(pre.is_block_start(i1));
                    assert(pre.is_block_start(i2));
                }
            }

            // capacity: only the term of order `oo` changed
            assert(newlist.len() == oldlist.len() + 1);
            assert(post.free_capacity() == pre.free_capacity() + block_bytes(oo))
                by (nonlinear_arith)
                requires
                    post.fl@.len() == 9,
                    pre.fl@.len() == 9,
                    0 <= oo < 9,
                    post.fl@[oo].len() == pre.fl@[oo].len() + 1,
                    forall|o2: int| 0 <= o2 < 9 && o2 != oo ==> post.fl@[o2] == pre.fl@[o2],
                    post.free_capacity() == post.fl@[0].len() * block_bytes(0) + post.fl@[1].len()
                        * block_bytes(1) + post.fl@[2].len() * block_bytes(2) + post.fl@[3].len()
                        * block_bytes(3) + post.fl@[4].len() * block_bytes(4) + post.fl@[5].len()
                        * block_bytes(5) + post.fl@[6].len() * block_bytes(6) + post.fl@[7].len()
                        * block_bytes(7) + post.fl@[8].len() * block_bytes(8),
                    pre.free_capacity() == pre.fl@[0].len() * block_bytes(0) + pre.fl@[1].len()
                        * block_bytes(1) + pre.fl@[2].len() * block_bytes(2) + pre.fl@[3].len()
                        * block_bytes(3) + pre.fl@[4].len() * block_bytes(4) + pre.fl@[5].len()
                        * block_bytes(5) + pre.fl@[6].len() * block_bytes(6) + pre.fl@[7].len()
                        * block_bytes(7) + pre.fl@[8].len() * block_bytes(8),
            ;
        }
    }
    /// Under `wf`, a unit is linked somewhere exactly when it is its
    /// order's list head or carries a non-`NIL` link.
    pub proof fn lemma_link_test(self, i: usize, o: int)
        requires
            self.wf(),
            0 <= i < self.npages(),
            self.pages@[i as int].ord == o,
            0 <= o < 9,
        ensures
            self.in_some_list(i as int) <==> (self.free_lists@[o] == i || self.pages@[
                i as int
            ].next != NIL || self.pages@[i as int].prev != NIL),
    {
        if self.in_some_list(i as int) {
            let (o2, j2): (int, int) = choose|o2: int, j2: int|
                0 <= o2 < 9 && 0 <= j2 < self.fl@[o2].len() && #[trigger] self.fl@[o2][j2]
                    == i;
            assert(self.member_ok(o2, j2));
            assert(o2 == o);
            if j2 == 0 {
                assert(self.head_ok(o));
            } else {
                assert(self.member_ok(o2, j2 - 1));
                assert((self.fl@[o2][j2 - 1] as int) < self.npages());
            }
        } else {
            assert(self.head_ok(o));
            if self.fl@[o].len() > 0 {
                assert(self.member_ok(o, 0));
                if self.fl@[o][0] == i {
                    assert(self.in_some_list(i as int));
                }
            }
        }
    }

    /// Unlink the member at position `j` of list `o` (unit `i`), fixing
    /// its neighbours' links, the list head, and clearing its own links.
    fn remove_node(&mut self, o: usize, i: usize, Ghost(j): Ghost<int>)
        requires
            old(self).wf(),
            o < 9,
            0 <= j < old(self).fl@[o as int].len(),
            old(self).fl@[o as int][j] == i,
        ensures
            final(self).wf(),
            final(self).fl@ == old(self).fl@.update(o as int, old(self).fl@[o as int].remove(j)),
            final(self).floating(i as int, o as int),
            final(self).size == old(self).size,
            final(self).meta_size == old(self).meta_size,
            final(self).pages@.len() == old(self).pages@.len(),
            forall|m: int|
                0 <= m < old(self).npages() ==> {
                    &&& (#[trigger] final(self).pages@[m]).ord == old(self).pages@[m].ord
                    &&& final(self).pages@[m].ref_cnt == old(self).pages@[m].ref_cnt
                    &&& final(self).pages@[m].idx == old(self).pages@[m].idx
                },
            forall|m: int|
                0 <= m < old(self).npages() && m != i && !old(self).in_some_list(m)
                    ==> final(self).pages@[m] == old(self).pages@[m],
            forall|m: int|
                final(self).in_some_list(m) <==> (old(self).in_some_list(m) && m != i),
            final(self).free_capacity() == old(self).free_capacity() - block_bytes(o as int),
    {
        let ghost pre = *old(self);
        let ghost oo = o as int;
        let ghost oldlist = pre.fl@[oo];
        proof {
            assert(pre.member_ok(oo, j));
            if j > 0 {
                assert(pre.member_ok(oo, j - 1));
            }
            if j < oldlist.len() - 1 {
                assert(pre.member_ok(oo, j + 1));
            }
            assert(pre.npages() < NIL);
            assert(oldlist.no_duplicates());
        }
        let p = self.pages[i];
        let nx = p.next;
        let pv = p.prev;
        if nx != NIL {
            self.pages[nx].prev = pv;
        }
        if pv != NIL {
            self.pages[pv].next = nx;
        }
        if self.free_lists[o] == i {
            self.free_lists[o] = nx;
        }
        self.pages[i].next = NIL;
        self.pages[i].prev = NIL;
        self.fl = Ghost(self.fl@.update(o as int, self.fl@[o as int].remove(j)));
        proof {
            let post = *self;
            let newlist = post.fl@[oo];
            assert(newlist == oldlist.remove(j));
            assert(newlist.len() == oldlist.len() - 1);
            assert forall|k: int| 0 <= k < j implies newlist[k] == oldlist[k] by {}
            assert forall|k: int| j <= k < newlist.len() implies newlist[k] == oldlist[k + 1] by {}

            // which pages were touched
            assert(j == 0 <==> pv == NIL);
            assert(j == oldlist.len() - 1 <==> nx == NIL);
            assert(pv != NIL ==> pv == oldlist[j - 1] && pv as int != i as int);
            assert(nx != NIL ==> nx == oldlist[j + 1] && nx as int != i as int);
            assert(pv != NIL && nx != NIL ==> pv != nx);
            assert forall|m: int|
                0 <= m < pre.npages() && m != i && (pv == NIL || m != pv) && (nx == NIL || m
                    != nx) implies post.pages@[m] == pre.pages@[m] by {}

            // head: it was i exactly when j == 0
            assert(pre.head_ok(oo));
            if j == 0 {
                assert(pre.free_lists@[oo] == i);
            } else {
                assert(oldlist[0] != i);
                assert(pre.free_lists@[oo] == oldlist[0]);
            }

            // membership in the new state
            assert forall|m: int| post.in_some_list(m) implies (pre.in_some_list(m) && m
                != i) by {
                let (o2, j2): (int, int) = choose|o2: int, j2: int|
                    0 <= o2 < 9 && 0 <= j2 < post.fl@[o2].len() && #[trigger] post.fl@[o2][j2]
                        == m;
                if o2 == oo {
                    if j2 < j {
                        assert(pre.fl@[oo][j2] == m);
                        assert(m != i) by {
                            assert(oldlist[j2] != oldlist[j]);
                        }
                    } else {
                        assert(pre.fl@[oo][j2 + 1] == m);
                        assert(m != i) by {
                            assert(oldlist[j2 + 1] != oldlist[j]);
                        }
                    }
                    assert(pre.in_some_list(m));
                } else {
                    assert(pre.fl@[o2][j2] == m);
                    assert(pre.in_some_list(m));
                    assert(pre.member_ok(o2, j2));
                    if m == i {
                        assert(pre.pages@[m as int].ord == o2);
                        assert(pre.pages@[m as int].ord == oo);
                        assert(false);
                    }
                }
            }
            assert forall|m: int| pre.in_some_list(m) && m != i implies post.in_some_list(
                m,
            ) by {
                let (o2, j2): (int, int) = choose|o2: int, j2: int|
                    0 <= o2 < 9 && 0 <= j2 < pre.fl@[o2].len() && #[trigger] pre.fl@[o2][j2]
                        == m;
                if o2 == oo {
                    if j2 < j {
                        assert(post.fl@[oo][j2] == m);
                    } else if j2 == j {
                        assert(false);
                    } else {
                        assert(post.fl@[oo][j2 - 1] == m);
                    }
                } else {
                    assert(post.fl@[o2][j2] == m);
                }
            }

            // heads
            assert forall|o2: int| 0 <= o2 < 9 implies post.head_ok(o2) by {
                if o2 == oo {
                    if j == 0 {
                        if newlist.len() > 0 {
                            assert(newlist[0] == oldlist[1]);
                        }
                    } else {
                        assert(newlist[0] == oldlist[0]);
                    }
                } else {
                    assert(pre.head_ok(o2));
                    if pre.fl@[o2].len() > 0 {
                        assert(pre.member_ok(o2, 0));
                        assert(pre.fl@[o2][0] != i) by {
                            if pre.fl@[o2][0] == i {
                                assert(pre.pages@[i as int].ord == o2);
                            }
                        }
                    }
                }
            }

            // members
            assert forall|o2: int, j2: int|
                0 <= o2 < 9 && 0 <= j2 < post.fl@[o2].len() implies post.member_ok(o2, j2) by {
                if o2 == oo {
                    let m = newlist[j2] as int;
                    if j2 < j - 1 {
                        assert(pre.member_ok(oo, j2));
                        assert(m != i as int && (pv == NIL || m != pv as int) && (nx == NIL || m
                            != nx as int)) by {
                            assert(oldlist[j2] != oldlist[j]);
                            if pv != NIL {
                                assert(oldlist[j2] != oldlist[j - 1] || j2 == j - 1);
                            }
                            if nx != NIL {
                                assert(oldlist[j2] != oldlist[j + 1]);
                            }
                        }
                        assert(post.pages@[m] == pre.pages@[m]);
                        assert(post.member_ok(o2, j2));
                    } else if j2 == j - 1 {
                        // the predecessor: next now skips to old j+1
                        assert(m == pv as int);
                        assert(pre.member_ok(oo, j2));
                        assert(post.pages@[m].next == nx);
                        assert(post.pages@[m].prev == pre.pages@[m].prev);
                        assert(post.member_ok(o2, j2));
                    } else if j2 == j {
                        // the successor: prev now skips to old j-1
                        assert(m == nx as int);
                        assert(pre.member_ok(oo, j + 1));
                        assert(post.pages@[m].prev == pv);
                        assert(post.pages@[m].next == pre.pages@[m].next);
                        assert(newlist[j2] == oldlist[j2 + 1]);
                        if j2 < newlist.len() - 1 {
                            assert(newlist[j2 + 1] == oldlist[j2 + 2]);
                        }
                        assert(post.member_ok(o2, j2));
                    } else {
                        assert(newlist[j2] == oldlist[j2 + 1]);
                        assert(pre.member_ok(oo, j2 + 1));
                        assert(m != i as int && (pv == NIL || m != pv as int) && (nx == NIL || m
                            != nx as int)) by {
                            assert(oldlist[j2 + 1] != oldlist[j]);
                            if pv != NIL {
                                assert(oldlist[j2 + 1] != oldlist[j - 1]);
                            }
                            if nx != NIL {
                                assert(oldlist[j2 + 1] != oldlist[j + 1] || j2 + 1 == j + 1);
                            }
                        }
                        assert(post.pages@[m] == pre.pages@[m]);
                        assert(newlist[j2 - 1] == oldlist[j2]);
                        assert(post.member_ok(o2, j2));
                    }
                } else {
                    let m = pre.fl@[o2][j2] as int;
                    assert(pre.member_ok(o2, j2));
                    // members of other lists are untouched: different order
                    assert(m != i as int && (pv == NIL || m != pv as int) && (nx == NIL || m
                        != nx as int)) by {
                        if m == i as int || (pv != NIL && m == pv as int) || (nx != NIL && m
                            == nx as int) {
                            assert(pre.pages@[m].ord == o2);
                            assert(pre.pages@[m].ord == oo);
                        }
                    }
                    assert(post.pages@[m] == pre.pages@[m]);
                    assert(post.member_ok(o2, j2));
                }
            }

            // no duplicates
            assert forall|o2: int| 0 <= o2 < 9 implies (#[trigger] post.fl@[o2]).no_duplicates()
                by {
                if o2 == oo {
                    assert forall|a: int, b: int|
                        0 <= a < newlist.len() && 0 <= b < newlist.len() && a
                            != b implies newlist[a] != newlist[b] by {
                        let a2 = if a < j {
                            a
                        } else {
                            a + 1
                        };
                        let b2 = if b < j {
                            b
                        } else {
                            b + 1
                        };
                        assert(newlist[a] == oldlist[a2] && newlist[b] == oldlist[b2]);
                        assert(oldlist[a2] != oldlist[b2]);
                    }
                }
            }

            // idx fields
            assert forall|m: int| 0 <= m < post.npages() implies (#[trigger] post.pages@[m]).idx
                == m by {}

            // allocated blocks: untouched (all touched pages are idle members)
            assert forall|m: int| 0 <= m < post.npages() implies post.allocated_ok(m) by {
                if post.pages@[m].ref_cnt > 0 {
                    assert(pre.allocated_ok(m));
                    assert(pre.pages@[m].ref_cnt > 0);
                    assert(m != i as int && (pv == NIL || m != pv as int) && (nx == NIL || m
                        != nx as int)) by {
                        if m == i as int {
                            assert(pre.member_ok(oo, j));
                        }
                        if pv != NIL && m == pv as int {
                            assert(pre.member_ok(oo, j - 1));
                        }
                        if nx != NIL && m == nx as int {
                            assert(pre.member_ok(oo, j + 1));
                        }
                    }
                    assert(post.pages@[m] == pre.pages@[m]);
                }
            }

            // unlinked non-members
            assert forall|m: int|
                0 <= m < post.npages() && !(#[trigger] post.in_some_list(
                    m,
                )) implies post.pages@[m].next == NIL && post.pages@[m].prev == NIL by {
                if m == i as int {
                } else if pre.in_some_list(m) {
                    // still a member
                    assert(post.in_some_list(m));
                } else {
                    assert(pre.pages@[m].next == NIL && pre.pages@[m].prev == NIL);
                    assert((pv == NIL || m != pv as int) && (nx == NIL || m != nx as int)) by {
                        if pv != NIL && m == pv as int {
                            assert(pre.fl@[oo][j - 1] == pv);
                            assert(pre.in_some_list(m));
                        }
                        if nx != NIL && m == nx as int {
                            assert(pre.fl@[oo][j + 1] == nx);
                            assert(pre.in_some_list(m));
                        }
                    }
                    assert(post.pages@[m] == pre.pages@[m]);
                }
            }

            // the removed node floats
            assert(post.floating(i as int, oo)) by {
                assert(pre.member_ok(oo, j));
                assert(post.pages@[i as int].ord == oo);
                assert(!post.in_some_list(i as int));
                assert(post.range_free(i as int, i as int + block_units(oo))) by {
                    assert forall|b: int| #[trigger] post.is_block_start(b) implies b
                        + block_units(post.pages@[b].ord as int) <= i as int || i as int
                        + block_units(oo) <= b by {
                        assert(pre.is_block_start(b));
                        assert(b != i as int);
                        assert(pre.is_block_start(i as int)) by {
                            assert(pre.in_some_list(i as int)) by {
                                assert(pre.fl@[oo][j] == i);
                            }
                        }
                    }
                }
            }

            // disjointness
            assert forall|i1: int, i2: int|
                #[trigger] post.is_block_start(i1) && #[trigger] post.is_block_start(i2) && i1
                    != i2 implies i1 + block_units(post.pages@[i1].ord as int) <= i2 || i2
                    + block_units(post.pages@[i2].ord as int) <= i1 by {
                assert(pre.is_block_start(i1));
                assert(pre.is_block_start(i2));
            }

            // capacity: only the term of order `oo` changed
            assert(post.free_capacity() == pre.free_capacity() - block_bytes(oo))
                by (nonlinear_arith)
                requires
                    post.fl@.len() == 9,
                    pre.fl@.len() == 9,
                    0 <= oo < 9,
                    post.fl@[oo].len() == pre.fl@[oo].len() - 1,
                    forall|o2: int| 0 <= o2 < 9 && o2 != oo ==> post.fl@[o2] == pre.fl@[o2],
                    post.free_capacity() == post.fl@[0].len() * block_bytes(0) + post.fl@[1].len()
                        * block_bytes(1) + post.fl@[2].len() * block_bytes(2) + post.fl@[3].len()
                        * block_bytes(3) + post.fl@[4].len() * block_bytes(4) + post.fl@[5].len()
                        * block_bytes(5) + post.fl@[6].len() * block_bytes(6) + post.fl@[7].len()
                        * block_bytes(7) + post.fl@[8].len() * block_bytes(8),
                    pre.free_capacity() == pre.fl@[0].len() * block_bytes(0) + pre.fl@[1].len()
                        * block_bytes(1) + pre.fl@[2].len() * block_bytes(2) + pre.fl@[3].len()
                        * block_bytes(3) + pre.fl@[4].len() * block_bytes(4) + pre.fl@[5].len()
                        * block_bytes(5) + pre.fl@[6].len() * block_bytes(6) + pre.fl@[7].len()
                        * block_bytes(7) + pre.fl@[8].len() * block_bytes(8),
            ;
        }
    }

    /// Build an allocator for an arena of `len` bytes.
    ///
    /// The length must be a power of two of at least one unit (and at
    /// most the configured maximum).  The page table is sized at one
    /// record per unit; the prefix of whole largest blocks covering it
    /// is reserved, and every remaining whole largest block is placed
    /// on the order-0 free list, lowest address first.
    pub fn new(len: usize) -> (a: Allocator)
        requires
            is_pow2(len),
            4096 <= len,
            len <= 0x8000_0000usize,
        ensures
            a.wf(),
            a.size == len,
            a.pages@.len() == len as int / 4096,
            a.meta_size == (len as int / 4096) * PAGE_META_BYTES,
            a.fl@[0] == initial_list0(len as int),
            forall|o: int| 1 <= o < 9 ==> a.fl@[o].len() == 0,
            forall|m: int|
                0 <= m < a.npages() ==> (#[trigger] a.pages@[m]).ref_cnt == 0 && a.pages@[m].ord
                    == 0,
    {
        proof {
            let k = choose|k: usize| k < 64 && len == (1usize << k);
            assert((1usize << k) >= 4096 && k < 64 ==> (1usize << k) % 4096 == 0)
                by (bit_vector);
            assert(len % 4096 == 0);
            lemma_fundamental_div_mod(len as int, 4096);
            vstd::arithmetic::div_mod::lemma_div_is_ordered(
                len as int,
                0x8000_0000,
                4096,
            );
        }
        let npages = len / 4096;
        let mut pages: Vec<Page> = Vec::new();
        let mut i: usize = 0;
        while i < npages
            invariant
                pages@.len() == i,
                i <= npages,
                forall|m: int|
                    0 <= m < i ==> #[trigger] pages@[m] == (Page {
                        idx: m as usize,
                        ref_cnt: 0,
                        ord: 0,
                        next: NIL,
                        prev: NIL,
                    }),
            decreases npages - i,
        {
            pages.push(Page::new(i, 0));
            i = i + 1;
        }
        let mut free_lists: Vec<usize> = Vec::new();
        let mut o: usize = 0;
        while o < 9
            invariant
                free_lists@.len() == o,
                o <= 9,
                forall|m: int| 0 <= m < o ==> free_lists@[m] == NIL,
            decreases 9 - o,
        {
            free_lists.push(NIL);
            o = o + 1;
        }
        proof {
            assert(npages <= MAX_PAGES);
            assert(npages * PAGE_META_BYTES <= MAX_PAGES * PAGE_META_BYTES) by (nonlinear_arith)
                requires
                    npages <= MAX_PAGES,
            ;
        }
        let meta_size = npages * PAGE_META_BYTES;
        let mut a = Allocator {
            pages,
            free_lists,
            size: len,
            meta_size,
            fl: Ghost(Seq::new(9, |x: int| Seq::empty())),
        };
        proof {
            assert(a.npages() * 4096 == len) by (nonlinear_arith)
                requires
                    a.npages() == len as int / 4096,
                    len as int == 4096 * (len as int / 4096),
            ;
            assert forall|m: int| !a.in_some_list(m) by {
                if a.in_some_list(m) {
                    let (o2, j2): (int, int) = choose|o2: int, j2: int|
                        0 <= o2 < 9 && 0 <= j2 < a.fl@[o2].len() && #[trigger] a.fl@[o2][j2]
                            == m;
                }
            }
            assert forall|o2: int| 0 <= o2 < 9 implies a.head_ok(o2) by {}
            assert forall|o2: int| 0 <= o2 < 9 implies (#[trigger] a.fl@[o2]).no_duplicates()
                by {
                assert(a.fl@[o2].len() == 0);
            }
            assert(a.wf());
        }
        a.init_free_list();
        a
    }

    /// Seed the free lists: reserve whole largest blocks for the page
    /// table, then register every remaining whole largest block on the
    /// order-0 list, lowest address first.
    fn init_free_list(&mut self)
        requires
            old(self).wf(),
            old(self).npages() >= 1,
            forall|m: int|
                0 <= m < old(self).npages() ==> #[trigger] old(self).pages@[m] == (Page {
                    idx: m as usize,
                    ref_cnt: 0,
                    ord: 0,
                    next: NIL,
                    prev: NIL,
                }),
            forall|o: int| 0 <= o < 9 ==> old(self).fl@[o].len() == 0,
        ensures
            final(self).wf(),
            final(self).size == old(self).size,
            final(self).meta_size == old(self).meta_size,
            final(self).pages@.len() == old(self).pages@.len(),
            final(self).fl@[0] == initial_list0(old(self).size as int),
            forall|o: int| 1 <= o < 9 ==> final(self).fl@[o].len() == 0,
            forall|m: int|
                0 <= m < final(self).npages() ==> (#[trigger] final(self).pages@[m]).ref_cnt
                    == 0 && final(self).pages@[m].ord == 0,
    {
        let big = MAX_BLOCK_BYTES;
        proof {
            assert(self.meta_size >= 40) by (nonlinear_arith)
                requires
                    self.meta_size == self.npages() * 40,
                    self.npages() >= 1,
            ;
        }
        let rounded = align_f(self.meta_size, big);
        let meta_blocks = rounded / big;
        let total_blocks = self.size / big;
        proof {
            lemma_ceil_div(self.meta_size as int, big as int, rounded as int);
            assert(meta_blocks == meta_blocks_of(old(self).size as int)) by {
                let sz = old(self).size as int;
                let np = old(self).npages();
                lemma_fundamental_div_mod(sz, 4096);
                assert(np == sz / 4096) by (nonlinear_arith)
                    requires
                        sz == np * 4096,
                        sz == 4096 * (sz / 4096) + sz % 4096,
                        0 <= sz % 4096 < 4096,
                ;
            }
            assert(self.reserved_units() == meta_blocks * 256);
            assert(total_blocks * 256 <= self.npages()) by {
                lemma_fundamental_div_mod(self.size as int, 1048576);
                lemma_fundamental_div_mod(self.size as int, 4096);
                assert(total_blocks * 256 <= self.size as int / 4096) by (nonlinear_arith)
                    requires
                        self.size as int == 1048576 * (self.size as int / 1048576) + self.size
                            as int % 1048576,
                        self.size as int == 4096 * (self.size as int / 4096) + self.size as int
                            % 4096,
                        0 <= self.size as int % 1048576,
                        self.size as int % 4096 == 0,
                        total_blocks == self.size as int / 1048576,
                ;
            }
        }
        let mut k = total_blocks;
        while k > meta_blocks
            invariant
                self.wf(),
                self.size == old(self).size,
                self.meta_size == old(self).meta_size,
                self.pages@.len() == old(self).pages@.len(),
                meta_blocks == meta_blocks_of(old(self).size as int),
                total_blocks == arena_blocks_of(old(self).size as int),
                k <= total_blocks,
                total_blocks >= meta_blocks ==> k >= meta_blocks,
                total_blocks < meta_blocks ==> k == total_blocks,
                self.reserved_units() == meta_blocks * 256,
                total_blocks as int * 256 <= self.npages(),
                self.fl@.len() == 9,
                self.fl@[0] == Seq::new(
                    (total_blocks - k) as nat,
                    |q: int| ((k + q) * 256) as usize,
                ),
                forall|o: int| 1 <= o < 9 ==> self.fl@[o].len() == 0,
                forall|m: int|
                    0 <= m < self.npages() ==> (#[trigger] self.pages@[m]).ref_cnt == 0
                        && self.pages@[m].ord == 0,
            decreases k,
        {
            k = k - 1;
            proof {
                assert((k + 1) * 256 <= total_blocks * 256) by (nonlinear_arith)
                    requires
                        k + 1 <= total_blocks,
                ;
                assert(k * 256 + 256 == (k + 1) * 256) by (nonlinear_arith);
                assert(k * 256 < 0x8_0000) by (nonlinear_arith)
                    requires
                        (k as int) * 256 + 256 <= MAX_PAGES as int,
                ;
            }
            let start = k * 256;
            let ghost pre = *self;
            proof {
                lemma_block_table();
                lemma_mod_multiples_basic(k as int, 256);
                assert(start as int == (k as int) * 256);
                assert(pre.reserved_units() <= start as int) by (nonlinear_arith)
                    requires
                        pre.reserved_units() == (meta_blocks as int) * 256,
                        meta_blocks <= k,
                        start as int == (k as int) * 256,
                ;
                // every current block is a seeded order-0 block above `start`
                assert forall|x: int| #[trigger] pre.is_block_start(x) implies start as int + 256
                    <= x by {
                    assert(pre.in_some_list(x));
                    let (o2, j2): (int, int) = choose|o2: int, j2: int|
                        0 <= o2 < 9 && 0 <= j2 < pre.fl@[o2].len() && #[trigger] pre.fl@[o2][j2]
                            == x;
                    assert(o2 == 0);
                    assert(x == (k + 1 + j2) * 256);
                    assert((k + 1) * 256 <= (k + 1 + j2) * 256) by (nonlinear_arith)
                        requires
                            j2 >= 0,
                    ;
                }
                assert(!pre.in_some_list(start as int)) by {
                    if pre.in_some_list(start as int) {
                        assert(pre.is_block_start(start as int));
                    }
                }
                assert(pre.floating(start as int, 0)) by {
                    assert(pre.range_free(start as int, start as int + 256)) by {
                        assert forall|b: int| #[trigger] pre.is_block_start(b) implies b
                            + block_units(pre.pages@[b].ord as int) <= start as int
                            || start as int + 256 <= b by {}
                    }
                }
            }
            self.add_to_fl(start);
            proof {
                let newlist = self.fl@[0];
                let want = Seq::new((total_blocks - k) as nat, |q: int| ((k + q) * 256) as usize);
                assert(newlist =~= want) by {
                    assert(newlist.len() == want.len());
                    assert forall|q: int| 0 <= q < newlist.len() implies newlist[q] == want[q] by {
                        if q == 0 {
                            assert(newlist[0] == start);
                        } else {
                            assert(newlist[q] == pre.fl@[0][q - 1]);
                            assert(pre.fl@[0][q - 1] == ((k + 1 + (q - 1)) * 256) as usize);
                            assert((k + 1 + (q - 1)) * 256 == (k + q) * 256);
                        }
                    }
                }
            }
        }
        proof {
            assert(self.fl@[0] =~= initial_list0(old(self).size as int)) by {
                if total_blocks >= meta_blocks {
                    assert(k == meta_blocks);
                } else {
                    assert(k == total_blocks);
                    assert(self.fl@[0].len() == 0);
                    assert(initial_list0(old(self).size as int).len() == 0);
                }
            }
        }
    }

    /// Whether `addr` is the byte offset of a currently allocated block.
    pub fn is_allocated(&self, addr: usize) -> (r: bool)
        requires
            self.wf(),
        ensures
            r == (addr % 4096 == 0 && (addr as int) < self.size && self.pages@[addr as int
                / 4096].ref_cnt > 0),
    {
        if addr % 4096 != 0 {
            return false;
        }
        if addr >= self.size {
            return false;
        }
        let idx = addr / 4096;
        proof {
            vstd::arithmetic::div_mod::lemma_multiply_divide_lt(addr as int, 4096, self.npages());
            assert(4096 * self.npages() == self.npages() * 4096) by (nonlinear_arith);
        }
        self.pages[idx].ref_cnt > 0
    }

    /// The unit indices on order `o`'s free list, head first; for
    /// inspection and tests.
    pub fn free_list_contents(&self, o: usize) -> (r: Vec<usize>)
        requires
            self.wf(),
            o < 9,
        ensures
            r@ == self.fl@[o as int],
    {
        let ghost lst = self.fl@[o as int];
        let mut r: Vec<usize> = Vec::new();
        let mut cur = self.free_lists[o];
        proof {
            assert(self.head_ok(o as int));
            if lst.len() > 0 {
                assert(self.member_ok(o as int, 0));
                assert(self.npages() < NIL);
            }
        }
        while cur != NIL
            invariant
                self.wf(),
                o < 9,
                lst == self.fl@[o as int],
                r@.len() <= lst.len(),
                r@ == lst.take(r@.len() as int),
                cur == (if r@.len() == lst.len() {
                    NIL
                } else {
                    lst[r@.len() as int]
                }),
            decreases lst.len() - r@.len(),
        {
            let ghost j = r@.len() as int;
            proof {
                assert(j < lst.len());
                assert(self.member_ok(o as int, j));
                if j < lst.len() - 1 {
                    assert(self.member_ok(o as int, j + 1));
                    assert(self.npages() < NIL);
                }
            }
            r.push(cur);
            cur = self.pages[cur].next;
            proof {
                assert(r@ =~= lst.take(j + 1));
            }
        }
        proof {
            if r@.len() < lst.len() {
                assert(self.member_ok(o as int, r@.len() as int));
                assert(self.npages() < NIL);
            }
            assert(r@.len() == lst.len());
            assert(r@ =~= lst);
        }
        r
    }

    /// Units of a block at order `o`.
    fn units_of(o: usize) -> (r: usize)
        requires
            o <= 8,
        ensures
            r as int == block_units(o as int),
    {
        1usize << (8 - o)
    }

    /// Map an accepted request size to its order: round up to the next
    /// multiple of the unit, then to the next power of two, and take
    /// the class of that block size.
    pub fn get_ord(n: usize) -> (r: usize)
        requires
            1 <= n <= MAX_BLOCK_BYTES,
        ensures
            r as int == order_of(n as int),
            r <= 8,
    {
        if n <= 4096 {
            8
        } else if n <= 8192 {
            7
        } else if n <= 16384 {
            6
        } else if n <= 32768 {
            5
        } else if n <= 65536 {
            4
        } else if n <= 131072 {
            3
        } else if n <= 262144 {
            2
        } else if n <= 524288 {
            1
        } else {
            0
        }
    }

    /// Byte offset of the buddy of the block at byte offset `addr`,
    /// order `ord`: the offset differs in exactly the bit of the block
    /// size, so the buddy lies one block above or below.
    pub fn get_buddy(addr: usize, ord: usize) -> (r: usize)
        requires
            ord <= 8,
            addr as int % block_bytes(ord as int) == 0,
            addr < 0x8000_0000usize,
        ensures
            r as int == (if addr as int % (2 * block_bytes(ord as int)) == 0 {
                addr as int + block_bytes(ord as int)
            } else {
                addr as int - block_bytes(ord as int)
            }),
            addr as int % (2 * block_bytes(ord as int)) != 0 ==> addr as int >= block_bytes(
                ord as int,
            ),
    {
        let k = 8 - ord;
        proof {
            assert(block_bytes(ord as int) == (4096usize << ((8 - ord as int) as usize)) as int);
            assert((8 - ord as int) as usize == k);
            let a = addr;
            assert((a % (4096usize << k) == 0 && a < 0x8000_0000usize && k <= 8) ==> ((a % (
            8192usize << k) == 0 ==> a ^ (4096usize << k) == a + (4096usize << k)) && (a % (
            8192usize << k) != 0 ==> a >= (4096usize << k) && a ^ (4096usize << k) == a - (
            4096usize << k)) && (8192usize << k) == (4096usize << k) + (4096usize << k)))
                by (bit_vector);
            assert(2 * block_bytes(ord as int) == (8192usize << k) as int);
        }
        addr ^ (4096usize << k)
    }

    /// Split the detached block `i` from order `cur_ord` down to order
    /// `t_ord`, leaving the upper half of every step in its order's
    /// free list as spare capacity; `i` stays detached throughout.
    fn split_to(&mut self, i: usize, cur_ord: usize, t_ord: usize)
        requires
            old(self).wf(),
            old(self).floating(i as int, cur_ord as int),
            cur_ord < t_ord <= 8,
        ensures
            final(self).wf(),
            final(self).floating(i as int, t_ord as int),
            final(self).size == old(self).size,
            final(self).meta_size == old(self).meta_size,
            final(self).pages@.len() == old(self).pages@.len(),
            final(self).free_capacity() == old(self).free_capacity() + block_bytes(
                cur_ord as int,
            ) - block_bytes(t_ord as int),
            forall|m: int|
                0 <= m < old(self).npages() ==> {
                    &&& (#[trigger] final(self).pages@[m]).ref_cnt == old(self).pages@[m].ref_cnt
                    &&& final(self).pages@[m].idx == old(self).pages@[m].idx
                },
            forall|o2: int|
                0 <= o2 < 9 && !(cur_ord < o2 <= t_ord) ==> final(self).fl@[o2] == old(
                    self,
                ).fl@[o2],
            forall|o2: int|
                cur_ord < o2 <= t_ord ==> final(self).fl@[o2] == seq![
                    ((i as int + block_units(o2)) as usize),
                ].add(old(self).fl@[o2]),
    {
        let mut cur = cur_ord;
        while cur < t_ord
            invariant
                self.wf(),
                cur_ord <= cur <= t_ord <= 8,
                self.floating(i as int, cur as int),
                self.size == old(self).size,
                self.meta_size == old(self).meta_size,
                self.pages@.len() == old(self).pages@.len(),
                self.free_capacity() == old(self).free_capacity() + block_bytes(cur_ord as int)
                    - block_bytes(cur as int),
                forall|m: int|
                    0 <= m < old(self).npages() ==> {
                        &&& (#[trigger] self.pages@[m]).ref_cnt == old(self).pages@[m].ref_cnt
                        &&& self.pages@[m].idx == old(self).pages@[m].idx
                    },
                forall|o2: int|
                    0 <= o2 < 9 && !(cur_ord < o2 <= cur) ==> self.fl@[o2] == old(self).fl@[o2],
                forall|o2: int|
                    cur_ord < o2 <= cur ==> self.fl@[o2] == seq![
                        ((i as int + block_units(o2)) as usize),
                    ].add(old(self).fl@[o2]),
            decreases t_ord - cur,
        {
            let ghost pre = *self;
            let half = Self::units_of(cur + 1);
            proof {
                lemma_block_table();
            }
            let upper = i + half;
            proof {
                // the upper half starts strictly inside the floating
                // block's range, so it is no current block's start
                assert(!pre.is_block_start(upper as int)) by {
                    if pre.is_block_start(upper as int) {
                        assert(pre.range_free(i as int, i as int + block_units(cur as int)));
                    }
                }
                assert(pre.pages@[upper as int].ref_cnt == 0);
                assert(!pre.in_some_list(upper as int));
                assert(pre.pages@[upper as int].next == NIL && pre.pages@[upper as int].prev
                    == NIL);
            }
            self.pages[i].ord = cur + 1;
            self.pages[upper].ord = cur + 1;
            proof {
                let post = *self;
                assert forall|m: int|
                    0 <= m < pre.npages() && m != i && m != upper implies post.pages@[m]
                    == pre.pages@[m] by {}
                // neither touched page is a member or allocated, so the
                // list structure and block set are untouched
                assert forall|o2: int, j2: int|
                    0 <= o2 < 9 && 0 <= j2 < post.fl@[o2].len() implies post.member_ok(o2, j2) by {
                    assert(pre.member_ok(o2, j2));
                    let m = pre.fl@[o2][j2] as int;
                    assert(pre.in_some_list(m)) by {
                        assert(pre.fl@[o2][j2] == m);
                    }
                    assert(m != i as int && m != upper as int);
                    assert(post.pages@[m] == pre.pages@[m]);
                }
                Self::lemma_same_lists(pre, post);
                assert forall|m: int| 0 <= m < post.npages() implies post.allocated_ok(m) by {
                    assert(pre.allocated_ok(m));
                    if post.pages@[m].ref_cnt > 0 {
                        assert(m != i as int && m != upper as int);
                        assert(post.pages@[m] == pre.pages@[m]);
                    }
                }
                assert forall|m: int| 0 <= m < post.npages() implies (#[trigger] post.pages@[m]).idx
                    == m by {}
                assert forall|b: int| post.is_block_start(b) implies pre.is_block_start(b)
                    && post.pages@[b] == pre.pages@[b] by {
                    assert(b != i as int && b != upper as int);
                }
                assert forall|i1: int, i2: int|
                    #[trigger] post.is_block_start(i1) && #[trigger] post.is_block_start(i2) && i1
                        != i2 implies i1 + block_units(post.pages@[i1].ord as int) <= i2 || i2
                        + block_units(post.pages@[i2].ord as int) <= i1 by {
                    assert(pre.is_block_start(i1) && pre.is_block_start(i2));
                }
                assert forall|o2: int| 0 <= o2 < 9 implies post.head_ok(o2) by {
                    assert(pre.head_ok(o2));
                }
                assert forall|m: int|
                    0 <= m < post.npages() && !(#[trigger] post.in_some_list(
                        m,
                    )) implies post.pages@[m].next == NIL && post.pages@[m].prev == NIL by {
                    assert(!pre.in_some_list(m));
                    if m != i as int && m != upper as int {
                        assert(post.pages@[m] == pre.pages@[m]);
                    }
                }
                assert(post.wf());
                // both halves are valid floating blocks at the next order
                lemma_align_widen(i as int, cur as int, cur as int + 1);
                lemma_mod_add_self(i as int, 1, half as int);
                assert(post.floating(i as int, cur as int + 1)) by {
                    assert(post.range_free(i as int, i as int + half)) by {
                        assert forall|b: int| #[trigger] post.is_block_start(b) implies b
                            + block_units(post.pages@[b].ord as int) <= i as int || i as int + half
                            <= b by {
                            assert(pre.range_free(i as int, i as int + block_units(cur as int)));
                            assert(pre.is_block_start(b));
                        }
                    }
                }
                assert(post.floating(upper as int, cur as int + 1)) by {
                    assert(post.range_free(upper as int, upper as int + half)) by {
                        assert forall|b: int| #[trigger] post.is_block_start(b) implies b
                            + block_units(post.pages@[b].ord as int) <= upper as int
                            || upper as int + half <= b by {
                            assert(pre.range_free(i as int, i as int + block_units(cur as int)));
                            assert(pre.is_block_start(b));
                        }
                    }
                }
            }
            let ghost mid = *self;
            self.add_to_fl(upper);
            proof {
                lemma_block_table();
                assert(self.floating(i as int, cur as int + 1)) by {
                    assert(self.pages@[i as int] == mid.pages@[i as int]);
                    assert(!self.in_some_list(i as int));
                    assert(self.range_free(i as int, i as int + half)) by {
                        assert forall|b: int| #[trigger] self.is_block_start(b) implies b
                            + block_units(self.pages@[b].ord as int) <= i as int || i as int + half
                            <= b by {
                            assert(self.pages@[b].ord == mid.pages@[b].ord);
                            if b == upper as int {
                                assert(i as int + half <= b);
                            } else {
                                assert(mid.is_block_start(b)) by {
                                    if mid.pages@[b].ref_cnt > 0 {
                                    } else {
                                        assert(self.in_some_list(b));
                                    }
                                }
                                assert(mid.range_free(
                                    i as int,
                                    i as int + block_units(cur as int + 1),
                                ));
                            }
                        }
                    }
                }
            }
            cur = cur + 1;
        }
    }

    /// Mark the detached block `i` (order `ord`) allocated and return
    /// its byte offset within the arena.
    fn take_block(&mut self, i: usize, ord: usize) -> (addr: usize)
        requires
            old(self).wf(),
            old(self).floating(i as int, ord as int),
        ensures
            final(self).wf(),
            addr == i * 4096,
            addr as int % block_bytes(ord as int) == 0,
            addr as int / 4096 == i as int,
            final(self).reserved_units() * 4096 <= addr as int,
            addr as int + block_bytes(ord as int) <= final(self).size,
            final(self).size == old(self).size,
            final(self).meta_size == old(self).meta_size,
            final(self).pages@.len() == old(self).pages@.len(),
            final(self).fl@ == old(self).fl@,
            final(self).free_lists@ == old(self).free_lists@,
            final(self).pages@[i as int].ref_cnt == 1,
            final(self).pages@[i as int].ord == ord,
            final(self).free_capacity() == old(self).free_capacity(),
            forall|m: int|
                0 <= m < old(self).npages() && m != i ==> final(self).pages@[m] == old(
                    self,
                ).pages@[m],
    {
        let ghost pre = *old(self);
        self.pages[i].ref_cnt = 1;
        proof {
            let post = *self;
            assert forall|m: int| 0 <= m < pre.npages() && m != i implies post.pages@[m]
                == pre.pages@[m] by {}
            assert forall|o2: int, j2: int|
                0 <= o2 < 9 && 0 <= j2 < post.fl@[o2].len() implies post.member_ok(o2, j2) by {
                assert(pre.member_ok(o2, j2));
                let m = pre.fl@[o2][j2] as int;
                assert(pre.in_some_list(m)) by {
                    assert(pre.fl@[o2][j2] == m);
                }
                assert(m != i as int);
                assert(post.pages@[m] == pre.pages@[m]);
            }
            Self::lemma_same_lists(pre, post);
            assert forall|m: int| 0 <= m < post.npages() implies post.allocated_ok(m) by {
                assert(pre.allocated_ok(m));
                if m == i as int {
                    assert(post.allocated_ok(m));
                } else if post.pages@[m].ref_cnt > 0 {
                    assert(post.pages@[m] == pre.pages@[m]);
                }
            }
            assert forall|m: int| 0 <= m < post.npages() implies (#[trigger] post.pages@[m]).idx
                == m by {}
            assert forall|b: int| post.is_block_start(b) && b != i implies pre.is_block_start(b)
                && post.pages@[b] == pre.pages@[b] by {}
            assert forall|i1: int, i2: int|
                #[trigger] post.is_block_start(i1) && #[trigger] post.is_block_start(i2) && i1
                    != i2 implies i1 + block_units(post.pages@[i1].ord as int) <= i2 || i2
                    + block_units(post.pages@[i2].ord as int) <= i1 by {
                if i1 == i as int {
                    assert(pre.range_free(i1, i1 + block_units(pre.pages@[i1].ord as int)));
                } else if i2 == i as int {
                    assert(pre.range_free(i2, i2 + block_units(pre.pages@[i2].ord as int)));
                } else {
                    assert(pre.is_block_start(i1) && pre.is_block_start(i2));
                }
            }
            assert forall|o2: int| 0 <= o2 < 9 implies post.head_ok(o2) by {
                assert(pre.head_ok(o2));
            }
            assert forall|m: int|
                0 <= m < post.npages() && !(#[trigger] post.in_some_list(
                    m,
                )) implies post.pages@[m].next == NIL && post.pages@[m].prev == NIL by {
                assert(!pre.in_some_list(m));
                if m != i as int {
                    assert(post.pages@[m] == pre.pages@[m]);
                }
            }
            assert(post.wf());
            // byte arithmetic for the returned offset
            lemma_block_table();
            lemma_mod_scale(i as int, block_units(ord as int), 4096);
            assert(i * 4096 == 4096 * (i as int)) by (nonlinear_arith);
            assert((i as int + block_units(ord as int)) * 4096 <= post.npages() * 4096)
                by (nonlinear_arith)
                requires
                    i as int + block_units(ord as int) <= post.npages(),
            ;
            assert(post.reserved_units() * 4096 <= i * 4096) by (nonlinear_arith)
                requires
                    post.reserved_units() <= i as int,
            ;
            assert(i * 4096 + block_bytes(ord as int) == (i as int + block_units(ord as int))
                * 4096) by (nonlinear_arith)
                requires
                    block_bytes(ord as int) == 4096 * block_units(ord as int),
            ;
            assert(i < 0x8_0000);
        }
        i * 4096
    }

    /// Allocate a block of at least `n` bytes.
    ///
    /// The result is the byte offset of a block of the order `n` maps
    /// to, aligned to that order's byte size, inside the arena and
    /// beyond the reserved metadata prefix.  A rejected or unsatisfiable
    /// request leaves the allocator untouched: requests outside
    /// `1..=MAX_BLOCK_BYTES` fail with `InvalidSize`, and an accepted
    /// request fails with `ArenaExhausted` exactly when no free list at
    /// the needed order or below holds a block.
    #[verifier::rlimit(60)]
    pub fn allocate(&mut self, n: usize) -> (r: Result<usize, AllocError>)
        requires
            old(self).wf(),
        ensures
            final(self).wf(),
            final(self).size == old(self).size,
            final(self).meta_size == old(self).meta_size,
            final(self).pages@.len() == old(self).pages@.len(),
            match r {
                Err(e) => {
                    &&& final(self).state_eq(*old(self))
                    &&& (e == AllocError::InvalidSize <==> (n == 0 || n > MAX_BLOCK_BYTES))
                    &&& (e == AllocError::ArenaExhausted ==> forall|o: int|
                        0 <= o <= order_of(n as int) ==> old(self).fl@[o].len() == 0)
                },
                Ok(addr) => {
                    let ord = order_of(n as int);
                    &&& 1 <= n <= MAX_BLOCK_BYTES
                    &&& n <= block_bytes(ord)
                    &&& old(self).scan_order(ord) >= 0
                    &&& addr == old(self).fl@[old(self).scan_order(ord)][0] * 4096
                    &&& final(self).fl@ == Self::lists_after_alloc(
                        old(self).fl@,
                        old(self).scan_order(ord),
                        ord,
                    )
                    &&& (old(self).fl@[ord].len() > 0 ==> final(self).fl@ == old(self).fl@.update(
                        ord,
                        old(self).fl@[ord].remove(0),
                    ))
                    &&& addr as int % block_bytes(ord) == 0
                    &&& old(self).reserved_units() * 4096 <= addr as int
                    &&& addr as int + block_bytes(ord) <= old(self).size
                    &&& old(self).pages@[addr as int / 4096].ref_cnt == 0
                    &&& final(self).pages@[addr as int / 4096].ref_cnt == 1
                    &&& final(self).pages@[addr as int / 4096].ord == ord
                    &&& final(self).free_capacity() == old(self).free_capacity() - block_bytes(ord)
                    &&& exists|o: int| 0 <= o <= ord && old(self).fl@[o].len() > 0
                    &&& forall|m: int|
                        0 <= m < old(self).npages() && m != addr as int / 4096 ==> (
                        #[trigger] final(self).pages@[m]).ref_cnt == old(self).pages@[m].ref_cnt
                },
            },
    {
        if n == 0 || n > MAX_BLOCK_BYTES {
            return Err(AllocError::InvalidSize);
        }
        let ord = Self::get_ord(n);
        proof {
            lemma_order_bounds(n as int);
        }
        let direct = self.remove_first(ord);
        if let Some(i) = direct {
            let addr = self.take_block(i, ord);
            proof {
                assert(old(self).fl@[ord as int][0] == i);
                assert(old(self).member_ok(ord as int, 0));
                old(self).lemma_scan_order_found(ord as int, ord as int);
                assert(exists|o: int|
                    0 <= o <= ord as int && old(self).fl@[o].len() > 0) by {
                    assert(old(self).fl@[ord as int].len() > 0);
                }
                assert(self.fl@ =~~= Self::lists_after_alloc(
                    old(self).fl@,
                    ord as int,
                    ord as int,
                ));
            }
            return Ok(addr);
        }
        if ord == 0 {
            return Err(AllocError::ArenaExhausted);
        }
        let mut o = ord - 1;
        loop
            invariant
                self.wf(),
                self.state_eq(*old(self)),
                0 <= o < ord <= 8,
                1 <= n <= MAX_BLOCK_BYTES,
                ord as int == order_of(n as int),
                forall|oo: int| o < oo <= ord ==> old(self).fl@[oo].len() == 0,
            decreases o,
        {
            let ghost entry = *self;
            let found = self.remove_first(o);
            if let Some(i) = found {
                proof {
                    assert(entry.fl@ == old(self).fl@);
                    assert(entry.member_ok(o as int, 0));
                }
                self.split_to(i, o, ord);
                let addr = self.take_block(i, ord);
                proof {
                    lemma_block_table();
                    assert(old(self).fl@[o as int].len() > 0);
                    assert(old(self).member_ok(o as int, 0));
                    old(self).lemma_scan_order_found(o as int, ord as int);
                    assert(i == old(self).fl@[o as int][0]);
                    assert(exists|oo: int|
                        0 <= oo <= ord as int && old(self).fl@[oo].len() > 0) by {
                        assert(old(self).fl@[o as int].len() > 0);
                    }
                    assert(self.fl@ =~~= Self::lists_after_alloc(
                        old(self).fl@,
                        o as int,
                        ord as int,
                    )) by {
                        let want = Self::lists_after_alloc(old(self).fl@, o as int, ord as int);
                        assert forall|o2: int| 0 <= o2 < 9 implies self.fl@[o2] =~= want[o2] by {
                            if (o as int) < o2 <= ord as int {
                                assert(self.fl@[o2] == seq![
                                    ((i as int + block_units(o2)) as usize),
                                ].add(entry.fl@.update(o as int, entry.fl@[o as int].remove(0))[
                                    o2
                                ]));
                            }
                        }
                    }
                }
                return Ok(addr);
            }
            if o == 0 {
                return Err(AllocError::ArenaExhausted);
            }
            o = o - 1;
        }
    }

    /// Take the detached idle block `i` upward through the orders,
    /// merging it with its buddy as long as the buddy is an idle,
    /// linked block of the same order, then insert the survivor into
    /// its order's free list.
    #[verifier::rlimit(100)]
    fn join(&mut self, i: usize)
        requires
            old(self).wf(),
            old(self).floating(i as int, old(self).pages@[i as int].ord as int),
        ensures
            final(self).wf(),
            final(self).size == old(self).size,
            final(self).meta_size == old(self).meta_size,
            final(self).pages@.len() == old(self).pages@.len(),
            final(self).free_capacity() == old(self).free_capacity() + block_bytes(
                old(self).pages@[i as int].ord as int,
            ),
            forall|m: int|
                0 <= m < old(self).npages() ==> {
                    &&& (#[trigger] final(self).pages@[m]).ref_cnt == old(self).pages@[m].ref_cnt
                    &&& final(self).pages@[m].idx == old(self).pages@[m].idx
                },
            !old(self).mergeable(i as int, old(self).pages@[i as int].ord as int) ==> final(self)
                .fl@ == old(self).fl@.update(
                old(self).pages@[i as int].ord as int,
                seq![i].add(old(self).fl@[old(self).pages@[i as int].ord as int]),
            ),
            old(self).mergeable(i as int, old(self).pages@[i as int].ord as int) ==> forall|
                j: int,
            |
                0 <= j < final(self).fl@[old(self).pages@[i as int].ord as int].len()
                    ==> final(self).fl@[old(self).pages@[i as int].ord as int][j] != i,
            exists|f: int|
                #[trigger] Self::coalesce_outcome(
                    *old(self),
                    *final(self),
                    i as int,
                    old(self).pages@[i as int].ord as int,
                    f,
                ),
    {
        let ghost o0 = old(self).pages@[i as int].ord as int;
        proof {
            lemma_block_table();
        }
        let mut cur = i;
        loop
            invariant
                self.wf(),
                cur < self.pages@.len(),
                0 <= o0 <= 8,
                (i as int) < old(self).npages(),
                o0 == old(self).pages@[i as int].ord as int,
                self.floating(cur as int, self.pages@[cur as int].ord as int),
                self.size == old(self).size,
                self.meta_size == old(self).meta_size,
                self.pages@.len() == old(self).pages@.len(),
                self.free_capacity() + block_bytes(self.pages@[cur as int].ord as int) == old(
                    self,
                ).free_capacity() + block_bytes(o0),
                forall|m: int|
                    0 <= m < old(self).npages() ==> {
                        &&& (#[trigger] self.pages@[m]).ref_cnt == old(self).pages@[m].ref_cnt
                        &&& self.pages@[m].idx == old(self).pages@[m].idx
                    },
                !old(self).mergeable(i as int, o0) ==> (cur == i && self.state_eq(*old(self))
                    && self.pages@[cur as int].ord == o0),
                old(self).mergeable(i as int, o0) ==> ((cur == i && self.state_eq(*old(self))
                    && self.pages@[cur as int].ord == o0) || (self.pages@[cur as int].ord as int)
                    < o0),
                old(self).mergeable(i as int, o0) ==> forall|j: int|
                    0 <= j < self.fl@[o0].len() ==> self.fl@[o0][j] != i,
                (self.pages@[cur as int].ord as int) <= o0,
                cur as int == align_down(i as int, self.pages@[cur as int].ord as int),
                (cur as int) <= (i as int) < cur as int + block_units(
                    self.pages@[cur as int].ord as int,
                ),
                forall|o2: int|
                    0 <= o2 < 9 && !((self.pages@[cur as int].ord as int) < o2 <= o0)
                        ==> #[trigger] self.fl@[o2] == old(self).fl@[o2],
                forall|o2: int|
                    (self.pages@[cur as int].ord as int) < o2 <= o0
                        ==> #[trigger] Self::buddy_removed(*old(self), *self, i as int, o2),
                forall|m: int|
                    #![trigger self.pages@[m]]
                    0 <= m < old(self).npages() && !(cur as int <= m < cur as int + block_units(
                        self.pages@[cur as int].ord as int,
                    )) ==> self.pages@[m].ord == old(self).pages@[m].ord,
            decreases self.pages@[cur as int].ord,
        {
            let ghost entry = *self;
            let o = self.pages[cur].ord;
            if o == 0 {
                self.add_to_fl(cur);
                proof {
                    if old(self).mergeable(i as int, o0) {
                        assert(o0 >= 1);
                        assert(self.fl@[o0] == entry.fl@[o0]);
                    }
                    Self::lemma_join_exit(*old(self), entry, *self, i as int, o0, cur, 0);
                }
                return;
            }
            proof {
                lemma_block_table();
                lemma_mod_scale(cur as int, block_units(o as int), 4096);
                assert(cur * 4096 == 4096 * (cur as int)) by (nonlinear_arith);
                assert(cur * 4096 < 0x8000_0000) by (nonlinear_arith)
                    requires
                        cur < 0x8_0000,
                ;
            }
            let b_addr = Self::get_buddy(cur * 4096, o);
            let b = b_addr / 4096;
            proof {
                lemma_merge_geom(cur as int, o as int);
                let u = block_units(o as int);
                // the byte-level buddy is the unit-level buddy
                assert(cur as int % (2 * u) == 0 <==> (4096 * (cur as int)) % (2 * block_bytes(
                    o as int,
                )) == 0) by {
                    if cur as int % (2 * u) == 0 {
                        lemma_mod_scale(cur as int, 2 * u, 4096);
                        assert(4096 * (2 * u) == 2 * block_bytes(o as int)) by (nonlinear_arith)
                            requires
                                block_bytes(o as int) == 4096 * u,
                        ;
                    } else {
                        if (4096 * (cur as int)) % (2 * block_bytes(o as int)) == 0 {
                            assert(2 * block_bytes(o as int) == 4096 * (2 * u))
                                by (nonlinear_arith)
                                requires
                                    block_bytes(o as int) == 4096 * u,
                            ;
                            lemma_mod_unscale(cur as int, 2 * u, 4096);
                        }
                    }
                }
                assert(b_addr as int == 4096 * buddy_of(cur as int, o as int))
                    by (nonlinear_arith)
                    requires
                        b_addr as int == (if (4096 * (cur as int)) % (2 * block_bytes(o as int))
                            == 0 {
                            4096 * (cur as int) + block_bytes(o as int)
                        } else {
                            4096 * (cur as int) - block_bytes(o as int)
                        }),
                        block_bytes(o as int) == 4096 * u,
                        buddy_of(cur as int, o as int) == (if cur as int % (2 * u) == 0 {
                            cur as int + u
                        } else {
                            cur as int - u
                        }),
                        (cur as int % (2 * u) == 0) == ((4096 * (cur as int)) % (2 * block_bytes(
                            o as int,
                        )) == 0),
                ;
                lemma_mod_scale(buddy_of(cur as int, o as int), 1, 4096);
                assert(b as int == buddy_of(cur as int, o as int));
            }
            let can_merge = if b < self.pages.len() {
                let bp = self.pages[b];
                bp.ord == o && bp.is_idle() && (self.free_lists[o] == b || bp.next != NIL
                    || bp.prev != NIL)
            } else {
                false
            };
            proof {
                if b < self.pages.len() && self.pages@[b as int].ord == o {
                    self.lemma_link_test(b, o as int);
                }
                assert(can_merge == self.mergeable(cur as int, o as int));
            }
            if !can_merge {
                self.add_to_fl(cur);
                proof {
                    if old(self).mergeable(i as int, o0) {
                        if cur == i && entry.state_eq(*old(self)) && entry.pages@[
                            cur as int
                        ].ord == o0 {
                            // on an untouched state the check cannot
                            // have said no to a mergeable buddy
                            Self::lemma_mergeable_congruent(
                                entry,
                                *old(self),
                                cur as int,
                                o as int,
                            );
                            assert(false);
                        }
                        assert((entry.pages@[cur as int].ord as int) < o0);
                        assert(self.fl@[o0] == entry.fl@[o0]);
                    }
                    Self::lemma_join_exit(
                        *old(self),
                        entry,
                        *self,
                        i as int,
                        o0,
                        cur,
                        o as int,
                    );
                }
                return;
            }
            proof {
                assert(self.in_some_list(b as int));
                let (o2, j2): (int, int) = choose|o2: int, j2: int|
                    0 <= o2 < 9 && 0 <= j2 < self.fl@[o2].len() && #[trigger] self.fl@[o2][j2]
                        == b;
                assert(self.member_ok(o2, j2));
                assert(o2 == o as int);
            }
            let ghost jpos = choose|j: int|
                0 <= j < self.fl@[o as int].len() && self.fl@[o as int][j] == b;
            self.remove_node(o, b, Ghost(jpos));
            proof {
                // both halves float; the lower one heads the merged block
                assert(self.floating(b as int, o as int));
                assert(self.floating(cur as int, o as int)) by {
                    assert(!entry.in_some_list(cur as int));
                    assert(self.pages@[cur as int] == entry.pages@[cur as int]);
                    assert(self.range_free(cur as int, cur as int + block_units(o as int))) by {
                        assert forall|x: int| #[trigger] self.is_block_start(x) implies x
                            + block_units(self.pages@[x].ord as int) <= cur as int || cur as int
                            + block_units(o as int) <= x by {
                            assert(entry.is_block_start(x)) by {
                                if self.pages@[x].ref_cnt == 0 {
                                    assert(self.in_some_list(x));
                                }
                            }
                            assert(self.pages@[x].ord == entry.pages@[x].ord);
                            assert(entry.range_free(
                                cur as int,
                                cur as int + block_units(o as int),
                            ));
                        }
                    }
                }
            }
            let survivor = if cur < b {
                cur
            } else {
                b
            };
            let ghost mid = *self;
            self.pages[survivor].ord = o - 1;
            proof {
                let post = *self;
                let u = block_units(o as int);
                lemma_merge_geom(cur as int, o as int);
                assert forall|m: int|
                    0 <= m < mid.npages() && m != survivor implies post.pages@[m] == mid.pages@[m]
                    by {}
                Self::lemma_same_lists(mid, post);
                assert(!mid.is_block_start(survivor as int));
                assert forall|o2: int, j2: int|
                    0 <= o2 < 9 && 0 <= j2 < post.fl@[o2].len() implies post.member_ok(o2, j2) by {
                    assert(mid.member_ok(o2, j2));
                    let m = mid.fl@[o2][j2] as int;
                    assert(mid.in_some_list(m)) by {
                        assert(mid.fl@[o2][j2] == m);
                    }
                    assert(m != survivor as int);
                    assert(post.pages@[m] == mid.pages@[m]);
                }
                assert forall|m: int| 0 <= m < post.npages() implies post.allocated_ok(m) by {
                    assert(mid.allocated_ok(m));
                    if post.pages@[m].ref_cnt > 0 {
                        assert(m != survivor as int);
                        assert(post.pages@[m] == mid.pages@[m]);
                    }
                }
                assert forall|m: int| 0 <= m < post.npages() implies (#[trigger] post.pages@[m]).idx
                    == m by {}
                assert forall|x: int| post.is_block_start(x) implies mid.is_block_start(x)
                    && post.pages@[x] == mid.pages@[x] by {
                    assert(x != survivor as int);
                }
                assert forall|i1: int, i2: int|
                    #[trigger] post.is_block_start(i1) && #[trigger] post.is_block_start(i2) && i1
                        != i2 implies i1 + block_units(post.pages@[i1].ord as int) <= i2 || i2
                        + block_units(post.pages@[i2].ord as int) <= i1 by {
                    assert(mid.is_block_start(i1) && mid.is_block_start(i2));
                }
                assert forall|o2: int| 0 <= o2 < 9 implies post.head_ok(o2) by {
                    assert(mid.head_ok(o2));
                }
                assert forall|m: int|
                    0 <= m < post.npages() && !(#[trigger] post.in_some_list(
                        m,
                    )) implies post.pages@[m].next == NIL && post.pages@[m].prev == NIL by {
                    assert(!mid.in_some_list(m));
                    if m != survivor as int {
                        assert(post.pages@[m] == mid.pages@[m]);
                    }
                }
                assert(post.wf());
                // the merged block floats at the next-lower order
                assert(post.floating(survivor as int, o as int - 1)) by {
                    assert(post.range_free(
                        survivor as int,
                        survivor as int + block_units(o as int - 1),
                    )) by {
                        assert forall|x: int| #[trigger] post.is_block_start(x) implies x
                            + block_units(post.pages@[x].ord as int) <= survivor as int
                            || survivor as int + block_units(o as int - 1) <= x by {
                            assert(mid.is_block_start(x));
                            assert(mid.range_free(cur as int, cur as int + u));
                            assert(mid.range_free(b as int, b as int + u));
                        }
                    }
                }
                // capacity bookkeeping across the merge step
                assert(post.free_capacity() + block_bytes(o as int - 1) == old(self)
                    .free_capacity() + block_bytes(o0)) by {
                    lemma_block_table();
                }
            }
            proof {
                if old(self).mergeable(i as int, o0) {
                    assert forall|j2: int| 0 <= j2 < self.fl@[o0].len() implies self.fl@[o0][j2]
                        != i by {
                        if o as int == o0 {
                            assert(self.fl@[o0] == entry.fl@[o0].remove(jpos));
                            if j2 < jpos {
                                assert(self.fl@[o0][j2] == entry.fl@[o0][j2]);
                            } else {
                                assert(self.fl@[o0][j2] == entry.fl@[o0][j2 + 1]);
                            }
                        } else {
                            assert(self.fl@[o0] == entry.fl@[o0]);
                        }
                    }
                }
                // the merged block is the aligned container of `i` one
                // order up, and the bookkeeping of crossed orders grows
                // by exactly this order's buddy removal
                lemma_block_table();
                lemma_merge_geom(cur as int, o as int);
                assert((survivor as int) <= (i as int) < survivor as int + block_units(
                    o as int - 1,
                )) by {
                    assert((cur as int) <= (i as int) < cur as int + block_units(o as int));
                }
                lemma_align_down_in(survivor as int, i as int, block_units(o as int - 1));
                assert(align_down(i as int, o as int - 1) == survivor as int);
                assert forall|o2: int|
                    0 <= o2 < 9 && !((o as int - 1) < o2 <= o0) implies #[trigger] self.fl@[o2]
                    == old(self).fl@[o2] by {
                    assert(self.fl@[o2] == entry.fl@[o2]);
                    assert(entry.fl@[o2] == old(self).fl@[o2]);
                }
                assert forall|o2: int|
                    (o as int - 1) < o2 <= o0 implies #[trigger] Self::buddy_removed(
                    *old(self),
                    *self,
                    i as int,
                    o2,
                ) by {
                    if o2 == o as int {
                        assert(entry.fl@[o2] == old(self).fl@[o2]);
                        assert(align_down(i as int, o as int) == cur as int);
                        assert(old(self).fl@[o2][jpos] == b);
                        assert(b == (buddy_of(align_down(i as int, o2), o2) as usize));
                        assert(self.fl@[o2] == old(self).fl@[o2].remove(jpos));
                        assert(0 <= jpos < old(self).fl@[o2].len() && old(self).fl@[o2][jpos]
                            == (buddy_of(align_down(i as int, o2), o2) as usize) && self.fl@[o2]
                            == old(self).fl@[o2].remove(jpos));
                    } else {
                        assert(Self::buddy_removed(*old(self), entry, i as int, o2));
                        assert(self.fl@[o2] == entry.fl@[o2]);
                        let j = choose|j: int|
                            0 <= j < old(self).fl@[o2].len() && #[trigger] old(self).fl@[o2][j]
                                == (buddy_of(align_down(i as int, o2), o2) as usize)
                                && entry.fl@[o2] == old(self).fl@[o2].remove(j);
                        assert(0 <= j < old(self).fl@[o2].len() && old(self).fl@[o2][j] == (
                        buddy_of(align_down(i as int, o2), o2) as usize) && self.fl@[o2] == old(
                            self,
                        ).fl@[o2].remove(j));
                    }
                }
                assert forall|m: int|
                    #![trigger self.pages@[m]]
                    0 <= m < old(self).npages() && !(survivor as int <= m < survivor as int
                        + block_units(o as int - 1)) implies self.pages@[m].ord == old(
                        self,
                    ).pages@[m].ord by {
                    assert(m != survivor as int);
                    assert(self.pages@[m].ord == mid.pages@[m].ord);
                    assert(mid.pages@[m].ord == entry.pages@[m].ord);
                    assert(!(cur as int <= m < cur as int + block_units(o as int)));
                }
            }
            cur = survivor;
        }
    }

    /// Release the allocated block whose byte offset is `addr`:
    /// decrement its reference count and, once idle, coalesce it with
    /// idle order-matched buddies and return it to the free lists.
    pub fn free(&mut self, addr: usize)
        requires
            old(self).wf(),
            addr % 4096 == 0,
            addr < old(self).size,
            old(self).pages@[addr as int / 4096].ref_cnt >= 1,
        ensures
            final(self).wf(),
            final(self).size == old(self).size,
            final(self).meta_size == old(self).meta_size,
            final(self).pages@.len() == old(self).pages@.len(),
            ({
                let idx = addr as int / 4096;
                let o = old(self).pages@[idx].ord as int;
                &&& final(self).pages@[idx].ref_cnt == old(self).pages@[idx].ref_cnt - 1
                &&& (old(self).pages@[idx].ref_cnt > 1 ==> final(self).fl@ == old(self).fl@
                    && final(self).free_capacity() == old(self).free_capacity() && final(self)
                    .pages@[idx] == (Page {
                    ref_cnt: (old(self).pages@[idx].ref_cnt - 1) as usize,
                    ..old(self).pages@[idx]
                }) && forall|m: int|
                    0 <= m < old(self).npages() && m != idx ==> final(self).pages@[m] == old(
                        self,
                    ).pages@[m])
                &&& (old(self).pages@[idx].ref_cnt == 1 ==> {
                    &&& final(self).free_capacity() == old(self).free_capacity() + block_bytes(o)
                    &&& forall|m: int|
                        0 <= m < old(self).npages() && m != idx ==> (#[trigger] final(self)
                            .pages@[m]).ref_cnt == old(self).pages@[m].ref_cnt
                    &&& (!old(self).mergeable(idx, o) ==> final(self).fl@ == old(
                        self,
                    ).fl@.update(o, seq![(addr / 4096) as usize].add(old(self).fl@[o])))
                    &&& (old(self).mergeable(idx, o) ==> forall|j: int|
                        0 <= j < final(self).fl@[o].len() ==> final(self).fl@[o][j] != (addr
                            / 4096) as usize)
                    &&& exists|f: int|
                        #[trigger] Self::coalesce_outcome(*old(self), *final(self), idx, o, f)
                })
            }),
    {
        let ghost pre = *old(self);
        let idx = addr / 4096;
        proof {
            vstd::arithmetic::div_mod::lemma_multiply_divide_lt(
                addr as int,
                4096,
                pre.npages(),
            );
            assert(4096 * pre.npages() == pre.npages() * 4096) by (nonlinear_arith);
            assert(pre.allocated_ok(idx as int));
        }
        let newref = self.pages[idx].ref_cnt - 1;
        self.pages[idx].ref_cnt = newref;
        let ghost mid = *self;
        proof {
            let o = pre.pages@[idx as int].ord as int;
            assert forall|m: int| 0 <= m < pre.npages() && m != idx implies mid.pages@[m]
                == pre.pages@[m] by {}
            Self::lemma_same_lists(pre, mid);
            assert forall|o2: int, j2: int|
                0 <= o2 < 9 && 0 <= j2 < mid.fl@[o2].len() implies mid.member_ok(o2, j2) by {
                assert(pre.member_ok(o2, j2));
                let m = pre.fl@[o2][j2] as int;
                assert(pre.in_some_list(m)) by {
                    assert(pre.fl@[o2][j2] == m);
                }
                assert(m != idx as int);
                assert(mid.pages@[m] == pre.pages@[m]);
            }
            assert forall|m: int| 0 <= m < mid.npages() implies mid.allocated_ok(m) by {
                assert(pre.allocated_ok(m));
                if mid.pages@[m].ref_cnt > 0 {
                    if m == idx as int {
                        assert(mid.pages@[m].ord == pre.pages@[m].ord);
                        assert(mid.pages@[m].next == pre.pages@[m].next);
                    } else {
                        assert(mid.pages@[m] == pre.pages@[m]);
                    }
                }
            }
            assert forall|m: int| 0 <= m < mid.npages() implies (#[trigger] mid.pages@[m]).idx
                == m by {}
            assert forall|x: int| mid.is_block_start(x) implies pre.is_block_start(x)
                && mid.pages@[x].ord == pre.pages@[x].ord by {}
            assert forall|i1: int, i2: int|
                #[trigger] mid.is_block_start(i1) && #[trigger] mid.is_block_start(i2) && i1
                    != i2 implies i1 + block_units(mid.pages@[i1].ord as int) <= i2 || i2
                    + block_units(mid.pages@[i2].ord as int) <= i1 by {
                assert(pre.is_block_start(i1) && pre.is_block_start(i2));
            }
            assert forall|o2: int| 0 <= o2 < 9 implies mid.head_ok(o2) by {
                assert(pre.head_ok(o2));
            }
            assert forall|m: int|
                0 <= m < mid.npages() && !(#[trigger] mid.in_some_list(m)) implies mid.pages@[
                m].next == NIL && mid.pages@[m].prev == NIL by {
                assert(!pre.in_some_list(m));
                if m != idx as int {
                    assert(mid.pages@[m] == pre.pages@[m]);
                }
            }
            assert(mid.wf());
        }
        if newref > 0 {
            return;
        }
        proof {
            let o = pre.pages@[idx as int].ord as int;
            assert(mid.floating(idx as int, o)) by {
                assert(mid.range_free(idx as int, idx as int + block_units(o))) by {
                    assert forall|x: int| #[trigger] mid.is_block_start(x) implies x
                        + block_units(mid.pages@[x].ord as int) <= idx as int || idx as int
                        + block_units(o) <= x by {
                        assert(pre.is_block_start(x));
                        assert(x != idx as int);
                        assert(pre.is_block_start(idx as int));
                        assert(mid.pages@[x].ord == pre.pages@[x].ord);
                    }
                }
            }
            // the buddy's record is untouched by the decrement
            assert(mid.mergeable(idx as int, o) == pre.mergeable(idx as int, o)) by {
                if 1 <= o {
                    lemma_merge_geom(idx as int, o);
                    let bdy = buddy_of(idx as int, o);
                    assert(bdy != idx as int);
                    if 0 <= bdy < pre.npages() {
                        assert(mid.pages@[bdy] == pre.pages@[bdy]);
                    }
                }
            }
        }
        self.join(idx);
        proof {
            // the coalescing outcome carries over: the decrement only
            // touched the freed record's reference count
            let o = pre.pages@[idx as int].ord as int;
            let fwit = choose|f: int|
                #[trigger] Self::coalesce_outcome(mid, *self, idx as int, o, f);
            assert(Self::coalesce_outcome(mid, *self, idx as int, o, fwit));
            assert(Self::coalesce_outcome(pre, *self, idx as int, o, fwit)) by {
                assert(mid.fl@ == pre.fl@);
                assert forall|o2: int| fwit < o2 <= o implies #[trigger] Self::buddy_removed(
                    pre,
                    *self,
                    idx as int,
                    o2,
                ) by {
                    assert(Self::buddy_removed(mid, *self, idx as int, o2));
                    let j = choose|j: int|
                        0 <= j < mid.fl@[o2].len() && #[trigger] mid.fl@[o2][j] == (buddy_of(
                            align_down(idx as int, o2),
                            o2,
                        ) as usize) && self.fl@[o2] == mid.fl@[o2].remove(j);
                    assert(0 <= j < pre.fl@[o2].len() && pre.fl@[o2][j] == (buddy_of(
                        align_down(idx as int, o2),
                        o2,
                    ) as usize) && self.fl@[o2] == pre.fl@[o2].remove(j));
                }
                assert forall|m: int|
                    #![trigger self.pages@[m]]
                    0 <= m < pre.npages() && !(align_down(idx as int, fwit) <= m < align_down(
                        idx as int,
                        fwit,
                    ) + block_units(fwit)) implies self.pages@[m].ord == pre.pages@[m].ord by {
                    assert(self.pages@[m].ord == mid.pages@[m].ord);
                }
            }
        }
    }

    /// Pop the head of list `o`, if any, leaving it detached.
    pub fn remove_first(&mut self, o: usize) -> (r: Option<usize>)
        requires
            old(self).wf(),
            o < 9,
        ensures
            final(self).wf(),
            final(self).size == old(self).size,
            final(self).meta_size == old(self).meta_size,
            final(self).pages@.len() == old(self).pages@.len(),
            match r {
                None => final(self).state_eq(*old(self)) && old(self).fl@[o as int].len() == 0,
                Some(i) => {
                    &&& old(self).fl@[o as int].len() > 0
                    &&& i == old(self).fl@[o as int][0]
                    &&& final(self).fl@ == old(self).fl@.update(
                        o as int,
                        old(self).fl@[o as int].remove(0),
                    )
                    &&& final(self).floating(i as int, o as int)
                    &&& forall|m: int|
                        0 <= m < old(self).npages() ==> {
                            &&& (#[trigger] final(self).pages@[m]).ord == old(self).pages@[m].ord
                            &&& final(self).pages@[m].ref_cnt == old(self).pages@[m].ref_cnt
                            &&& final(self).pages@[m].idx == old(self).pages@[m].idx
                        }
                    &&& forall|m: int|
                        0 <= m < old(self).npages() && m != i && !old(self).in_some_list(m)
                            ==> final(self).pages@[m] == old(self).pages@[m]
                    &&& forall|m: int|
                        final(self).in_some_list(m) <==> (old(self).in_some_list(m) && m != i)
                    &&& final(self).free_capacity() == old(self).free_capacity() - block_bytes(
                        o as int,
                    )
                },
            },
    {
        let h = self.free_lists[o];
        proof {
            assert(old(self).head_ok(o as int));
            if old(self).fl@[o as int].len() > 0 {
                assert(old(self).member_ok(o as int, 0));
                assert(old(self).npages() < NIL);
            }
        }
        if h == NIL {
            None
        } else {
            self.remove_node(o, h, Ghost(0));
            Some(h)
        }
    }

}

} // verus!
