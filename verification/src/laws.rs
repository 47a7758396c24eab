//! Laws that hold of every well-formed allocator state.

use vstd::prelude::*;
use crate::buddy::{align_down, buddy_of, Allocator};
use crate::geometry::{block_bytes, block_units, lemma_align_widen, lemma_block_table};
use vstd::arithmetic::div_mod::lemma_fundamental_div_mod;

verus! {

/// The unit ranges of two distinct currently allocated blocks are
/// disjoint: each block either ends at or before the other begins.
pub proof fn lemma_allocated_units_disjoint(a: Allocator, i1: int, i2: int)
    requires
        a.wf(),
        0 <= i1 < a.npages(),
        0 <= i2 < a.npages(),
        i1 != i2,
        a.pages@[i1].ref_cnt > 0,
        a.pages@[i2].ref_cnt > 0,
    ensures
        i1 + block_units(a.pages@[i1].ord as int) <= i2 || i2 + block_units(
            a.pages@[i2].ord as int,
        ) <= i1,
{
    assert(a.is_block_start(i1));
    assert(a.is_block_start(i2));
}

/// The byte address ranges of two distinct currently allocated blocks
/// are pairwise disjoint.
pub proof fn lemma_allocated_ranges_disjoint(a: Allocator, addr1: int, addr2: int)
    requires
        a.wf(),
        addr1 % 4096 == 0,
        0 <= addr1 < a.size,
        a.pages@[addr1 / 4096].ref_cnt > 0,
        addr2 % 4096 == 0,
        0 <= addr2 < a.size,
        a.pages@[addr2 / 4096].ref_cnt > 0,
        addr1 != addr2,
    ensures
        addr1 + block_bytes(a.pages@[addr1 / 4096].ord as int) <= addr2 || addr2 + block_bytes(
            a.pages@[addr2 / 4096].ord as int,
        ) <= addr1,
{
    let i1 = addr1 / 4096;
    let i2 = addr2 / 4096;
    lemma_fundamental_div_mod(addr1, 4096);
    lemma_fundamental_div_mod(addr2, 4096);
    assert(addr1 == 4096 * i1 && addr2 == 4096 * i2);
    vstd::arithmetic::div_mod::lemma_multiply_divide_lt(addr1, 4096, a.npages());
    vstd::arithmetic::div_mod::lemma_multiply_divide_lt(addr2, 4096, a.npages());
    assert(4096 * a.npages() == a.npages() * 4096) by (nonlinear_arith);
    lemma_allocated_units_disjoint(a, i1, i2);
    lemma_block_table();
    let o1 = a.pages@[i1].ord as int;
    let o2 = a.pages@[i2].ord as int;
    assert(a.allocated_ok(i1));
    assert(a.allocated_ok(i2));
    if i1 + block_units(o1) <= i2 {
        assert(4096 * (i1 + block_units(o1)) <= 4096 * i2) by (nonlinear_arith)
            requires
                i1 + block_units(o1) <= i2,
        ;
        assert(addr1 + block_bytes(o1) <= addr2) by (nonlinear_arith)
            requires
                4096 * (i1 + block_units(o1)) <= 4096 * i2,
                addr1 == 4096 * i1,
                addr2 == 4096 * i2,
                block_bytes(o1) == 4096 * block_units(o1),
        ;
    } else {
        assert(4096 * (i2 + block_units(o2)) <= 4096 * i1) by (nonlinear_arith)
            requires
                i2 + block_units(o2) <= i1,
        ;
        assert(addr2 + block_bytes(o2) <= addr1) by (nonlinear_arith)
            requires
                4096 * (i2 + block_units(o2)) <= 4096 * i1,
                addr1 == 4096 * i1,
                addr2 == 4096 * i2,
                block_bytes(o2) == 4096 * block_units(o2),
        ;
    }
}

/// Round trip of one allocation, split path and merge-back included:
/// when a request at order `ord` is served from list `sel` (taking the
/// head block and parking an upper half on every order in between, as
/// allocation ensures), and freeing that block coalesces back up to
/// exactly order `sel` (as release ensures, `coalesce_outcome`), the
/// free lists return to their pre-allocation state.
pub proof fn lemma_alloc_free_round_trip(
    a: Allocator,
    b: Allocator,
    c: Allocator,
    sel: int,
    ord: int,
)
    requires
        a.wf(),
        b.wf(),
        c.fl@.len() == 9,
        0 <= sel <= ord <= 8,
        a.fl@[sel].len() > 0,
        b.fl@ == Allocator::lists_after_alloc(a.fl@, sel, ord),
        Allocator::coalesce_outcome(b, c, a.fl@[sel][0] as int, ord, sel),
    ensures
        c.fl@ == a.fl@,
{
    lemma_block_table();
    let i = a.fl@[sel][0] as int;
    assert(a.member_ok(sel, 0));
    let popped = a.fl@.update(sel, a.fl@[sel].remove(0));
    // the survivor is the allocated block itself, back at the head
    assert(align_down(i, sel) == i);
    assert(c.fl@[sel] == seq![(i as usize)].add(b.fl@[sel]));
    assert(b.fl@[sel] == popped[sel]);
    assert(c.fl@[sel] =~= a.fl@[sel]);
    // each order crossed loses exactly the spare the split parked there
    assert forall|o2: int| sel < o2 <= ord implies c.fl@[o2] =~= a.fl@[o2] by {
        let u = block_units(o2);
        lemma_align_widen(i, sel, o2);
        assert(align_down(i, o2) == i);
        lemma_align_widen(i, sel, o2 - 1);
        assert(block_units(o2 - 1) == 2 * u);
        assert(buddy_of(i, o2) == i + u);
        assert(b.fl@[o2] == seq![((i + u) as usize)].add(popped[o2]));
        assert(popped[o2] == a.fl@[o2]);
        assert(Allocator::buddy_removed(b, c, i, o2));
        let j = choose|j: int|
            0 <= j < b.fl@[o2].len() && #[trigger] b.fl@[o2][j] == (buddy_of(
                align_down(i, o2),
                o2,
            ) as usize) && c.fl@[o2] == b.fl@[o2].remove(j);
        assert(j == 0) by {
            if j != 0 {
                assert(b.fl@[o2].no_duplicates());
                assert(b.fl@[o2][0] == ((i + u) as usize));
            }
        }
        assert(c.fl@[o2] == b.fl@[o2].remove(0));
    }
    // every other list was never touched
    assert forall|o2: int| 0 <= o2 < 9 && !(sel <= o2 <= ord) implies c.fl@[o2] == a.fl@[o2] by {
        assert(c.fl@[o2] == b.fl@[o2]);
        assert(b.fl@[o2] == popped[o2]);
    }
    assert(c.fl@ =~~= a.fl@);
}

/// Round trip of a single block, at the level of the free-list model:
/// taking the head block of a list (what a direct-hit allocation does to
/// the lists) and then pushing that block back onto the same list (what
/// freeing it does when its buddy cannot merge) restores the free lists
/// exactly.
pub proof fn lemma_pop_push_round_trip(l: Seq<Seq<usize>>, o: int, i: usize)
    requires
        0 <= o < l.len(),
        l[o].len() > 0,
        i == l[o][0],
    ensures
        ({
            let popped = l.update(o, l[o].remove(0));
            popped.update(o, seq![i].add(popped[o])) == l
        }),
{
    let popped = l.update(o, l[o].remove(0));
    let back = popped.update(o, seq![i].add(popped[o]));
    assert(back[o] =~= l[o]);
    assert(back =~~= l);
}

} // verus!
