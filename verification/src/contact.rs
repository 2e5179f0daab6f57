//! Contact gathering and the deterministic contact ordering policy.
//!
//! Contacts are gathered by brute-force pairwise overlap tests between two
//! rectangle sets, in index order; the ordering policy then sorts them by
//! descending squared overlap magnitude so the deepest penetrations are
//! resolved first.

use vstd::prelude::*;
use crate::geom::{Rect, Vec2};
use crate::tile::TileData;

verus! {

/// One detected overlap between a rectangle of set A and one of set B,
/// with both originating indices and the per-axis penetration depths.
/// Ephemeral: records live for one simulation tick.
#[derive(Clone, Copy, Debug, PartialEq, Eq, Structural)]
pub struct Contact {
    pub rect_a: Rect,
    pub index_a: usize,
    pub rect_b: Rect,
    pub index_b: usize,
    pub overlap: Vec2,
}

/// The contact that rectangles `a` (index `i`) and `b` (index `j`) produce.
pub open spec fn contact_of(a: Rect, i: usize, b: Rect, j: usize) -> Contact {
    Contact {
        rect_a: a,
        index_a: i,
        rect_b: b,
        index_b: j,
        overlap: Vec2 {
            x: a.spec_x_overlap(b) as i32,
            y: a.spec_y_overlap(b) as i32,
        },
    }
}

/// The contacts of one rectangle `a` (index `i`) against the rectangles of
/// `bs`, in index order.
pub open spec fn row_contacts(a: Rect, i: usize, bs: Seq<Rect>) -> Seq<Contact>
    decreases bs.len(),
{
    if bs.len() == 0 {
        Seq::empty()
    } else {
        row_contacts(a, i, bs.drop_last()) + (if a.spec_overlaps(bs.last()) {
            seq![contact_of(a, i, bs.last(), (bs.len() - 1) as usize)]
        } else {
            Seq::empty()
        })
    }
}

/// All contacts between the rectangle sets `as_` and `bs`: one per
/// intersecting or touching pair, ordered by index of A, then index of B.
pub open spec fn all_contacts(as_: Seq<Rect>, bs: Seq<Rect>) -> Seq<Contact>
    decreases as_.len(),
{
    if as_.len() == 0 {
        Seq::empty()
    } else {
        all_contacts(as_.drop_last(), bs) + row_contacts(
            as_.last(),
            (as_.len() - 1) as usize,
            bs,
        )
    }
}

/// Appends to `contacts_list` one contact per overlapping pair from
/// `a_rects` x `b_rects`, in index order.  Brute force over both sets.
pub fn gather_contact(a_rects: &[Rect], b_rects: &[Rect], contacts_list: &mut Vec<Contact>)
    ensures
        final(contacts_list)@ == old(contacts_list)@ + all_contacts(a_rects@, b_rects@),
{
    let ghost base = contacts_list@;
    let mut i: usize = 0;
    while i < a_rects.len()
        invariant
            i <= a_rects@.len(),
            contacts_list@ == base + all_contacts(a_rects@.take(i as int), b_rects@),
        decreases a_rects@.len() - i,
    {
        let a_rect = a_rects[i];
        let mut j: usize = 0;
        while j < b_rects.len()
            invariant
                i < a_rects@.len(),
                j <= b_rects@.len(),
                a_rect == a_rects@[i as int],
                contacts_list@ == base + all_contacts(a_rects@.take(i as int), b_rects@)
                    + row_contacts(a_rect, i, b_rects@.take(j as int)),
            decreases b_rects@.len() - j,
        {
            let b_rect = b_rects[j];
            if let Some(overlap) = a_rect.overlap(b_rect) {
                contacts_list.push(
                    Contact {
                        index_a: i,
                        rect_a: a_rect,
                        index_b: j,
                        rect_b: b_rect,
                        overlap,
                    },
                );
            }
            proof {
                let bt = b_rects@.take(j + 1);
                assert(bt.drop_last() =~= b_rects@.take(j as int));
                assert(bt.last() == b_rects@[j as int]);
            }
            j = j + 1;
        }
        proof {
            assert(b_rects@.take(b_rects@.len() as int) =~= b_rects@);
            let at = a_rects@.take(i + 1);
            assert(at.drop_last() =~= a_rects@.take(i as int));
            assert(at.last() == a_rects@[i as int]);
        }
        i = i + 1;
    }
    proof {
        assert(a_rects@.take(a_rects@.len() as int) =~= a_rects@);
    }
}

/// The contacts of one rectangle `a` (index `i`) against the solid tiles of
/// `tiles`, in index order; tiles not flagged solid produce no contact.
pub open spec fn row_tile_contacts(a: Rect, i: usize, tiles: Seq<(Rect, TileData)>) -> Seq<
    Contact,
>
    decreases tiles.len(),
{
    if tiles.len() == 0 {
        Seq::empty()
    } else {
        row_tile_contacts(a, i, tiles.drop_last()) + (if tiles.last().1.solid && a.spec_overlaps(
            tiles.last().0,
        ) {
            seq![contact_of(a, i, tiles.last().0, (tiles.len() - 1) as usize)]
        } else {
            Seq::empty()
        })
    }
}

/// All contacts between the rectangles of `as_` and the solid tiles of
/// `tiles`, ordered by rectangle index, then tile index.
pub open spec fn all_tile_contacts(as_: Seq<Rect>, tiles: Seq<(Rect, TileData)>) -> Seq<Contact>
    decreases as_.len(),
{
    if as_.len() == 0 {
        Seq::empty()
    } else {
        all_tile_contacts(as_.drop_last(), tiles) + row_tile_contacts(
            as_.last(),
            (as_.len() - 1) as usize,
            tiles,
        )
    }
}

/// The tile-aware variant of contact gathering: only tiles whose `solid`
/// flag is set take part in the overlap tests; decorative tiles never
/// produce contacts.
pub fn gather_tile_contacts(
    rects: &[Rect],
    tiles: &[(Rect, TileData)],
    contacts: &mut Vec<Contact>,
)
    ensures
        final(contacts)@ == old(contacts)@ + all_tile_contacts(rects@, tiles@),
{
    let ghost base = contacts@;
    let mut i: usize = 0;
    while i < rects.len()
        invariant
            i <= rects@.len(),
            contacts@ == base + all_tile_contacts(rects@.take(i as int), tiles@),
        decreases rects@.len() - i,
    {
        let rect = rects[i];
        let mut j: usize = 0;
        while j < tiles.len()
            invariant
                i < rects@.len(),
                j <= tiles@.len(),
                rect == rects@[i as int],
                contacts@ == base + all_tile_contacts(rects@.take(i as int), tiles@)
                    + row_tile_contacts(rect, i, tiles@.take(j as int)),
            decreases tiles@.len() - j,
        {
            let (tile_rect, tile_data) = tiles[j];
            if tile_data.solid {
                if let Some(overlap) = rect.overlap(tile_rect) {
                    contacts.push(
                        Contact {
                            index_a: i,
                            rect_a: rect,
                            index_b: j,
                            rect_b: tile_rect,
                            overlap,
                        },
                    );
                }
            }
            proof {
                let tt = tiles@.take(j + 1);
                assert(tt.drop_last() =~= tiles@.take(j as int));
                assert(tt.last() == tiles@[j as int]);
            }
            j = j + 1;
        }
        proof {
            assert(tiles@.take(tiles@.len() as int) =~= tiles@);
            let rt = rects@.take(i + 1);
            assert(rt.drop_last() =~= rects@.take(i as int));
            assert(rt.last() == rects@[i as int]);
        }
        i = i + 1;
    }
    proof {
        assert(rects@.take(rects@.len() as int) =~= rects@);
    }
}

/// The ordering the contact ordering policy establishes: squared overlap
/// magnitudes never increase along the sequence.
pub open spec fn sorted_by_descending_overlap(s: Seq<Contact>) -> bool {
    forall|a: int, b: int|
        0 <= a <= b < s.len() ==> (#[trigger] s[a]).overlap.spec_mag_sq() >= (
        #[trigger] s[b]).overlap.spec_mag_sq()
}

/// Sorts the gathered contacts by descending squared overlap magnitude, so
/// the deepest penetrations are resolved first.  The result is a
/// rearrangement of the input: no contact is added, dropped or altered.
pub fn sort_contacts(contacts: &mut Vec<Contact>)
    ensures
        sorted_by_descending_overlap(final(contacts)@),
        final(contacts)@.to_multiset() == old(contacts)@.to_multiset(),
        final(contacts)@.len() == old(contacts)@.len(),
{
    broadcast use vstd::seq_lib::group_to_multiset_ensures;
    broadcast use vstd::multiset::group_multiset_axioms;

    let ghost orig = contacts@;
    if contacts.len() <= 1 {
        return ;
    }
    let mut i: usize = 1;
    while i < contacts.len()
        invariant
            1 <= i <= contacts@.len(),
            contacts@.len() == orig.len(),
            contacts@.to_multiset() == orig.to_multiset(),
            sorted_by_descending_overlap(contacts@.take(i as int)),
        decreases contacts@.len() - i,
    {
        proof {
            assert forall|a: int, b: int| 0 <= a <= b <= i && a != i && b != i implies (
            #[trigger] contacts@[a]).overlap.spec_mag_sq() >= (
            #[trigger] contacts@[b]).overlap.spec_mag_sq() by {
                assert(contacts@.take(i as int)[a] == contacts@[a]);
                assert(contacts@.take(i as int)[b] == contacts@[b]);
            }
        }
        let mut j: usize = i;
        while j > 0 && contacts[j - 1].overlap.mag_sq() < contacts[j].overlap.mag_sq()
            invariant
                j <= i < contacts@.len(),
                contacts@.len() == orig.len(),
                contacts@.to_multiset() == orig.to_multiset(),
                forall|a: int, b: int|
                    0 <= a <= b <= i && a != j && b != j ==> (
                    #[trigger] contacts@[a]).overlap.spec_mag_sq() >= (
                    #[trigger] contacts@[b]).overlap.spec_mag_sq(),
                forall|b: int|
                    j < b <= i ==> contacts@[j as int].overlap.spec_mag_sq() >= (
                    #[trigger] contacts@[b]).overlap.spec_mag_sq(),
            decreases j,
        {
            let ghost pre = contacts@;
            let low = contacts[j - 1];
            let high = contacts[j];
            contacts.set(j - 1, high);
            contacts.set(j, low);
            proof {
                let mid = pre.update(j - 1, high);
                assert(contacts@ =~= mid.update(j as int, low));
                vstd::seq_lib::to_multiset_update(pre, j - 1, high);
                assert(mid.to_multiset() == pre.to_multiset().insert(high).remove(low));
                assert(mid[j as int] == high);
                vstd::seq_lib::to_multiset_update(mid, j as int, low);
                assert(contacts@.to_multiset() == mid.to_multiset().insert(low).remove(high));
                assert(pre.contains(low)) by {
                    assert(pre[j - 1] == low);
                }
                vstd::seq_lib::to_multiset_contains(pre, low);
                assert(pre.to_multiset().count(low) > 0);
                assert(contacts@.to_multiset() =~= pre.to_multiset());
            }
            j = j - 1;
        }
        proof {
            assert(sorted_by_descending_overlap(contacts@.take(i + 1))) by {
                assert(forall|a: int, b: int|
                    0 <= a <= b <= i ==> (#[trigger] contacts@[a]).overlap.spec_mag_sq() >= (
                    #[trigger] contacts@[b]).overlap.spec_mag_sq());
            }
        }
        i = i + 1;
    }
    proof {
        if contacts@.len() > 0 {
            assert(contacts@.take(contacts@.len() as int) =~= contacts@);
        }
    }
}

/// Gathering against an empty rectangle set, on either side, yields no
/// contacts -- an empty result, never a failure.
pub proof fn lemma_gather_empty(as_: Seq<Rect>, bs: Seq<Rect>)
    requires
        as_.len() == 0 || bs.len() == 0,
    ensures
        all_contacts(as_, bs).len() == 0,
    decreases as_.len(),
{
    if as_.len() > 0 {
        lemma_gather_empty(as_.drop_last(), bs);
    }
}

} // verus!
