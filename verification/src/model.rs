//! The ghost model of the allocator.
//!
//! The facade's contracts are stated against this model: a cursor and
//! capacity for the arena, and per size class its `(width, align)` key and
//! the stack of free slot offsets. [`spec_try_new`] and [`spec_release`]
//! are the mathematical transition functions of the two operations, and
//! the laws at the end of the module — disjointness of live slots,
//! alignment, exact recycling, bounded steady-state consumption, and
//! deterministic exhaustion — are proved over them.

use vstd::prelude::*;

verus! {

use crate::heap::{align_up, lemma_align_up};

/// One size class in the model: its key and its free slots, top first.
#[verifier::ext_equal]
pub struct ClassModel {
    /// Byte width of every slot of this class.
    pub width: int,
    /// Alignment every slot of this class satisfies.
    pub align: int,
    /// Arena offsets of the free slots, most recently released first.
    pub free: Seq<int>,
}

/// The whole allocator in the model: arena cursor and capacity, the class
/// table and its bound.
#[verifier::ext_equal]
pub struct AllocModel {
    /// Next free arena offset (bump cursor).
    pub cursor: int,
    /// Arena capacity in bytes.
    pub capacity: int,
    /// Greatest number of distinct size classes the table may hold.
    pub max_classes: int,
    /// The size classes, in order of first allocation.
    pub classes: Seq<ClassModel>,
}

/// Index of the class with key `(width, align)`, or `-1` if none.
pub open spec fn find_class(classes: Seq<ClassModel>, width: int, align: int) -> int
    decreases classes.len(),
{
    if classes.len() == 0 {
        -1
    } else if classes[0].width == width && classes[0].align == align {
        0
    } else {
        let r = find_class(classes.drop_first(), width, align);
        if r == -1 {
            -1
        } else {
            r + 1
        }
    }
}

/// `find_class` returns `-1` exactly when no class has the key, and
/// otherwise the first index that has it.
pub proof fn lemma_find_class(classes: Seq<ClassModel>, width: int, align: int)
    ensures
        find_class(classes, width, align) == -1 ==> forall|i: int|
            0 <= i < classes.len() ==> !(classes[i].width == width && classes[i].align == align),
        find_class(classes, width, align) != -1 ==> {
            let r = find_class(classes, width, align);
            &&& 0 <= r < classes.len()
            &&& classes[r].width == width
            &&& classes[r].align == align
            &&& forall|i: int|
                0 <= i < r ==> !(classes[i].width == width && classes[i].align == align)
        },
    decreases classes.len(),
{
    if classes.len() == 0 {
    } else if classes[0].width == width && classes[0].align == align {
    } else {
        lemma_find_class(classes.drop_first(), width, align);
        let tail = classes.drop_first();
        assert(forall|i: int| 1 <= i < classes.len() ==> #[trigger] classes[i] == tail[i - 1]);
    }
}

/// Whether a fresh slot of the given key still fits in the arena.
pub open spec fn class_fits(m: AllocModel, width: int, align: int) -> bool {
    align_up(m.cursor, align) + width <= m.capacity
}

/// The transition of one allocation request with key `(width, align)`:
/// the model afterwards, and the offset of the returned slot, or `None`
/// on exhaustion. A recycled slot is the top of the class's free stack; a
/// fresh one is bumped from the cursor; a class seen for the first time
/// is entered into the table if the table is not full and the arena can
/// still serve it.
pub open spec fn spec_try_new(m: AllocModel, width: int, align: int) -> (AllocModel, Option<
    int,
>) {
    let i = find_class(m.classes, width, align);
    if i != -1 {
        let c = m.classes[i];
        if c.free.len() > 0 {
            (
                AllocModel {
                    classes: m.classes.update(
                        i,
                        ClassModel { width: c.width, align: c.align, free: c.free.drop_first() },
                    ),
                    ..m
                },
                Some(c.free[0]),
            )
        } else if class_fits(m, width, align) {
            (AllocModel { cursor: align_up(m.cursor, align) + width, ..m }, Some(
                align_up(m.cursor, align),
            ))
        } else {
            (m, None)
        }
    } else if m.classes.len() < m.max_classes && class_fits(m, width, align) {
        (
            AllocModel {
                cursor: align_up(m.cursor, align) + width,
                classes: m.classes.push(ClassModel { width, align, free: Seq::empty() }),
                ..m
            },
            Some(align_up(m.cursor, align)),
        )
    } else {
        (m, None)
    }
}

/// The transition of releasing a slot at `offset` back to class `class`:
/// the offset becomes the top of that class's free stack.
pub open spec fn spec_release(m: AllocModel, class: int, offset: int) -> AllocModel {
    let c = m.classes[class];
    AllocModel {
        classes: m.classes.update(
            class,
            ClassModel { width: c.width, align: c.align, free: seq![offset] + c.free },
        ),
        ..m
    }
}

/// Two byte ranges of widths `w1`, `w2` at offsets `o1`, `o2` do not
/// overlap.
pub open spec fn ranges_disjoint(o1: int, w1: int, o2: int, w2: int) -> bool {
    o1 + w1 <= o2 || o2 + w2 <= o1
}

/// The model invariant: cursor within capacity, class table within its
/// bound with distinct keys and sane alignments, every free slot aligned
/// for its class and fully below the cursor, and the free slots of all
/// classes pairwise disjoint.
pub open spec fn minv(m: AllocModel) -> bool {
    &&& 0 <= m.cursor <= m.capacity
    &&& m.classes.len() <= m.max_classes
    &&& forall|i: int| 0 <= i < m.classes.len() ==> (#[trigger] m.classes[i]).align >= 1
    &&& forall|i: int| 0 <= i < m.classes.len() ==> (#[trigger] m.classes[i]).width >= 0
    &&& forall|i: int, j: int|
        0 <= i < j < m.classes.len() ==> !(m.classes[i].width == m.classes[j].width
            && m.classes[i].align == m.classes[j].align)
    &&& forall|i: int, k: int|
        0 <= i < m.classes.len() && 0 <= k < m.classes[i].free.len() ==> {
            let off = #[trigger] m.classes[i].free[k];
            &&& off >= 0
            &&& off % m.classes[i].align == 0
            &&& off + m.classes[i].width <= m.cursor
        }
    &&& forall|i: int, k: int, j: int, l: int|
        0 <= i < m.classes.len() && 0 <= k < m.classes[i].free.len() && 0 <= j < m.classes.len()
            && 0 <= l < m.classes[j].free.len() && (i != j || k != l) ==> ranges_disjoint(
            m.classes[i].free[k],
            m.classes[i].width,
            m.classes[j].free[l],
            m.classes[j].width,
        )
}

/// One allocation step keeps the model invariant.
pub proof fn lemma_try_new_preserves_minv(m: AllocModel, width: int, align: int)
    requires
        minv(m),
        align >= 1,
        width >= 0,
    ensures
        minv(spec_try_new(m, width, align).0),
{
    let i = find_class(m.classes, width, align);
    lemma_find_class(m.classes, width, align);
    lemma_align_up(m.cursor, align);
    let m1 = spec_try_new(m, width, align).0;
    if i != -1 {
        let c = m.classes[i];
        if c.free.len() > 0 {
            assert(forall|j: int|
                0 <= j < m1.classes.len() && j != i ==> m1.classes[j] == m.classes[j]);
            assert(m1.classes[i].width == c.width && m1.classes[i].align == c.align);
            assert(forall|k: int|
                0 <= k < m1.classes[i].free.len() ==> #[trigger] m1.classes[i].free[k]
                    == c.free[k + 1]);
            assert(minv(m1));
        } else if class_fits(m, width, align) {
            assert(m1.classes == m.classes);
            assert(m.cursor <= m1.cursor);
            assert(minv(m1));
        }
    } else if m.classes.len() < m.max_classes && class_fits(m, width, align) {
        assert(forall|j: int|
            0 <= j < m.classes.len() ==> #[trigger] m1.classes[j] == m.classes[j]);
        assert(m1.classes[m.classes.len() as int].free.len() == 0);
        assert(m.cursor <= m1.cursor);
        assert(minv(m1));
    }
}

/// Every slot the allocator hands out for key `(width, align)` is aligned
/// to `align` and lies wholly inside the arena.
pub proof fn lemma_allocation_aligned(m: AllocModel, width: int, align: int)
    requires
        minv(m),
        align >= 1,
        width >= 0,
    ensures
        spec_try_new(m, width, align).1 matches Some(off) ==> off % align == 0 && 0 <= off && off
            + width <= m.capacity,
{
    let i = find_class(m.classes, width, align);
    lemma_find_class(m.classes, width, align);
    lemma_align_up(m.cursor, align);
    if i != -1 && m.classes[i].free.len() > 0 {
        assert(m.classes[i].free[0] % align == 0);
    }
}

/// Two successive allocations of the same size class, with no release in
/// between, return slots whose byte ranges do not overlap.
pub proof fn lemma_successive_allocations_disjoint(m: AllocModel, width: int, align: int)
    requires
        minv(m),
        align >= 1,
        width >= 0,
    ensures
        ({
            let r1 = spec_try_new(m, width, align).1;
            let r2 = spec_try_new(spec_try_new(m, width, align).0, width, align).1;
            r1 is Some && r2 is Some ==> ranges_disjoint(r1.unwrap(), width, r2.unwrap(), width)
        }),
{
    let i = find_class(m.classes, width, align);
    lemma_find_class(m.classes, width, align);
    lemma_align_up(m.cursor, align);
    lemma_try_new_preserves_minv(m, width, align);
    let (m1, r1) = spec_try_new(m, width, align);
    let (m2, r2) = spec_try_new(m1, width, align);
    lemma_find_class(m1.classes, width, align);
    lemma_align_up(m1.cursor, align);
    if r1 is Some && r2 is Some {
        let o1 = r1.unwrap();
        let o2 = r2.unwrap();
        let i1 = find_class(m1.classes, width, align);
        if i != -1 {
            let c = m.classes[i];
            if c.free.len() > 0 {
                // the first request recycled the top of the free stack
                assert(m1.classes[i].width == width && m1.classes[i].align == align);
                assert(i1 == i) by {
                    assert(forall|j: int|
                        0 <= j < i ==> #[trigger] m1.classes[j] == m.classes[j]);
                }
                if m1.classes[i].free.len() > 0 {
                    // so did the second: both offsets sat on the same stack
                    assert(o1 == c.free[0]);
                    assert(o2 == c.free[1]);
                    assert(ranges_disjoint(c.free[0], width, c.free[1], width));
                    assert(ranges_disjoint(o1, width, o2, width));
                } else {
                    // the second was bumped fresh, above every free slot
                    assert(o1 + width <= m1.cursor);
                    assert(m1.cursor <= o2);
                    assert(ranges_disjoint(o1, width, o2, width));
                }
            } else {
                // the first was bumped fresh; the free stack stays empty,
                // so the second was bumped above it
                assert(i1 == i) by {
                    assert(forall|j: int|
                        0 <= j < i ==> #[trigger] m1.classes[j] == m.classes[j]);
                }
                assert(m1.classes[i].free.len() == 0);
                assert(o1 + width == m1.cursor);
                assert(m1.cursor <= o2);
                assert(ranges_disjoint(o1, width, o2, width));
            }
        } else {
            // the class was new: entered with an empty free stack, both
            // slots bumped fresh in cursor order
            let n = m.classes.len() as int;
            assert(m1.classes[n].width == width && m1.classes[n].align == align);
            lemma_find_class(m1.classes, width, align);
            assert(i1 != -1);
            assert(m1.classes[i1].free.len() == 0) by {
                if i1 != n {
                    assert(m1.classes[i1] == m.classes[i1]);
                }
            }
            assert(o1 + width == m1.cursor);
            assert(m1.cursor <= o2);
            assert(ranges_disjoint(o1, width, o2, width));
        }
    }
}

/// Releasing a slot and then allocating the same size class again returns
/// exactly the released slot, and puts the model back where it was before
/// the release: steady-state alloc/release cycles of one class neither
/// move the cursor nor touch any other class.
pub proof fn lemma_release_then_reuse(m: AllocModel, class: int, offset: int)
    requires
        minv(m),
        0 <= class < m.classes.len(),
    ensures
        ({
            let m1 = spec_release(m, class, offset);
            let w = m.classes[class].width;
            let a = m.classes[class].align;
            &&& spec_try_new(m1, w, a).1 == Some(offset)
            &&& spec_try_new(m1, w, a).0 == m
        }),
{
    let w = m.classes[class].width;
    let a = m.classes[class].align;
    let m1 = spec_release(m, class, offset);
    lemma_find_class(m.classes, w, a);
    lemma_find_class(m1.classes, w, a);
    let i = find_class(m1.classes, w, a);
    assert(forall|j: int| 0 <= j < m.classes.len() && j != class ==> #[trigger] m1.classes[j]
        == m.classes[j]);
    assert(m1.classes[class].width == w && m1.classes[class].align == a);
    assert(i != -1);
    assert(i == class) by {
        if i < class {
            assert(m.classes[i].width == w && m.classes[i].align == a);
        }
        if i > class {
            assert(!(m1.classes[class].width == w && m1.classes[class].align == a));
        }
    }
    assert(m1.classes[class].free[0] == offset);
    let m2 = spec_try_new(m1, w, a).0;
    assert(m2.classes[class].free =~= m.classes[class].free);
    assert(m2.classes[class] =~= m.classes[class]);
    assert(m2.classes =~~= m.classes);
    assert(m2 =~~= m);
}

/// Exhaustion is deterministic: for a known class whose free stack is
/// empty, once the arena cannot fit one more slot of that class, the
/// request reports exhaustion and changes nothing.
pub proof fn lemma_exhaustion_deterministic(m: AllocModel, width: int, align: int)
    requires
        minv(m),
        find_class(m.classes, width, align) != -1,
        m.classes[find_class(m.classes, width, align)].free.len() == 0,
        !class_fits(m, width, align),
    ensures
        spec_try_new(m, width, align) == (m, None::<int>),
{
}

} // verus!
