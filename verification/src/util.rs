use vstd::prelude::*;

verus! {

/// How many entries a ring buffer keeps before it starts overwriting.
pub const RING_BUFFER_INTERNAL_STORAGE_SLOTS: usize = 32;

/// A fixed-capacity buffer that keeps the most recent entries added to it.
pub struct RingBuffer<T> {
    pub storage: Vec<T>,
    pub next_open_slot: usize,
}

/// The storage and slot counter after one addition, as `add_new_data` performs it.
pub open spec fn ring_add<T>(storage: Seq<T>, next_open_slot: nat, item: T) -> (Seq<T>, nat) {
    if storage.len() < RING_BUFFER_INTERNAL_STORAGE_SLOTS {
        (storage.push(item), next_open_slot + 1)
    } else {
        (storage.update((next_open_slot % storage.len()) as int, item), next_open_slot + 1)
    }
}

/// The storage and slot counter of a fresh buffer after adding `items` in order.
pub open spec fn ring_filled<T>(items: Seq<T>) -> (Seq<T>, nat)
    decreases items.len(),
{
    if items.len() == 0 {
        (Seq::empty(), 0)
    } else {
        let prev = ring_filled(items.drop_last());
        ring_add(prev.0, prev.1, items.last())
    }
}

impl<T> RingBuffer<T> {
    pub fn new() -> (r: RingBuffer<T>)
        ensures
            r.storage@ == Seq::<T>::empty(),
            r.next_open_slot == 0,
    {
        RingBuffer { storage: Vec::new(), next_open_slot: 0 }
    }

    /// Adds an entry: appends while there is room, otherwise overwrites the
    /// slot the counter points at (modulo the number of slots).
    pub fn add_new_data(&mut self, tuple: T)
        requires
            old(self).next_open_slot < usize::MAX,
        ensures
            (final(self).storage@, final(self).next_open_slot as nat) == ring_add(
                old(self).storage@,
                old(self).next_open_slot as nat,
                tuple,
            ),
    {
        if self.storage.len() < RING_BUFFER_INTERNAL_STORAGE_SLOTS {
            self.storage.push(tuple);
            self.next_open_slot += 1;
            return ;
        }
        let index = self.next_open_slot % self.storage.len();
        self.storage.set(index, tuple);
        self.next_open_slot += 1;
    }
}

} // verus!

verus! {

/// The number `-1`, `0` or `1` that has the sign of `x`.
pub open spec fn sign(x: int) -> int {
    if x > 0 {
        1
    } else if x < 0 {
        -1
    } else {
        0
    }
}

/// The size of an integer.
pub open spec fn abs(x: int) -> int {
    if x < 0 {
        -x
    } else {
        x
    }
}

/// One step of Bresenham's line algorithm from `(start_x, start_y)` towards
/// `(end_x, end_y)`: x always moves by the sign of the x distance; y moves
/// by one towards the end when twice the size of the y distance exceeds the
/// size of the x distance, and stays otherwise (so it stays on a level line).
pub open spec fn path_step(start_x: int, start_y: int, end_x: int, end_y: int) -> (int, int) {
    let x_direction = end_x - start_x;
    let y_direction = end_y - start_y;
    if 2 * abs(y_direction) > abs(x_direction) {
        (start_x + sign(x_direction), start_y + sign(y_direction))
    } else {
        (start_x + sign(x_direction), start_y)
    }
}

/// The step's coordinates fit in an `i64`.
pub open spec fn path_find_in_range(start_x: i64, start_y: i64, end_x: i64, end_y: i64) -> bool {
    let step = path_step(start_x as int, start_y as int, end_x as int, end_y as int);
    &&& i64::MIN <= step.0 <= i64::MAX
    &&& i64::MIN <= step.1 <= i64::MAX
}

/// Moves one grid step from the start towards the end, stepping diagonally
/// when that keeps the path close to the straight line.
pub fn path_find(start_x: i64, start_y: i64, end_x: i64, end_y: i64) -> (r: (i64, i64))
    requires
        path_find_in_range(start_x, start_y, end_x, end_y),
    ensures
        (r.0 as int, r.1 as int) == path_step(
            start_x as int,
            start_y as int,
            end_x as int,
            end_y as int,
        ),
        -1 <= r.0 - start_x <= 1,
        -1 <= r.1 - start_y <= 1,
        r.0 - start_x == sign(end_x - start_x),
{
    let x_direction: i128 = end_x as i128 - start_x as i128;
    let y_direction: i128 = end_y as i128 - start_y as i128;
    let x_size: i128 = if x_direction < 0 { -x_direction } else { x_direction };
    let y_size: i128 = if y_direction < 0 { -y_direction } else { y_direction };
    let x_sign: i64 = if x_direction > 0 {
        1
    } else if x_direction < 0 {
        -1
    } else {
        0
    };
    let y_sign: i64 = if y_direction > 0 {
        1
    } else if y_direction < 0 {
        -1
    } else {
        0
    };
    if 2 * y_size > x_size {
        (start_x + x_sign, start_y + y_sign)
    } else {
        (start_x + x_sign, start_y)
    }
}

/// Law: after adding any sequence of items to a fresh buffer, it holds
/// `min(n, 32)` entries and the entry for each of the last 32 items sits in
/// slot `index % 32`; the counter equals the number of items added.
pub proof fn lemma_ring_buffer_keeps_latest<T>(items: Seq<T>)
    ensures
        ring_filled(items).1 == items.len(),
        ring_filled(items).0.len() == if items.len() < RING_BUFFER_INTERNAL_STORAGE_SLOTS {
            items.len()
        } else {
            RING_BUFFER_INTERNAL_STORAGE_SLOTS as nat
        },
        forall|k: int|
            0 <= k < items.len() && items.len() - k <= RING_BUFFER_INTERNAL_STORAGE_SLOTS
                ==> #[trigger] ring_filled(items).0[k % (RING_BUFFER_INTERNAL_STORAGE_SLOTS as int)]
                == items[k],
    decreases items.len(),
{
    if items.len() > 0 {
        let prev = items.drop_last();
        lemma_ring_buffer_keeps_latest(prev);
        let n = items.len() as int;
        assert forall|k: int|
            0 <= k < items.len() && items.len() - k <= RING_BUFFER_INTERNAL_STORAGE_SLOTS
            implies #[trigger] ring_filled(items).0[k % (RING_BUFFER_INTERNAL_STORAGE_SLOTS as int)]
            == items[k] by {
            if k < n - 1 {
                assert(prev[k] == items[k]);
                assert(ring_filled(prev).0[k % 32] == prev[k]);
                if n - 1 >= 32 {
                    assert((n - 1) % 32 != k % 32) by (nonlinear_arith)
                        requires
                            0 <= k < n - 1,
                            n - k <= 32,
                    ;
                } else {
                    assert(k % 32 == k);
                }
            } else {
                if n - 1 < 32 {
                    assert(k % 32 == k);
                }
            }
        }
    }
}

} // verus!
