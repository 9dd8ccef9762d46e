use vstd::prelude::*;
use crate::components::{PositionComponent, EntityComponent, TeamComponent};

verus! {

/// The eight little-endian bytes of a 64-bit value.
pub open spec fn le_bytes(v: u64) -> Seq<u8> {
    seq![
        v as u8,
        (v >> 8u64) as u8,
        (v >> 16u64) as u8,
        (v >> 24u64) as u8,
        (v >> 32u64) as u8,
        (v >> 40u64) as u8,
        (v >> 48u64) as u8,
        (v >> 56u64) as u8,
    ]
}

/// The 64-bit value of eight little-endian bytes.
pub open spec fn le_value(b: Seq<u8>) -> u64 {
    (b[0] as u64) | ((b[1] as u64) << 8u64) | ((b[2] as u64) << 16u64) | ((b[3] as u64) << 24u64)
        | ((b[4] as u64) << 32u64) | ((b[5] as u64) << 40u64) | ((b[6] as u64) << 48u64) | ((
    b[7] as u64) << 56u64)
}

proof fn lemma_le_round_trip(v: u64)
    ensures
        le_bytes(v).len() == 8,
        le_value(le_bytes(v)) == v,
{
    let b = le_bytes(v);
    let b0 = b[0];
    let b1 = b[1];
    let b2 = b[2];
    let b3 = b[3];
    let b4 = b[4];
    let b5 = b[5];
    let b6 = b[6];
    let b7 = b[7];
    assert(b0 == v as u8 && b1 == (v >> 8u64) as u8 && b2 == (v >> 16u64) as u8 && b3 == (v
        >> 24u64) as u8 && b4 == (v >> 32u64) as u8 && b5 == (v >> 40u64) as u8 && b6 == (v
        >> 48u64) as u8 && b7 == (v >> 56u64) as u8);
    assert(((b0 as u64) | ((b1 as u64) << 8u64) | ((b2 as u64) << 16u64) | ((b3 as u64) << 24u64)
        | ((b4 as u64) << 32u64) | ((b5 as u64) << 40u64) | ((b6 as u64) << 48u64) | ((
    b7 as u64) << 56u64)) == v) by (bit_vector)
        requires
            b0 == v as u8,
            b1 == (v >> 8u64) as u8,
            b2 == (v >> 16u64) as u8,
            b3 == (v >> 24u64) as u8,
            b4 == (v >> 32u64) as u8,
            b5 == (v >> 40u64) as u8,
            b6 == (v >> 48u64) as u8,
            b7 == (v >> 56u64) as u8,
    ;
}

/// Appends the eight little-endian bytes of `v`.
fn push_le_u64(out: &mut Vec<u8>, v: u64)
    ensures
        final(out)@ == old(out)@ + le_bytes(v),
{
    out.push(v as u8);
    out.push((v >> 8u64) as u8);
    out.push((v >> 16u64) as u8);
    out.push((v >> 24u64) as u8);
    out.push((v >> 32u64) as u8);
    out.push((v >> 40u64) as u8);
    out.push((v >> 48u64) as u8);
    out.push((v >> 56u64) as u8);
    proof {
        assert(final(out)@ =~= old(out)@ + le_bytes(v));
    }
}

/// Reads eight little-endian bytes at `at`.
fn read_le_u64(bytes: &Vec<u8>, at: usize) -> (r: u64)
    requires
        at + 8 <= bytes@.len(),
    ensures
        r == le_value(bytes@.subrange(at as int, at + 8)),
{
    let _len = bytes.len();
    let r = (bytes[at] as u64) | ((bytes[at + 1] as u64) << 8u64) | ((bytes[at + 2] as u64)
        << 16u64) | ((bytes[at + 3] as u64) << 24u64) | ((bytes[at + 4] as u64) << 32u64) | ((
    bytes[at + 5] as u64) << 40u64) | ((bytes[at + 6] as u64) << 48u64) | ((bytes[at + 7] as u64)
        << 56u64);
    proof {
        let s = bytes@.subrange(at as int, at + 8);
        assert(s[0] == bytes@[at as int] && s[1] == bytes@[at + 1] && s[2] == bytes@[at + 2]
            && s[3] == bytes@[at + 3] && s[4] == bytes@[at + 4] && s[5] == bytes@[at + 5] && s[6]
            == bytes@[at + 6] && s[7] == bytes@[at + 7]);
    }
    r
}

/// Appends all of `bytes`.
fn push_all(out: &mut Vec<u8>, bytes: &Vec<u8>)
    ensures
        final(out)@ == old(out)@ + bytes@,
{
    let mut i: usize = 0;
    while i < bytes.len()
        invariant
            i <= bytes@.len(),
            out@ == old(out)@ + bytes@.take(i as int),
        decreases bytes@.len() - i,
    {
        out.push(bytes[i]);
        i += 1;
        proof {
            assert(out@ =~= old(out)@ + bytes@.take(i as int));
        }
    }
    proof {
        assert(bytes@.take(bytes@.len() as int) =~= bytes@);
    }
}

/// Copies `bytes[from..to]`.
fn copy_range(bytes: &Vec<u8>, from: usize, to: usize) -> (r: Vec<u8>)
    requires
        from <= to <= bytes@.len(),
    ensures
        r@ == bytes@.subrange(from as int, to as int),
{
    let mut r: Vec<u8> = Vec::with_capacity(to - from);
    let mut i: usize = from;
    while i < to
        invariant
            from <= i <= to,
            to <= bytes@.len(),
            r@ == bytes@.subrange(from as int, i as int),
        decreases to - i,
    {
        r.push(bytes[i]);
        i += 1;
        proof {
            assert(r@ =~= bytes@.subrange(from as int, i as int));
        }
    }
    r
}

/// One entity's slot in an encoded component column: the payload's length
/// as eight little-endian bytes, then the payload; an empty slot is eight
/// zero bytes.
pub open spec fn slot_bytes(slot: Option<Seq<u8>>) -> Seq<u8> {
    match slot {
        Some(p) => le_bytes(p.len() as u64) + p,
        None => le_bytes(0),
    }
}

/// An encoded component column: the slots of every entity in order.
pub open spec fn column_bytes(slots: Seq<Option<Seq<u8>>>) -> Seq<u8>
    decreases slots.len(),
{
    if slots.len() == 0 {
        Seq::empty()
    } else {
        column_bytes(slots.drop_last()) + slot_bytes(slots.last())
    }
}

/// The slots read back from an encoded component column, front to back: a
/// length of zero is an empty slot; otherwise that many payload bytes follow.
/// `None` where the bytes end inside a length or a payload (or hold none).
pub open spec fn parse_column(b: Seq<u8>) -> Option<Seq<Option<Seq<u8>>>>
    decreases b.len(),
{
    if b.len() < 8 {
        None
    } else {
        let size = le_value(b.take(8)) as int;
        if 8 + size > b.len() {
            None
        } else {
            let slot = if size == 0 {
                None
            } else {
                Some(b.subrange(8, 8 + size))
            };
            let rest = b.skip(8 + size);
            if rest.len() == 0 {
                Some(seq![slot])
            } else {
                match parse_column(rest) {
                    Some(t) => Some(seq![slot] + t),
                    None => None,
                }
            }
        }
    }
}

/// The bytes of the slots, as a sequence (payloads by their views).
pub open spec fn slot_views(slots: Seq<Option<Vec<u8>>>) -> Seq<Option<Seq<u8>>> {
    slots.map_values(
        |s: Option<Vec<u8>>|
            match s {
                Some(v) => Some(v@),
                None => None,
            },
    )
}

/// Encodes a component column from the encoded component of each entity
/// (`None` for an entity without the component).
pub fn encode_component_frames(slots: &Vec<Option<Vec<u8>>>) -> (r: Vec<u8>)
    requires
        forall|i: int| 0 <= i < slots@.len() ==> (#[trigger] slots@[i] matches Some(p) ==> p@.len() <= u64::MAX),
    ensures
        r@ == column_bytes(slot_views(slots@)),
{
    let mut out: Vec<u8> = Vec::new();
    let mut i: usize = 0;
    let ghost views = slot_views(slots@);
    while i < slots.len()
        invariant
            views == slot_views(slots@),
            forall|j: int| 0 <= j < slots@.len() ==> (#[trigger] slots@[j] matches Some(p) ==> p@.len() <= u64::MAX),
            i <= slots@.len(),
            out@ == column_bytes(views.take(i as int)),
        decreases slots@.len() - i,
    {
        match &slots[i] {
            Some(payload) => {
                push_le_u64(&mut out, payload.len() as u64);
                push_all(&mut out, payload);
            },
            None => {
                push_le_u64(&mut out, 0);
            },
        }
        proof {
            assert(views.take(i + 1).drop_last() =~= views.take(i as int));
        }
        i += 1;
    }
    proof {
        assert(views.take(slots@.len() as int) =~= views);
    }
    out
}


/// `acc` followed by the slots of a parse, if the parse succeeded.
pub open spec fn prefixed<T>(acc: Seq<T>, parsed: Option<Seq<T>>) -> Option<Seq<T>> {
    match parsed {
        Some(t) => Some(acc + t),
        None => None,
    }
}

/// Reads the encoded component of each entity back from a component column;
/// `None` where the bytes end inside a length or a payload, or hold no slot.
pub fn decode_component_frames(bytes: &Vec<u8>) -> (r: Option<Vec<Option<Vec<u8>>>>)
    ensures
        match r {
            Some(v) => parse_column(bytes@) == Some(slot_views(v@)),
            None => parse_column(bytes@) is None,
        },
{
    let len = bytes.len();
    let ghost b = bytes@;
    if len == 0 {
        return None;
    }
    let mut result: Vec<Option<Vec<u8>>> = Vec::new();
    let mut cur: usize = 0;
    proof {
        assert(b.skip(0) =~= b);
        assert(slot_views(result@) =~= Seq::<Option<Seq<u8>>>::empty());
    }
    loop
        invariant
            len == b.len(),
            b == bytes@,
            cur < len,
            parse_column(b) == prefixed(slot_views(result@), parse_column(b.skip(cur as int))),
        decreases len - cur,
    {
        let ghost rest = b.skip(cur as int);
        if len - cur < 8 {
            return None;
        }
        let size = read_le_u64(bytes, cur);
        proof {
            assert(rest.take(8) =~= b.subrange(cur as int, cur + 8));
        }
        if size > (len - cur - 8) as u64 {
            return None;
        }
        let data_size = size as usize;
        let data_start = cur + 8;
        let end = data_start + data_size;
        let slot = if data_size == 0 {
            None
        } else {
            Some(copy_range(bytes, data_start, end))
        };
        let ghost old_views = slot_views(result@);
        result.push(slot);
        proof {
            assert(rest.subrange(8, 8 + data_size) =~= b.subrange(data_start as int, end as int));
            assert(rest.skip(8 + data_size) =~= b.skip(end as int));
            assert(slot_views(result@) =~= old_views.push(
                if data_size == 0 { None } else { Some(b.subrange(data_start as int, end as int)) },
            ));
        }
        if end >= len {
            proof {
                assert(slot_views(result@) =~= old_views + seq![
                    if data_size == 0 { None } else { Some(b.subrange(data_start as int, end as int)) },
                ]);
            }
            return Some(result);
        }
        proof {
            let item = if data_size == 0 { None } else { Some(b.subrange(data_start as int, end as int)) };
            match parse_column(b.skip(end as int)) {
                Some(t) => {
                    assert(old_views + (seq![item] + t) =~= slot_views(result@) + t);
                },
                None => {},
            }
        }
        cur = end;
    }
}

/// Law: reading back an encoded component column gives every entity's slot,
/// provided there is at least one entity and no component encodes to zero
/// bytes (a zero length marks an empty slot).
pub proof fn lemma_component_frames_round_trip(slots: Seq<Option<Seq<u8>>>)
    requires
        slots.len() > 0,
        forall|i: int| 0 <= i < slots.len() ==> (#[trigger] slots[i] matches Some(p) ==> 0 < p.len() <= u64::MAX),
    ensures
        parse_column(column_bytes(slots)) == Some(slots),
    decreases slots.len(),
{
    lemma_column_bytes_front(slots);
    let first = slots[0];
    let rest = slots.drop_first();
    let b = column_bytes(slots);
    let fb = slot_bytes(first);
    let size: u64 = match first {
        Some(p) => p.len() as u64,
        None => 0,
    };
    lemma_le_round_trip(size);
    assert(b.take(8) =~= le_bytes(size));
    assert(b.skip(8 + size as int) =~= column_bytes(rest));
    match first {
        Some(p) => {
            assert(b.subrange(8, 8 + size as int) =~= p);
        },
        None => {},
    }
    if rest.len() == 0 {
        assert(column_bytes(rest).len() == 0);
        assert(seq![first] =~= slots);
    } else {
        assert forall|i: int| 0 <= i < rest.len() implies (#[trigger] rest[i] matches Some(p) ==> 0 < p.len() <= u64::MAX) by {
            assert(rest[i] == slots[i + 1]);
        }
        lemma_component_frames_round_trip(rest);
        lemma_column_bytes_len_pos(rest);
        assert(seq![first] + rest =~= slots);
    }
}

proof fn lemma_column_bytes_len_pos(slots: Seq<Option<Seq<u8>>>)
    requires
        slots.len() > 0,
    ensures
        column_bytes(slots).len() > 0,
{
    assert(slot_bytes(slots.last()).len() >= 8);
}

proof fn lemma_column_bytes_front(slots: Seq<Option<Seq<u8>>>)
    requires
        slots.len() > 0,
    ensures
        column_bytes(slots) == slot_bytes(slots[0]) + column_bytes(slots.drop_first()),
    decreases slots.len(),
{
    if slots.len() == 1 {
        assert(slots.drop_last().len() == 0);
        assert(slots.drop_first().len() == 0);
        assert(column_bytes(slots.drop_last()) =~= Seq::<u8>::empty());
        assert(column_bytes(slots.drop_first()) =~= Seq::<u8>::empty());
        assert(slots.last() == slots[0]);
        assert(column_bytes(slots) =~= slot_bytes(slots[0]) + column_bytes(slots.drop_first()));
    } else {
        lemma_column_bytes_front(slots.drop_last());
        assert(slots.drop_last().drop_first() =~= slots.drop_first().drop_last());
        assert(slots.drop_first().last() == slots.last());
        assert(column_bytes(slots) =~= slot_bytes(slots[0]) + column_bytes(slots.drop_first()));
    }
}


/// The frame of component column `index` in an encoded world: the index as
/// one byte, then the column's length and bytes; a column that is not
/// replicated has length zero.
pub open spec fn world_frame_bytes(index: nat, column: Option<Seq<u8>>) -> Seq<u8> {
    seq![index as u8] + slot_bytes(column)
}

/// An encoded world: the frames of the columns from index `start` on.
pub open spec fn world_bytes(columns: Seq<Option<Seq<u8>>>, start: nat) -> Seq<u8>
    decreases columns.len(),
{
    if columns.len() == 0 {
        Seq::empty()
    } else {
        world_frame_bytes(start, columns[0]) + world_bytes(columns.drop_first(), start + 1)
    }
}

/// The frames a world rebuild uses, from index `start` on: each replicated
/// column with bytes, by its index.
pub open spec fn replicated_frames(columns: Seq<Option<Seq<u8>>>, start: nat) -> Seq<(u8, Seq<u8>)>
    decreases columns.len(),
{
    if columns.len() == 0 {
        Seq::empty()
    } else {
        let rest = replicated_frames(columns.drop_first(), start + 1);
        match columns[0] {
            Some(p) => if p.len() > 0 {
                seq![(start as u8, p)] + rest
            } else {
                rest
            },
            None => rest,
        }
    }
}

/// The frames read back from an encoded world, front to back: a type byte,
/// eight little-endian length bytes, then that many bytes; frames of length
/// zero are skipped. `None` where the bytes end inside a frame (or hold none).
pub open spec fn parse_world(b: Seq<u8>) -> Option<Seq<(u8, Seq<u8>)>>
    decreases b.len(),
{
    if b.len() < 9 {
        None
    } else {
        let size = le_value(b.subrange(1, 9)) as int;
        if 9 + size > b.len() {
            None
        } else {
            let frames = if size > 0 {
                seq![(b[0], b.subrange(9, 9 + size))]
            } else {
                Seq::empty()
            };
            let rest = b.skip(9 + size);
            if rest.len() == 0 {
                Some(frames)
            } else {
                prefixed(frames, parse_world(rest))
            }
        }
    }
}

proof fn lemma_world_bytes_push(columns: Seq<Option<Seq<u8>>>, column: Option<Seq<u8>>, start: nat)
    ensures
        world_bytes(columns.push(column), start) == world_bytes(columns, start) + world_frame_bytes(
            start + columns.len(),
            column,
        ),
    decreases columns.len(),
{
    if columns.len() == 0 {
        assert(columns.push(column).drop_first() =~= Seq::<Option<Seq<u8>>>::empty());
        assert(world_bytes(columns.push(column).drop_first(), start + 1) =~= Seq::<u8>::empty());
        assert(columns.push(column)[0] == column);
        assert(world_bytes(columns.push(column), start) =~= world_frame_bytes(start, column));
        assert(world_bytes(columns, start) =~= Seq::<u8>::empty());
    } else {
        lemma_world_bytes_push(columns.drop_first(), column, start + 1);
        assert(columns.push(column).drop_first() =~= columns.drop_first().push(column));
        assert(world_bytes(columns.push(column), start) =~= world_bytes(columns, start)
            + world_frame_bytes(start + columns.len(), column));
    }
}

/// Encodes the world: every component column in order, each as its index
/// byte and its bytes (`None` for a column that is not replicated). At most
/// 255 columns fit, since the index is one byte below 255.
pub fn encode_world_frames(columns: &Vec<Option<Vec<u8>>>) -> (r: Vec<u8>)
    requires
        columns@.len() <= 255,
        forall|i: int| 0 <= i < columns@.len() ==> (#[trigger] columns@[i] matches Some(p) ==> p@.len() <= u64::MAX),
    ensures
        r@ == world_bytes(slot_views(columns@), 0),
{
    let mut out: Vec<u8> = Vec::new();
    let mut index: usize = 0;
    let ghost views = slot_views(columns@);
    proof {
        assert(views.take(0) =~= Seq::<Option<Seq<u8>>>::empty());
    }
    while index < columns.len()
        invariant
            views == slot_views(columns@),
            columns@.len() <= 255,
            forall|j: int| 0 <= j < columns@.len() ==> (#[trigger] columns@[j] matches Some(p) ==> p@.len() <= u64::MAX),
            index <= columns@.len(),
            out@ == world_bytes(views.take(index as int), 0),
        decreases columns@.len() - index,
    {
        let ghost before = out@;
        out.push(index as u8);
        match &columns[index] {
            Some(bytes) => {
                push_le_u64(&mut out, bytes.len() as u64);
                push_all(&mut out, bytes);
            },
            None => {
                push_le_u64(&mut out, 0);
            },
        }
        proof {
            lemma_world_bytes_push(views.take(index as int), views[index as int], 0);
            assert(views.take(index as int).push(views[index as int]) =~= views.take(index + 1));
            assert(out@ =~= before + world_frame_bytes(index as nat, views[index as int]));
        }
        index += 1;
    }
    proof {
        assert(views.take(columns@.len() as int) =~= views);
    }
    out
}

/// The frame views of a list of decoded frames.
pub open spec fn frame_views(frames: Seq<(u8, Vec<u8>)>) -> Seq<(u8, Seq<u8>)> {
    frames.map_values(|f: (u8, Vec<u8>)| (f.0, f.1@))
}

/// Reads back the frames of an encoded world that a rebuild uses: the type
/// byte and bytes of each frame with bytes, in order. `None` where the bytes
/// end inside a frame or hold none.
pub fn decode_world_frames(bytes: &Vec<u8>) -> (r: Option<Vec<(u8, Vec<u8>)>>)
    ensures
        match r {
            Some(v) => parse_world(bytes@) == Some(frame_views(v@)),
            None => parse_world(bytes@) is None,
        },
{
    let len = bytes.len();
    let ghost b = bytes@;
    if len == 0 {
        return None;
    }
    let mut result: Vec<(u8, Vec<u8>)> = Vec::new();
    let mut cur: usize = 0;
    proof {
        assert(b.skip(0) =~= b);
        assert(frame_views(result@) =~= Seq::<(u8, Seq<u8>)>::empty());
    }
    loop
        invariant
            len == b.len(),
            b == bytes@,
            cur < len,
            parse_world(b) == prefixed(frame_views(result@), parse_world(b.skip(cur as int))),
        decreases len - cur,
    {
        let ghost rest = b.skip(cur as int);
        if len - cur < 9 {
            return None;
        }
        let size = read_le_u64(bytes, cur + 1);
        proof {
            assert(rest.subrange(1, 9) =~= b.subrange(cur + 1, cur + 9));
        }
        if size > (len - cur - 9) as u64 {
            return None;
        }
        let number_of_bytes = size as usize;
        let data_start = cur + 9;
        let end = data_start + number_of_bytes;
        let ghost old_views = frame_views(result@);
        let ghost frames = if number_of_bytes > 0 {
            seq![(b[cur as int], b.subrange(data_start as int, end as int))]
        } else {
            Seq::<(u8, Seq<u8>)>::empty()
        };
        if number_of_bytes > 0 {
            let data = copy_range(bytes, data_start, end);
            result.push((bytes[cur], data));
        }
        proof {
            assert(rest[0] == b[cur as int]);
            assert(rest.subrange(9, 9 + number_of_bytes) =~= b.subrange(data_start as int, end as int));
            assert(rest.skip(9 + number_of_bytes) =~= b.skip(end as int));
            assert(frame_views(result@) =~= old_views + frames);
        }
        if end >= len {
            return Some(result);
        }
        proof {
            match parse_world(b.skip(end as int)) {
                Some(t) => {
                    assert(old_views + (frames + t) =~= frame_views(result@) + t);
                },
                None => {},
            }
        }
        cur = end;
    }
}

proof fn lemma_world_bytes_first_frame(columns: Seq<Option<Seq<u8>>>, start: nat)
    requires
        columns.len() > 0,
        columns[0] matches Some(p) ==> p.len() <= u64::MAX,
    ensures
        ({
            let b = world_bytes(columns, start);
            let size: u64 = match columns[0] {
                Some(p) => p.len() as u64,
                None => 0,
            };
            &&& 9 + size <= b.len()
            &&& b[0] == start as u8
            &&& le_value(b.subrange(1, 9)) == size
            &&& (columns[0] matches Some(p) ==> b.subrange(9, 9 + size as int) == p)
            &&& b.skip(9 + size as int) == world_bytes(columns.drop_first(), start + 1)
        }),
{
    let b = world_bytes(columns, start);
    let size: u64 = match columns[0] {
        Some(p) => p.len() as u64,
        None => 0,
    };
    lemma_le_round_trip(size);
    assert(b.subrange(1, 9) =~= le_bytes(size));
    assert(b.skip(9 + size as int) =~= world_bytes(columns.drop_first(), start + 1));
    match columns[0] {
        Some(p) => {
            assert(b.subrange(9, 9 + size as int) =~= p);
        },
        None => {},
    }
}

/// Law: reading back an encoded world gives, in order, the index and bytes
/// of every replicated column with bytes; a column of zero bytes and a column
/// that is not replicated give nothing. Needs at least one column and at most
/// 255 columns (from index `start`, so that every index fits one byte).
pub proof fn lemma_world_frames_round_trip(columns: Seq<Option<Seq<u8>>>, start: nat)
    requires
        columns.len() > 0,
        start + columns.len() <= 255,
        forall|i: int| 0 <= i < columns.len() ==> (#[trigger] columns[i] matches Some(p) ==> p.len() <= u64::MAX),
    ensures
        parse_world(world_bytes(columns, start)) == Some(replicated_frames(columns, start)),
    decreases columns.len(),
{
    let rest = columns.drop_first();
    lemma_world_bytes_first_frame(columns, start);
    let tail = replicated_frames(rest, start + 1);
    if rest.len() > 0 {
        assert forall|i: int| 0 <= i < rest.len() implies (#[trigger] rest[i] matches Some(p) ==> p.len() <= u64::MAX) by {
            assert(rest[i] == columns[i + 1]);
        }
        lemma_world_frames_round_trip(rest, start + 1);
        lemma_world_bytes_first_frame(rest, start + 1);
    } else {
        assert(world_bytes(rest, start + 1).len() == 0);
        assert(tail.len() == 0);
    }
    match columns[0] {
        Some(p) => if p.len() > 0 {
            assert(seq![(start as u8, p)] + Seq::<(u8, Seq<u8>)>::empty() =~= seq![(start as u8, p)]);
        } else {
            assert(Seq::<(u8, Seq<u8>)>::empty() + tail =~= tail);
        },
        None => {
            assert(Seq::<(u8, Seq<u8>)>::empty() + tail =~= tail);
        },
    }
}


proof fn lemma_replicated_frames_members(columns: Seq<Option<Seq<u8>>>, start: nat)
    requires
        start + columns.len() <= 256,
    ensures
        ({
            let rf = replicated_frames(columns, start);
            &&& forall|k: int|
                0 <= k < rf.len() ==> {
                    &&& start <= (#[trigger] rf[k]).0 < start + columns.len()
                    &&& columns[rf[k].0 - start] == Some(rf[k].1)
                    &&& rf[k].1.len() > 0
                }
            &&& forall|k1: int, k2: int|
                0 <= k1 < k2 < rf.len() ==> (#[trigger] rf[k1]).0 < (#[trigger] rf[k2]).0
            &&& forall|i: int|
                0 <= i < columns.len() && (#[trigger] columns[i] matches Some(p) && p.len() > 0)
                    ==> exists|k: int| 0 <= k < rf.len() && (#[trigger] rf[k]).0 == start + i
        }),
    decreases columns.len(),
{
    if columns.len() > 0 {
        let rest = columns.drop_first();
        lemma_replicated_frames_members(rest, start + 1);
        let rf = replicated_frames(columns, start);
        let tail = replicated_frames(rest, start + 1);
        let first_kept = match columns[0] {
            Some(p) => p.len() > 0,
            None => false,
        };
        if first_kept {
            let p = columns[0].unwrap();
            assert(rf == seq![(start as u8, p)] + tail);
            assert forall|k: int| 0 <= k < rf.len() implies {
                &&& start <= (#[trigger] rf[k]).0 < start + columns.len()
                &&& columns[rf[k].0 - start] == Some(rf[k].1)
                &&& rf[k].1.len() > 0
            } by {
                if k > 0 {
                    assert(rf[k] == tail[k - 1]);
                    assert(columns[rf[k].0 - start] == rest[rf[k].0 - (start + 1)]);
                }
            }
            assert forall|k1: int, k2: int| 0 <= k1 < k2 < rf.len() implies (#[trigger] rf[k1]).0
                < (#[trigger] rf[k2]).0 by {
                assert(rf[k2] == tail[k2 - 1]);
                if k1 > 0 {
                    assert(rf[k1] == tail[k1 - 1]);
                }
            }
            assert forall|i: int|
                0 <= i < columns.len() && (#[trigger] columns[i] matches Some(q) && q.len() > 0)
                implies exists|k: int| 0 <= k < rf.len() && (#[trigger] rf[k]).0 == start + i by {
                if i == 0 {
                    assert(rf[0].0 == start);
                } else {
                    assert(rest[i - 1] == columns[i]);
                    let k = choose|k: int| 0 <= k < tail.len() && (#[trigger] tail[k]).0 == start + 1 + (
                    i - 1);
                    assert(rf[k + 1] == tail[k]);
                }
            }
        } else {
            assert(rf == tail);
            assert forall|k: int| 0 <= k < rf.len() implies {
                &&& start <= (#[trigger] rf[k]).0 < start + columns.len()
                &&& columns[rf[k].0 - start] == Some(rf[k].1)
                &&& rf[k].1.len() > 0
            } by {
                assert(rf[k] == tail[k]);
                assert(columns[rf[k].0 - start] == rest[rf[k].0 - (start + 1)]);
            }
            assert forall|i: int|
                0 <= i < columns.len() && (#[trigger] columns[i] matches Some(q) && q.len() > 0)
                implies exists|k: int| 0 <= k < rf.len() && (#[trigger] rf[k]).0 == start + i by {
                assert(i != 0);
                assert(rest[i - 1] == columns[i]);
                let k = choose|k: int| 0 <= k < tail.len() && (#[trigger] tail[k]).0 == start + 1 + (i
                    - 1);
                assert(rf[k] == tail[k]);
            }
        }
    }
}

/// The encoded column of each kind of component that is replicated, from
/// every entity's encoded component; `None` for a kind that is not.
pub open spec fn encoded_world(kinds: Seq<Option<Seq<Option<Seq<u8>>>>>) -> Seq<Option<Seq<u8>>> {
    kinds.map_values(
        |kind: Option<Seq<Option<Seq<u8>>>>|
            match kind {
                Some(slots) => Some(column_bytes(slots)),
                None => None,
            },
    )
}

/// A kind of component can be sent: its encoded column fits a 64-bit length,
/// and no entity's component encodes to zero bytes (a zero length marks an
/// empty slot).
pub open spec fn sendable(kind: Option<Seq<Option<Seq<u8>>>>) -> bool {
    match kind {
        Some(slots) => {
            &&& column_bytes(slots).len() <= u64::MAX
            &&& forall|j: int| 0 <= j < slots.len() ==> (#[trigger] slots[j] matches Some(p) ==> 0 < p.len() <= u64::MAX)
        },
        None => true,
    }
}

/// Law: a client reads back the server's replicated components from the
/// encoded world. Reading the world's bytes gives one frame per replicated
/// kind of component that has entities, in order of kind; the frame names
/// its kind, and reading its bytes gives every entity's encoded component of
/// that kind, in order. Needs at least one and at most 255 kinds, each
/// sendable.
pub proof fn lemma_replication_round_trip(kinds: Seq<Option<Seq<Option<Seq<u8>>>>>)
    requires
        0 < kinds.len() <= 255,
        forall|i: int| 0 <= i < kinds.len() ==> #[trigger] sendable(kinds[i]),
    ensures
        parse_world(world_bytes(encoded_world(kinds), 0)) is Some,
        ({
            let frames = parse_world(world_bytes(encoded_world(kinds), 0)).unwrap();
            &&& forall|k: int|
                0 <= k < frames.len() ==> {
                    &&& (#[trigger] frames[k]).0 < kinds.len()
                    &&& kinds[frames[k].0 as int] matches Some(slots)
                    &&& slots.len() > 0
                    &&& parse_column(frames[k].1) == Some(slots)
                }
            &&& forall|k1: int, k2: int|
                0 <= k1 < k2 < frames.len() ==> (#[trigger] frames[k1]).0 < (#[trigger] frames[k2]).0
            &&& forall|i: int|
                0 <= i < kinds.len() && (#[trigger] kinds[i] matches Some(slots) && slots.len() > 0)
                    ==> exists|k: int| 0 <= k < frames.len() && (#[trigger] frames[k]).0 == i
        }),
{
    let columns = encoded_world(kinds);
    assert forall|i: int| 0 <= i < columns.len() implies (#[trigger] columns[i] matches Some(p)
        ==> p.len() <= u64::MAX) by {
        assert(sendable(kinds[i]));
    }
    lemma_world_frames_round_trip(columns, 0);
    lemma_replicated_frames_members(columns, 0);
    let frames = replicated_frames(columns, 0);
    assert forall|k: int| 0 <= k < frames.len() implies {
        &&& (#[trigger] frames[k]).0 < kinds.len()
        &&& kinds[frames[k].0 as int] matches Some(slots)
        &&& slots.len() > 0
        &&& parse_column(frames[k].1) == Some(slots)
    } by {
        let i = frames[k].0 as int;
        assert(columns[i] == Some(frames[k].1));
        assert(sendable(kinds[i]));
        let slots = kinds[i].unwrap();
        assert(column_bytes(slots) == frames[k].1);
        if slots.len() == 0 {
            assert(column_bytes(slots).len() == 0);
        }
        lemma_component_frames_round_trip(slots);
    }
    assert forall|i: int|
        0 <= i < kinds.len() && (#[trigger] kinds[i] matches Some(slots) && slots.len() > 0)
        implies exists|k: int| 0 <= k < frames.len() && (#[trigger] frames[k]).0 == i by {
        let slots = kinds[i].unwrap();
        lemma_column_bytes_len_pos(slots);
        assert(columns[i] == Some(column_bytes(slots)));
    }
}

/// A column after making room for `entities_count` entities (empty slots are
/// added at the end of a shorter column) and storing `component` for `entity`.
pub open spec fn column_with<T>(column: Seq<Option<T>>, entities_count: usize, entity: usize, component: T) -> Seq<Option<T>> {
    let padded = if column.len() < entities_count {
        column + Seq::new((entities_count - column.len()) as nat, |i: int| None::<T>)
    } else {
        column
    };
    padded.update(entity as int, Some(component))
}

/// Law: after storing a component for an entity, the entity's slot holds it;
/// the column has room for every entity of the world (or keeps its length if
/// longer); every other slot it had is unchanged and every slot it gained is
/// empty.
pub proof fn lemma_column_with_stores<T>(column: Seq<Option<T>>, entities_count: usize, entity: usize, component: T)
    requires
        entity < column.len() || entity < entities_count,
    ensures
        ({
            let after = column_with(column, entities_count, entity, component);
            &&& after.len() == if column.len() < entities_count { entities_count as nat } else { column.len() }
            &&& after[entity as int] == Some(component)
            &&& forall|i: int| 0 <= i < column.len() && i != entity ==> #[trigger] after[i] == column[i]
            &&& forall|i: int| column.len() <= i < after.len() && i != entity ==> #[trigger] after[i] is None
        }),
{
}

/// Stores a component for an entity in its column, first making room for
/// every entity in the world.
pub fn add_component_to_column<T>(column: &mut Vec<Option<T>>, entities_count: usize, entity: usize, component: T)
    requires
        entity < old(column)@.len() || entity < entities_count,
    ensures
        final(column)@ == column_with(old(column)@, entities_count, entity, component),
{
    let ghost before = column@;
    if column.len() < entities_count {
        let missing_entities = entities_count - column.len();
        let mut k: usize = 0;
        while k < missing_entities
            invariant
                before.len() + missing_entities == entities_count,
                k <= missing_entities,
                column@ == before + Seq::new(k as nat, |i: int| None::<T>),
            decreases missing_entities - k,
        {
            column.push(None);
            k += 1;
            proof {
                assert(column@ =~= before + Seq::new(k as nat, |i: int| None::<T>));
            }
        }
    }
    column.set(entity, Some(component));
}

/// The test radius of a point query: entities farther than this (squared
/// grid distance) are not picked.
pub const TEST_RADIUS: i64 = 100;

/// The squared grid distance from a position to a point.
pub open spec fn squared_distance(p: PositionComponent, x: i64, y: i64) -> int {
    (p.x - x) * (p.x - x) + (p.y - y) * (p.y - y)
}

/// Entity slot `i` has both a position and an entity id.
pub open spec fn has_both(positions: Seq<Option<PositionComponent>>, entities: Seq<Option<EntityComponent>>, i: int) -> bool {
    0 <= i < positions.len() && i < entities.len() && positions[i] is Some && entities[i] is Some
}

/// Entity slot `i` can be picked at the point: it has a position within the
/// test radius and an entity id.
pub open spec fn pickable(positions: Seq<Option<PositionComponent>>, entities: Seq<Option<EntityComponent>>, x: i64, y: i64, i: int) -> bool {
    has_both(positions, entities, i) && squared_distance(positions[i].unwrap(), x, y) <= TEST_RADIUS
}

/// Slot `i` is the nearest pickable slot, and the first among equally near ones.
pub open spec fn nearest_pickable(positions: Seq<Option<PositionComponent>>, entities: Seq<Option<EntityComponent>>, x: i64, y: i64, i: int) -> bool {
    &&& pickable(positions, entities, x, y, i)
    &&& forall|j: int| #[trigger] pickable(positions, entities, x, y, j) ==> squared_distance(positions[i].unwrap(), x, y) <= squared_distance(positions[j].unwrap(), x, y)
    &&& forall|j: int| 0 <= j < i && #[trigger] pickable(positions, entities, x, y, j) ==> squared_distance(positions[i].unwrap(), x, y) < squared_distance(positions[j].unwrap(), x, y)
}

/// Every distance a point query computes fits in an `i64`.
pub open spec fn distances_fit(positions: Seq<Option<PositionComponent>>, entities: Seq<Option<EntityComponent>>, x: i64, y: i64) -> bool {
    forall|i: int| #[trigger] has_both(positions, entities, i) ==> {
        let p = positions[i].unwrap();
        &&& i64::MIN <= p.x - x <= i64::MAX
        &&& i64::MIN <= p.y - y <= i64::MAX
        &&& squared_distance(p, x, y) <= i64::MAX
    }
}

/// The entity at a point: among the entities with a position within the test
/// radius of the point, the id of the nearest one (the first of equally near
/// ones); `None` if there is none.
pub fn entity_at_point(
    positions: &Vec<Option<PositionComponent>>,
    entities: &Vec<Option<EntityComponent>>,
    location_x: i64,
    location_y: i64,
) -> (r: Option<usize>)
    requires
        distances_fit(positions@, entities@, location_x, location_y),
    ensures
        match r {
            Some(id) => exists|i: int| nearest_pickable(positions@, entities@, location_x, location_y, i) && entities@[i].unwrap().id == id,
            None => forall|i: int| !pickable(positions@, entities@, location_x, location_y, i),
        },
{
    let ghost ps = positions@;
    let ghost es = entities@;
    let n = if positions.len() < entities.len() { positions.len() } else { entities.len() };
    let mut lowest_distance: i64 = i64::MAX;
    let mut the_entity_id: usize = 0;
    let ghost mut best: int = 0;
    let mut i: usize = 0;
    while i < n
        invariant
            ps == positions@,
            es == entities@,
            n <= ps.len(),
            n <= es.len(),
            n == ps.len() || n == es.len(),
            i <= n,
            distances_fit(ps, es, location_x, location_y),
            lowest_distance == i64::MAX ==> forall|j: int| 0 <= j < i ==> !pickable(ps, es, location_x, location_y, j),
            lowest_distance != i64::MAX ==> {
                &&& 0 <= best < i
                &&& pickable(ps, es, location_x, location_y, best)
                &&& squared_distance(ps[best].unwrap(), location_x, location_y) == lowest_distance
                &&& es[best].unwrap().id == the_entity_id
                &&& forall|j: int| 0 <= j < i && #[trigger] pickable(ps, es, location_x, location_y, j) ==> lowest_distance <= squared_distance(ps[j].unwrap(), location_x, location_y)
                &&& forall|j: int| 0 <= j < best && #[trigger] pickable(ps, es, location_x, location_y, j) ==> lowest_distance < squared_distance(ps[j].unwrap(), location_x, location_y)
            },
        decreases n - i,
    {
        match (&positions[i], &entities[i]) {
            (Some(position), Some(entity)) => {
                proof {
                    assert(has_both(ps, es, i as int));
                }
                let dx = position.x - location_x;
                let dy = position.y - location_y;
                proof {
                    assert(dx * dx >= 0) by (nonlinear_arith);
                    assert(dy * dy >= 0) by (nonlinear_arith);
                    assert(squared_distance(ps[i as int].unwrap(), location_x, location_y) == dx * dx + dy * dy);
                }
                let distance = dx * dx + dy * dy;
                if distance <= TEST_RADIUS && distance < lowest_distance {
                    lowest_distance = distance;
                    the_entity_id = entity.id;
                    proof {
                        best = i as int;
                    }
                }
            },
            _ => {
                proof {
                    assert(!has_both(ps, es, i as int));
                }
            },
        }
        i += 1;
    }
    proof {
        assert forall|j: int| i <= j implies !#[trigger] pickable(ps, es, location_x, location_y, j) by {}
    }
    if lowest_distance != i64::MAX {
        proof {
            assert(nearest_pickable(ps, es, location_x, location_y, best));
        }
        return Some(the_entity_id);
    }
    None
}

/// Whether two entities are on the same team. Both must have a team.
pub fn are_friends(team_components: &Vec<Option<TeamComponent>>, entity_a: usize, entity_b: usize) -> (r: bool)
    requires
        entity_a < team_components@.len(),
        entity_b < team_components@.len(),
        team_components@[entity_a as int] is Some,
        team_components@[entity_b as int] is Some,
    ensures
        r == (team_components@[entity_a as int].unwrap().team == team_components@[entity_b as int].unwrap().team),
{
    let a = team_components[entity_a];
    let b = team_components[entity_b];
    match (a, b) {
        (Some(a), Some(b)) => a.team == b.team,
        _ => false,
    }
}

} // verus!
