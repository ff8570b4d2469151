//! The variable data records of EN 13757-3: how a Stream rides in a meter's
//! telegrams, and the control information that says it does.
//!
//! A meter's user data is records, each a data information field, a value
//! information field and the data. A Stream is carried as variable-length
//! records (DIF `0D`, a manufacturer-specific VIF, then one byte of length
//! and that many bytes) of at most 191 bytes each, the most the length byte
//! names as text. A telegram holds as many records as fit its room; when
//! more follow in the next telegram, the special DIF `1F` closes this one.
//! Wired and wireless M-Bus share all of this; only the frame around it
//! differs.

use vstd::prelude::*;

#[allow(unused_imports)]
use crate::error::{viewed, ErrorView, MBusError};

verus! {

/// DIF: the data is variable length, its length in the byte after the VIF.
pub const VARIABLE_LENGTH: u8 = 0x0d;

/// VIF: the data is manufacturer specific; a Stream is.
pub const MANUFACTURER_SPECIFIC: u8 = 0x7f;

/// DIF: more records follow in the next telegram.
pub const MORE_FOLLOW: u8 = 0x1f;

/// The most one record holds: the largest length byte that means bytes.
pub const MAX_RECORD: usize = 0xbf;

/// A record's DIF, VIF and length byte.
pub const RECORD_OVERHEAD: usize = 3;

/// Control information: data sent by the master to the meter, no header.
pub const CI_DATA_SEND: u8 = 0x51;

/// Control information: variable data with the twelve-byte long header.
pub const CI_VARIABLE_LONG: u8 = 0x72;

/// Control information: variable data with the four-byte short header.
pub const CI_VARIABLE_SHORT: u8 = 0x7a;

/// The least room a telegram needs: one record of one byte, and the
/// marker that more follow.
pub const MIN_ROOM: usize = RECORD_OVERHEAD + 2;

/// One record that carries `chunk`.
pub open spec fn record(chunk: Seq<u8>) -> Seq<u8> {
    seq![VARIABLE_LENGTH, MANUFACTURER_SPECIFIC, chunk.len() as u8] + chunk
}

/// The most bytes a record carries in telegrams of `room` bytes: what the
/// length byte can name, and what leaves room for the marker.
pub open spec fn record_size(room: nat) -> nat
    recommends
        room >= MIN_ROOM,
{
    if room - RECORD_OVERHEAD - 1 < MAX_RECORD {
        (room - RECORD_OVERHEAD - 1) as nat
    } else {
        MAX_RECORD as nat
    }
}

/// `payload` cut into pieces of `size` bytes, the last of what is left.
pub open spec fn pieces(payload: Seq<u8>, size: nat) -> Seq<Seq<u8>>
    recommends
        size > 0,
    decreases payload.len(),
{
    if payload.len() <= size || size == 0 {
        seq![payload]
    } else {
        seq![payload.take(size as int)] + pieces(payload.skip(size as int), size)
    }
}

/// The telegram bodies that carry `chunks` as records, the first of them
/// with `open` already in it: a record that leaves no byte of `room` for the
/// marker closes its telegram and opens the next.
pub open spec fn telegrams(open: Seq<u8>, chunks: Seq<Seq<u8>>, room: nat) -> Seq<Seq<u8>>
    decreases chunks.len(),
{
    if chunks.len() == 0 {
        seq![open]
    } else if open.len() + RECORD_OVERHEAD + chunks[0].len() + 1 > room {
        seq![open.push(MORE_FOLLOW)] + telegrams(record(chunks[0]), chunks.drop_first(), room)
    } else {
        telegrams(open + record(chunks[0]), chunks.drop_first(), room)
    }
}

/// The telegram bodies a Stream crosses in, in telegrams of `room` bytes.
pub open spec fn bodies_of(payload: Seq<u8>, room: nat) -> Seq<Seq<u8>> {
    telegrams(Seq::empty(), pieces(payload, record_size(room)), room)
}

/// The bodies [`pack`] makes, where there is room for a record.
pub open spec fn packed(payload: Seq<u8>, room: nat) -> Result<Seq<Seq<u8>>, ErrorView> {
    if room < MIN_ROOM {
        Err(ErrorView::NoRoom(room))
    } else {
        Ok(bodies_of(payload, room))
    }
}

/// `bytes` in front of what the rest of a body carries.
pub open spec fn in_front(
    bytes: Seq<u8>,
    rest: Result<(Seq<u8>, bool), ErrorView>,
) -> Result<(Seq<u8>, bool), ErrorView> {
    match rest {
        Ok((more_bytes, more)) => Ok((bytes + more_bytes, more)),
        Err(error) => Err(error),
    }
}

/// The bytes the records of one telegram body carry, and whether more
/// follow in the next; or why the body is no part of a Stream.
pub open spec fn unpacked(body: Seq<u8>) -> Result<(Seq<u8>, bool), ErrorView>
    decreases body.len(),
{
    if body.len() == 0 {
        Ok((Seq::empty(), false))
    } else if body[0] == MORE_FOLLOW {
        if body.len() > 1 {
            Err(ErrorView::AfterMoreFollow)
        } else {
            Ok((Seq::empty(), true))
        }
    } else if body[0] != VARIABLE_LENGTH {
        Err(ErrorView::NoStream(body[0]))
    } else if body.len() < RECORD_OVERHEAD {
        Err(ErrorView::CutBeforeLength)
    } else if body[2] > MAX_RECORD {
        Err(ErrorView::LengthNotBytes)
    } else if body.len() < RECORD_OVERHEAD + body[2] {
        Err(ErrorView::CutBeforeEnd)
    } else {
        let end = RECORD_OVERHEAD + body[2];
        in_front(body.subrange(RECORD_OVERHEAD as int, end), unpacked(body.skip(end)))
    }
}

/// Whether `bodies`, unpacked one after the other, carry `payload`: every
/// one but the last says that more follow, and the bytes add up to it.
pub open spec fn carries(bodies: Seq<Seq<u8>>, payload: Seq<u8>) -> bool
    decreases bodies.len(),
{
    bodies.len() > 0 && match unpacked(bodies[0]) {
        Ok((bytes, more)) => {
            &&& more == (bodies.len() > 1)
            &&& if more {
                bytes.len() <= payload.len() && bytes == payload.take(bytes.len() as int)
                    && carries(bodies.drop_first(), payload.skip(bytes.len() as int))
            } else {
                bytes == payload
            }
        },
        Err(_) => false,
    }
}

/// The views of telegram bodies.
pub open spec fn views(bodies: Seq<Vec<u8>>) -> Seq<Seq<u8>> {
    bodies.map_values(|body: Vec<u8>| body@)
}

/// `payload` as telegram bodies of at most `room` bytes each, every one
/// but the last closing with [`MORE_FOLLOW`]. An empty payload is one
/// record of no bytes.
///
/// # Errors
/// Room under [`MIN_ROOM`].
pub fn pack(payload: &[u8], room: usize) -> (result: Result<Vec<Vec<u8>>, MBusError>)
    ensures
        match result {
            Ok(bodies) => packed(payload@, room as nat) == Ok::<Seq<Seq<u8>>, ErrorView>(
                views(bodies@),
            ),
            Err(error) => packed(payload@, room as nat) == Err::<Seq<Seq<u8>>, ErrorView>(error@),
        },
{
    if room < MIN_ROOM {
        return Err(MBusError::NoRoom(room));
    }
    let widest: usize = room - RECORD_OVERHEAD - 1;
    let size: usize = if widest < MAX_RECORD {
        widest
    } else {
        MAX_RECORD
    };
    let ghost all = bodies_of(payload@, room as nat);
    let mut bodies: Vec<Vec<u8>> = Vec::new();
    let mut body: Vec<u8> = Vec::new();
    let mut at: usize = 0;
    let mut done: bool = false;
    proof {
        assert(payload@.skip(0) =~= payload@);
        assert(views(bodies@) + all =~= all);
    }
    while !done
        invariant
            MIN_ROOM <= room,
            size == record_size(room as nat),
            0 < size <= MAX_RECORD,
            size + RECORD_OVERHEAD + 1 <= room,
            at <= payload.len(),
            body.len() <= room,
            all == views(bodies@) + telegrams(
                body@,
                if done {
                    Seq::empty()
                } else {
                    pieces(payload@.skip(at as int), size as nat)
                },
                room as nat,
            ),
        decreases payload.len() - at + (if done { 0int } else { 1int }),
    {
        let ghost left = payload@.skip(at as int);
        let ghost chunks = pieces(left, size as nat);
        let left_over: usize = payload.len() - at;
        let take: usize = if left_over <= size {
            left_over
        } else {
            size
        };
        let chunk = &payload[at..at + take];
        proof {
            if left.len() <= size {
                assert(chunk@ =~= left);
                assert(chunks.drop_first() =~= Seq::<Seq<u8>>::empty());
            } else {
                assert(chunk@ =~= left.take(size as int));
                assert(left.skip(size as int) =~= payload@.skip(at + take));
                assert(chunks.drop_first() =~= pieces(left.skip(size as int), size as nat));
            }
            assert(chunks[0] == chunk@);
        }
        if room - body.len() < RECORD_OVERHEAD + take + 1 {
            let ghost before = views(bodies@);
            let ghost closed = body@.push(MORE_FOLLOW);
            let ghost after = telegrams(record(chunk@), chunks.drop_first(), room as nat);
            body.push(MORE_FOLLOW);
            bodies.push(body);
            body = Vec::new();
            assert(views(bodies@) =~= before.push(closed));
            assert(before + (seq![closed] + after) =~= views(bodies@) + after);
        }
        let ghost open = body@;
        body.push(VARIABLE_LENGTH);
        body.push(MANUFACTURER_SPECIFIC);
        body.push(take as u8);
        body.extend_from_slice(chunk);
        assert(body@ =~= open + record(chunk@));
        assert(open.len() == 0 ==> open + record(chunk@) =~= record(chunk@));
        done = left_over <= size;
        at = at + take;
    }
    let ghost before = views(bodies@);
    bodies.push(body);
    assert(views(bodies@) =~= before + seq![body@]);
    Ok(bodies)
}

/// The bytes the records of one telegram body carry, and whether more
/// follow in the next.
///
/// # Errors
/// A record that is not variable length, a length byte that does not mean
/// bytes, a record cut short, or a "more follow" that is not last.
pub fn unpack(body: &[u8]) -> (result: Result<(Vec<u8>, bool), MBusError>)
    ensures
        viewed(result) == unpacked(body@),
{
    let mut bytes: Vec<u8> = Vec::new();
    let mut at: usize = 0;
    proof {
        assert(body@.skip(0) =~= body@);
        assert(unpacked(body@) =~= in_front(bytes@, unpacked(body@)));
    }
    while at < body.len()
        invariant
            at <= body.len(),
            unpacked(body@) == in_front(bytes@, unpacked(body@.skip(at as int))),
        decreases body.len() - at,
    {
        let ghost rest = body@.skip(at as int);
        let dif: u8 = body[at];
        let left: usize = body.len() - at;
        assert(rest[0] == dif && rest.len() == left);
        if dif == MORE_FOLLOW {
            if left > 1 {
                return Err(MBusError::AfterMoreFollow);
            }
            assert(bytes@ + Seq::<u8>::empty() =~= bytes@);
            return Ok((bytes, true));
        }
        if dif != VARIABLE_LENGTH {
            return Err(MBusError::NoStream(dif));
        }
        if left < RECORD_OVERHEAD {
            return Err(MBusError::CutBeforeLength);
        }
        let length: usize = body[at + 2] as usize;
        assert(rest[2] == length);
        if length > MAX_RECORD {
            return Err(MBusError::LengthNotBytes);
        }
        if left - RECORD_OVERHEAD < length {
            return Err(MBusError::CutBeforeEnd);
        }
        let start: usize = at + RECORD_OVERHEAD;
        let chunk = &body[start..start + length];
        let ghost before = bytes@;
        bytes.extend_from_slice(chunk);
        at = start + length;
        proof {
            let end = RECORD_OVERHEAD + length;
            let after = unpacked(body@.skip(at as int));
            assert(rest.subrange(RECORD_OVERHEAD as int, end) =~= chunk@);
            assert(rest.skip(end) =~= body@.skip(at as int));
            assert(bytes@ =~= before + chunk@);
            assert(in_front(bytes@, after) =~= in_front(before, in_front(chunk@, after))) by {
                if after is Ok {
                    assert(before + chunk@ + after->Ok_0.0 =~= before + (chunk@
                        + after->Ok_0.0));
                }
            }
        }
    }
    assert(bytes@ + Seq::<u8>::empty() =~= bytes@);
    Ok((bytes, false))
}

/// Whether `open` is whole records that carry `bytes`: what comes after
/// them unpacks as it would alone, with `bytes` in front.
spec fn whole_records(open: Seq<u8>, bytes: Seq<u8>) -> bool {
    forall|tail: Seq<u8>|
        #![trigger unpacked(open + tail)]
        unpacked(open + tail) == in_front(bytes, unpacked(tail))
}

proof fn lemma_no_records()
    ensures
        whole_records(Seq::empty(), Seq::empty()),
{
    assert forall|tail: Seq<u8>|
        #![trigger unpacked(Seq::<u8>::empty() + tail)]
        unpacked(Seq::<u8>::empty() + tail) == in_front(Seq::empty(), unpacked(tail)) by {
        assert(Seq::<u8>::empty() + tail =~= tail);
        if unpacked(tail) is Ok {
            let bytes = unpacked(tail)->Ok_0.0;
            assert(Seq::<u8>::empty() + bytes =~= bytes);
        }
    }
}

proof fn lemma_one_more_record(open: Seq<u8>, bytes: Seq<u8>, chunk: Seq<u8>)
    requires
        whole_records(open, bytes),
        chunk.len() <= MAX_RECORD,
    ensures
        whole_records(open + record(chunk), bytes + chunk),
{
    let longer = open + record(chunk);
    assert forall|tail: Seq<u8>|
        #![trigger unpacked(longer + tail)]
        unpacked(longer + tail) == in_front(bytes + chunk, unpacked(tail)) by {
        let rest = record(chunk) + tail;
        let end = RECORD_OVERHEAD + chunk.len();
        assert(longer + tail =~= open + rest);
        assert(rest[0] == VARIABLE_LENGTH && rest[2] == chunk.len());
        assert(rest.subrange(RECORD_OVERHEAD as int, end as int) =~= chunk);
        assert(rest.skip(end as int) =~= tail);
        assert(unpacked(rest) == in_front(chunk, unpacked(tail)));
        if unpacked(tail) is Ok {
            let more = unpacked(tail)->Ok_0.0;
            assert(bytes + chunk + more =~= bytes + (chunk + more));
        }
    }
}

/// What `chunks` add up to.
pub open spec fn joined(chunks: Seq<Seq<u8>>) -> Seq<u8>
    decreases chunks.len(),
{
    if chunks.len() == 0 {
        Seq::empty()
    } else {
        chunks[0] + joined(chunks.drop_first())
    }
}

proof fn lemma_pieces(payload: Seq<u8>, size: nat)
    requires
        size > 0,
    ensures
        joined(pieces(payload, size)) == payload,
        pieces(payload, size).len() > 0,
        forall|i: int|
            0 <= i < pieces(payload, size).len() ==> (#[trigger] pieces(payload, size)[i]).len()
                <= size,
    decreases payload.len(),
{
    let all = pieces(payload, size);
    if payload.len() <= size {
        assert(all.drop_first() =~= Seq::<Seq<u8>>::empty());
        assert(joined(all.drop_first()) =~= Seq::<u8>::empty());
        assert(joined(all) =~= payload);
    } else {
        let rest = payload.skip(size as int);
        lemma_pieces(rest, size);
        assert(all.drop_first() =~= pieces(rest, size));
        assert(joined(all) =~= payload);
        assert forall|i: int| 0 <= i < all.len() implies (#[trigger] all[i]).len() <= size by {
            if i > 0 {
                assert(all[i] == pieces(rest, size)[i - 1]);
            }
        }
    }
}

proof fn lemma_telegrams_carry(
    open: Seq<u8>,
    bytes: Seq<u8>,
    chunks: Seq<Seq<u8>>,
    room: nat,
)
    requires
        whole_records(open, bytes),
        forall|i: int| 0 <= i < chunks.len() ==> (#[trigger] chunks[i]).len() <= MAX_RECORD,
    ensures
        carries(telegrams(open, chunks, room), bytes + joined(chunks)),
    decreases chunks.len(),
{
    let all = telegrams(open, chunks, room);
    let payload = bytes + joined(chunks);
    if chunks.len() == 0 {
        assert(open + Seq::<u8>::empty() =~= open);
        assert(unpacked(open + Seq::<u8>::empty()) == in_front(bytes, unpacked(Seq::empty())));
        assert(bytes + Seq::<u8>::empty() =~= bytes);
        assert(all[0] == open);
        assert(payload =~= bytes);
    } else {
        let chunk = chunks[0];
        let rest = chunks.drop_first();
        if open.len() + RECORD_OVERHEAD + chunk.len() + 1 > room {
            lemma_no_records();
            lemma_one_more_record(Seq::empty(), Seq::empty(), chunk);
            assert(Seq::<u8>::empty() + record(chunk) =~= record(chunk));
            assert(Seq::<u8>::empty() + chunk =~= chunk);
            lemma_telegrams_carry(record(chunk), chunk, rest, room);
            let after = telegrams(record(chunk), rest, room);
            let closed = open.push(MORE_FOLLOW);
            let marker = seq![MORE_FOLLOW];
            assert(closed =~= open + marker);
            assert(unpacked(open + marker) == in_front(bytes, unpacked(marker)));
            assert(bytes + Seq::<u8>::empty() =~= bytes);
            assert(all[0] == closed);
            assert(all.drop_first() =~= after);
            assert(after.len() > 0);
            assert(payload.take(bytes.len() as int) =~= bytes);
            assert(payload.skip(bytes.len() as int) =~= chunk + joined(rest));
        } else {
            lemma_one_more_record(open, bytes, chunk);
            lemma_telegrams_carry(open + record(chunk), bytes + chunk, rest, room);
            assert(bytes + chunk + joined(rest) =~= payload);
        }
    }
}

/// A Stream packs into telegrams and unpacks whole: unpacked one after the
/// other, the bodies give back the payload, every one but the last says that
/// more follow, and the last says that none do.
pub proof fn law_unpack_undoes_pack(payload: Seq<u8>, room: nat)
    requires
        room >= MIN_ROOM,
    ensures
        carries(bodies_of(payload, room), payload),
{
    let size = record_size(room);
    lemma_pieces(payload, size);
    lemma_no_records();
    lemma_telegrams_carry(Seq::empty(), Seq::empty(), pieces(payload, size), room);
    assert(Seq::<u8>::empty() + payload =~= payload);
}

/// An empty Stream is one telegram of one record of no bytes.
pub proof fn law_an_empty_stream_is_one_empty_record(room: nat)
    requires
        room >= MIN_ROOM,
    ensures
        bodies_of(Seq::empty(), room) == seq![record(Seq::empty())],
{
    let none = Seq::<u8>::empty();
    let chunks = pieces(none, record_size(room));
    assert(chunks =~= seq![none]);
    assert(chunks.drop_first() =~= Seq::<Seq<u8>>::empty());
    assert(none + record(none) =~= record(none));
    assert(telegrams(none + record(none), chunks.drop_first(), room) =~= seq![record(none)]);
}

/// Bodies carry one Stream, not two.
pub proof fn law_bodies_carry_one_stream(bodies: Seq<Seq<u8>>, one: Seq<u8>, two: Seq<u8>)
    requires
        carries(bodies, one),
        carries(bodies, two),
    ensures
        one == two,
    decreases bodies.len(),
{
    let (bytes, more) = unpacked(bodies[0])->Ok_0;
    if more {
        let n = bytes.len() as int;
        law_bodies_carry_one_stream(bodies.drop_first(), one.skip(n), two.skip(n));
        assert(one =~= one.take(n) + one.skip(n));
        assert(two =~= two.take(n) + two.skip(n));
    }
}

proof fn lemma_telegrams_fit(open: Seq<u8>, chunks: Seq<Seq<u8>>, room: nat)
    requires
        open.len() > 0 || chunks.len() > 0,
        open.len() < room,
        forall|i: int|
            0 <= i < chunks.len() ==> (#[trigger] chunks[i]).len() + RECORD_OVERHEAD + 1 <= room,
    ensures
        telegrams(open, chunks, room).len() > 0,
        forall|i: int|
            0 <= i < telegrams(open, chunks, room).len() ==> 0 < (#[trigger] telegrams(
                open,
                chunks,
                room,
            )[i]).len() <= room,
        forall|i: int|
            0 <= i < telegrams(open, chunks, room).len() - 1 ==> (#[trigger] telegrams(
                open,
                chunks,
                room,
            )[i]).last() == MORE_FOLLOW,
    decreases chunks.len(),
{
    if chunks.len() > 0 {
        let all = telegrams(open, chunks, room);
        let chunk = chunks[0];
        let rest = chunks.drop_first();
        assert(chunk.len() + RECORD_OVERHEAD + 1 <= room);
        if open.len() + RECORD_OVERHEAD + chunk.len() + 1 > room {
            let after = telegrams(record(chunk), rest, room);
            lemma_telegrams_fit(record(chunk), rest, room);
            assert forall|i: int| 0 <= i < all.len() implies 0 < (#[trigger] all[i]).len()
                <= room by {
                if i > 0 {
                    assert(all[i] == after[i - 1]);
                }
            }
            assert forall|i: int| 0 <= i < all.len() - 1 implies (#[trigger] all[i]).last()
                == MORE_FOLLOW by {
                if i > 0 {
                    assert(all[i] == after[i - 1]);
                }
            }
        } else {
            lemma_telegrams_fit(open + record(chunk), rest, room);
        }
    }
}

/// Telegrams keep to their room: there is at least one body, none is empty
/// or over `room`, and every one but the last closes with the marker that
/// more follow.
pub proof fn law_bodies_fit_their_room(payload: Seq<u8>, room: nat)
    requires
        room >= MIN_ROOM,
    ensures
        bodies_of(payload, room).len() > 0,
        forall|i: int|
            0 <= i < bodies_of(payload, room).len() ==> 0 < (#[trigger] bodies_of(
                payload,
                room,
            )[i]).len() <= room,
        forall|i: int|
            0 <= i < bodies_of(payload, room).len() - 1 ==> (#[trigger] bodies_of(
                payload,
                room,
            )[i]).last() == MORE_FOLLOW,
{
    let size = record_size(room);
    lemma_pieces(payload, size);
    lemma_telegrams_fit(Seq::empty(), pieces(payload, size), room);
}

/// Whether `body` is as full as it can be before `next`: the record that
/// opens `next` would not fit `room` behind the records of `body`, with the
/// marker after it.
pub open spec fn filled(body: Seq<u8>, next: Seq<u8>, room: nat) -> bool {
    &&& next.len() >= RECORD_OVERHEAD
    &&& next[0] == VARIABLE_LENGTH
    &&& body.len() + RECORD_OVERHEAD + next[2] > room
}

proof fn lemma_telegrams_filled(open: Seq<u8>, chunks: Seq<Seq<u8>>, room: nat)
    requires
        forall|i: int| 0 <= i < chunks.len() ==> (#[trigger] chunks[i]).len() <= MAX_RECORD,
    ensures
        telegrams(open, chunks, room).len() > 0,
        open.is_prefix_of(telegrams(open, chunks, room)[0]),
        forall|i: int, j: int|
            #![trigger telegrams(open, chunks, room)[i], telegrams(open, chunks, room)[j]]
            0 <= i && j == i + 1 && j < telegrams(open, chunks, room).len() ==> filled(
                telegrams(open, chunks, room)[i],
                telegrams(open, chunks, room)[j],
                room,
            ),
    decreases chunks.len(),
{
    if chunks.len() > 0 {
        let all = telegrams(open, chunks, room);
        let chunk = chunks[0];
        let rest = chunks.drop_first();
        assert(chunk.len() <= MAX_RECORD);
        if open.len() + RECORD_OVERHEAD + chunk.len() + 1 > room {
            let first = record(chunk);
            let after = telegrams(first, rest, room);
            lemma_telegrams_filled(first, rest, room);
            assert(after[0][0] == first[0] && after[0][2] == first[2]);
            assert forall|i: int, j: int|
                #![trigger all[i], all[j]]
                0 <= i && j == i + 1 && j < all.len() implies filled(all[i], all[j], room) by {
                assert(all[j] == after[j - 1]);
                if i > 0 {
                    assert(all[i] == after[i - 1]);
                }
            }
        } else {
            lemma_telegrams_filled(open + record(chunk), rest, room);
        }
    }
}

/// A telegram holds as many records as fit its room: no body leaves room for
/// the record that opens the next.
pub proof fn law_telegrams_are_filled(payload: Seq<u8>, room: nat)
    requires
        room >= MIN_ROOM,
    ensures
        forall|i: int, j: int|
            #![trigger bodies_of(payload, room)[i], bodies_of(payload, room)[j]]
            0 <= i && j == i + 1 && j < bodies_of(payload, room).len() ==> filled(
                bodies_of(payload, room)[i],
                bodies_of(payload, room)[j],
                room,
            ),
{
    let size = record_size(room);
    lemma_pieces(payload, size);
    lemma_telegrams_filled(Seq::empty(), pieces(payload, size), room);
}

/// Records one after the other: for each chunk a DIF of `0d`, its VIF, its
/// length and the chunk.
pub open spec fn laid_out(vifs: Seq<u8>, chunks: Seq<Seq<u8>>) -> Seq<u8>
    decreases chunks.len(),
{
    if chunks.len() == 0 {
        Seq::empty()
    } else {
        seq![0x0du8, vifs[0], chunks[0].len() as u8] + chunks[0] + laid_out(
            vifs.drop_first(),
            chunks.drop_first(),
        )
    }
}

/// A record unpacks in front of the rest: whatever its VIF and whatever comes
/// after it, what the record carries comes first, then what the rest does,
/// and the rest alone says whether more follow or the body is refused.
pub proof fn law_a_record_unpacks_in_front_of_the_rest(vif: u8, chunk: Seq<u8>, rest: Seq<u8>)
    requires
        chunk.len() <= 191,
    ensures
        unpacked(seq![0x0du8, vif, chunk.len() as u8] + chunk + rest) == match unpacked(rest) {
            Ok((bytes, more)) => Ok::<(Seq<u8>, bool), ErrorView>((chunk + bytes, more)),
            Err(error) => Err(error),
        },
{
    let body = seq![0x0du8, vif, chunk.len() as u8] + chunk + rest;
    let end = 3 + chunk.len();
    assert(body[0] == 0x0d && body[2] == chunk.len());
    assert(body.subrange(3, end as int) =~= chunk);
    assert(body.skip(end as int) =~= rest);
}

/// Where the records end: at the end of the body, which says that none
/// follow, or at a last byte `1f`, which says that more do. What else stands
/// where a record is due is refused: bytes behind `1f`, any DIF but `0d`, a
/// record without a length, a length over 191, a record that is not whole.
pub proof fn law_where_records_end(body: Seq<u8>)
    ensures
        body.len() == 0 ==> unpacked(body) == Ok::<(Seq<u8>, bool), ErrorView>(
            (Seq::empty(), false),
        ),
        body.len() == 1 && body[0] == 0x1f ==> unpacked(body) == Ok::<(Seq<u8>, bool), ErrorView>(
            (Seq::empty(), true),
        ),
        body.len() > 1 && body[0] == 0x1f ==> unpacked(body) == Err::<(Seq<u8>, bool), ErrorView>(
            ErrorView::AfterMoreFollow,
        ),
        body.len() > 0 && body[0] != 0x1f && body[0] != 0x0d ==> unpacked(body) == Err::<
            (Seq<u8>, bool),
            ErrorView,
        >(ErrorView::NoStream(body[0])),
        0 < body.len() < 3 && body[0] == 0x0d ==> unpacked(body) == Err::<
            (Seq<u8>, bool),
            ErrorView,
        >(ErrorView::CutBeforeLength),
        body.len() >= 3 && body[0] == 0x0d && body[2] > 191 ==> unpacked(body) == Err::<
            (Seq<u8>, bool),
            ErrorView,
        >(ErrorView::LengthNotBytes),
        body.len() >= 3 && body[0] == 0x0d && body[2] <= 191 && body.len() < 3 + body[2]
            ==> unpacked(body) == Err::<(Seq<u8>, bool), ErrorView>(ErrorView::CutBeforeEnd),
{
}

/// Whole records unpack, and what they carry is their data, joined.
pub proof fn law_whole_records_unpack(vifs: Seq<u8>, chunks: Seq<Seq<u8>>, more: bool)
    requires
        vifs.len() == chunks.len(),
        forall|i: int| 0 <= i < chunks.len() ==> (#[trigger] chunks[i]).len() <= 191,
    ensures
        unpacked(
            laid_out(vifs, chunks) + if more {
                seq![0x1fu8]
            } else {
                Seq::empty()
            },
        ) == Ok::<(Seq<u8>, bool), ErrorView>((joined(chunks), more)),
    decreases chunks.len(),
{
    let close = if more {
        seq![0x1fu8]
    } else {
        Seq::empty()
    };
    if chunks.len() == 0 {
        assert(laid_out(vifs, chunks) + close =~= close);
    } else {
        let chunk = chunks[0];
        let rest = laid_out(vifs.drop_first(), chunks.drop_first());
        assert(chunk.len() <= 191);
        law_whole_records_unpack(vifs.drop_first(), chunks.drop_first(), more);
        law_a_record_unpacks_in_front_of_the_rest(vifs[0], chunk, rest + close);
        assert(laid_out(vifs, chunks) + close =~= seq![0x0du8, vifs[0], chunk.len() as u8] + chunk
            + (rest + close));
    }
}

/// Nothing but whole records unpacks: a body that is not refused is records,
/// each of at most 191 bytes, then a lone `1f` exactly where it says that
/// more follow, with nothing left over; and what it carries is their data,
/// joined.
pub proof fn law_only_whole_records_unpack(body: Seq<u8>) -> (records: (Seq<u8>, Seq<Seq<u8>>))
    requires
        unpacked(body) is Ok,
    ensures
        records.0.len() == records.1.len(),
        forall|i: int| 0 <= i < records.1.len() ==> (#[trigger] records.1[i]).len() <= 191,
        body == laid_out(records.0, records.1) + if unpacked(body)->Ok_0.1 {
            seq![0x1fu8]
        } else {
            Seq::empty()
        },
        unpacked(body)->Ok_0.0 == joined(records.1),
    decreases body.len(),
{
    let none = (Seq::<u8>::empty(), Seq::<Seq<u8>>::empty());
    if body.len() == 0 {
        assert(laid_out(none.0, none.1) + Seq::<u8>::empty() =~= body);
        none
    } else if body[0] == 0x1f {
        assert(laid_out(none.0, none.1) + seq![0x1fu8] =~= body);
        none
    } else {
        let length = body[2] as int;
        let chunk = body.subrange(3, 3 + length);
        let rest = body.skip(3 + length);
        let others = law_only_whole_records_unpack(rest);
        let vifs = seq![body[1]] + others.0;
        let chunks = seq![chunk] + others.1;
        let close = if unpacked(body)->Ok_0.1 {
            seq![0x1fu8]
        } else {
            Seq::empty()
        };
        assert(vifs.drop_first() =~= others.0);
        assert(chunks.drop_first() =~= others.1);
        assert(body =~= seq![0x0du8, body[1], chunk.len() as u8] + chunk + rest);
        assert(laid_out(vifs, chunks) == seq![0x0du8, body[1], chunk.len() as u8] + chunk
            + laid_out(others.0, others.1));
        assert(body =~= laid_out(vifs, chunks) + close);
        (vifs, chunks)
    }
}

/// The records of bodies, one after the other, without the marker that closes
/// every body but the last.
pub open spec fn unmarked(bodies: Seq<Seq<u8>>) -> Seq<u8>
    decreases bodies.len(),
{
    if bodies.len() == 0 {
        Seq::empty()
    } else if bodies.len() == 1 {
        bodies[0]
    } else {
        bodies[0].drop_last() + unmarked(bodies.drop_first())
    }
}

/// As many manufacturer-specific VIFs as there are records.
pub open spec fn specific_vifs(records: nat) -> Seq<u8> {
    Seq::new(records, |i: int| 0x7fu8)
}

proof fn lemma_unmarked(open: Seq<u8>, chunks: Seq<Seq<u8>>, room: nat)
    ensures
        telegrams(open, chunks, room).len() > 0,
        unmarked(telegrams(open, chunks, room)) == open + laid_out(
            specific_vifs(chunks.len()),
            chunks,
        ),
    decreases chunks.len(),
{
    let all = telegrams(open, chunks, room);
    let vifs = specific_vifs(chunks.len());
    if chunks.len() == 0 {
        assert(open + laid_out(vifs, chunks) =~= open);
    } else {
        let chunk = chunks[0];
        let rest = chunks.drop_first();
        let others = laid_out(specific_vifs(rest.len()), rest);
        assert(vifs.drop_first() =~= specific_vifs(rest.len()));
        assert(laid_out(vifs, chunks) == seq![0x0du8, 0x7fu8, chunk.len() as u8] + chunk + others);
        assert(laid_out(vifs, chunks) =~= record(chunk) + others);
        if open.len() + RECORD_OVERHEAD + chunk.len() + 1 > room {
            lemma_unmarked(record(chunk), rest, room);
            assert(all.drop_first() =~= telegrams(record(chunk), rest, room));
            assert(all[0].drop_last() =~= open);
        } else {
            lemma_unmarked(open + record(chunk), rest, room);
            assert(open + record(chunk) + others =~= open + (record(chunk) + others));
        }
    }
}

proof fn lemma_pieces_are_even(payload: Seq<u8>, size: nat)
    requires
        size > 0,
    ensures
        forall|i: int|
            0 <= i < pieces(payload, size).len() - 1 ==> (#[trigger] pieces(
                payload,
                size,
            )[i]).len() == size,
        pieces(payload, size).len() > 0,
        payload.len() > 0 ==> pieces(payload, size).last().len() > 0,
    decreases payload.len(),
{
    let all = pieces(payload, size);
    if payload.len() > size {
        let rest = pieces(payload.skip(size as int), size);
        lemma_pieces_are_even(payload.skip(size as int), size);
        assert forall|i: int| 0 <= i < all.len() - 1 implies (#[trigger] all[i]).len() == size by {
            if i > 0 {
                assert(all[i] == rest[i - 1]);
            }
        }
        assert(all.last() == rest.last());
    }
}

/// A Stream is cut evenly: its telegrams, without their markers, are one
/// manufacturer-specific record after the other; the records, joined, are the
/// Stream; each is as long as the length byte and the room allow but the
/// last, which is what is left, and empty only for an empty Stream.
pub proof fn law_a_stream_is_cut_evenly(payload: Seq<u8>, room: nat) -> (chunks: Seq<Seq<u8>>)
    requires
        room >= 5,
    ensures
        packed(payload, room) is Ok,
        unmarked(packed(payload, room)->Ok_0) == laid_out(specific_vifs(chunks.len()), chunks),
        joined(chunks) == payload,
        chunks.len() > 0,
        forall|i: int|
            0 <= i < chunks.len() - 1 ==> (#[trigger] chunks[i]).len() == if room < 195 {
                room - 4
            } else {
                191
            },
        chunks.last().len() <= if room < 195 {
            room - 4
        } else {
            191
        },
        payload.len() > 0 ==> chunks.last().len() > 0,
{
    let size = record_size(room);
    let chunks = pieces(payload, size);
    lemma_pieces(payload, size);
    lemma_pieces_are_even(payload, size);
    lemma_unmarked(Seq::empty(), chunks, room);
    let all = laid_out(specific_vifs(chunks.len()), chunks);
    assert(Seq::<u8>::empty() + all =~= all);
    assert(chunks.last().len() <= size);
    chunks
}

/// How a Stream is told over telegrams: room under five bytes is refused;
/// otherwise every telegram opens with a record and none is over its room,
/// every one but the last closes with `1f`, none has room left for the record that opens the next,
/// and unpacked in order they carry the Stream.
pub proof fn law_a_stream_is_told_over_telegrams(payload: Seq<u8>, room: nat)
    ensures
        match packed(payload, room) {
            Err(error) => room < 5 && error == ErrorView::NoRoom(room),
            Ok(bodies) => {
                &&& room >= 5
                &&& bodies.len() > 0
                &&& carries(bodies, payload)
                &&& forall|i: int|
                    0 <= i < bodies.len() ==> 0 < (#[trigger] bodies[i]).len() <= room
                &&& forall|i: int|
                    0 <= i < bodies.len() - 1 ==> (#[trigger] bodies[i]).last() == 0x1f
                &&& forall|i: int|
                    0 <= i < bodies.len() ==> (#[trigger] bodies[i]).len() >= 3 && bodies[i][0]
                        == 0x0d
                &&& forall|i: int, j: int|
                    #![trigger bodies[i], bodies[j]]
                    0 <= i && j == i + 1 && j < bodies.len() ==> bodies[i].len() + 3
                        + bodies[j][2] > room
            },
        },
{
    if room >= 5 {
        law_unpack_undoes_pack(payload, room);
        law_bodies_fit_their_room(payload, room);
        law_telegrams_are_filled(payload, room);
        let bodies = bodies_of(payload, room);
        assert forall|i: int| 0 <= i < bodies.len() implies (#[trigger] bodies[i]).len() >= 3
            && bodies[i][0] == 0x0d by {
            if i == 0 {
                let chunks = pieces(payload, record_size(room));
                lemma_pieces(payload, record_size(room));
                let first = record(chunks[0]);
                assert(Seq::<u8>::empty() + first =~= first);
                assert(chunks[0].len() <= record_size(room));
                lemma_telegrams_filled(first, chunks.drop_first(), room);
            } else {
                assert(filled(bodies[i - 1], bodies[i], room));
            }
        }
    }
}

} // verus!
