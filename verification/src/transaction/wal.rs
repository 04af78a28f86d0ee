//! Write-ahead log records and the byte layout of the log.
//!
//! The log is a sequence of frames. A frame holds one serialized record: its
//! length as four little-endian bytes, the record's bytes, then a newline.
//! Reading stops at the first frame that is cut short; a newline that is
//! missing after the last frame is tolerated.

use vstd::bytes::{
    lemma_auto_spec_u32_to_from_le_bytes, spec_u32_from_le_bytes, spec_u32_to_le_bytes,
    u32_from_le_bytes, u32_to_le_bytes,
};
use vstd::prelude::*;
use vstd::slice::{slice_subrange, slice_to_vec};

verus! {

/// WAL record types.
#[derive(Debug, Clone, Copy)]
pub enum WalRecord {
    Begin { tx_id: u64 },
    Commit { tx_id: u64 },
    Rollback { tx_id: u64 },
}

/// Number of bytes of the length prefix of a frame.
pub const FRAME_HEADER_LEN: usize = 4;

/// The byte that closes every frame (`b'\n'`).
pub const FRAME_TERMINATOR: u8 = 10u8;

/// The frame that carries `payload`. The length prefix is the payload's
/// length taken modulo 2^32.
pub open spec fn frame_of(payload: Seq<u8>) -> Seq<u8> {
    spec_u32_to_le_bytes(payload.len() as u32) + payload + seq![FRAME_TERMINATOR]
}

/// The log made of one frame per payload, in order.
pub open spec fn frames_of(payloads: Seq<Seq<u8>>) -> Seq<u8>
    decreases payloads.len(),
{
    if payloads.len() == 0 {
        Seq::empty()
    } else {
        frame_of(payloads[0]) + frames_of(payloads.drop_first())
    }
}

/// The length announced by the prefix at the start of `log`.
pub open spec fn announced_len(log: Seq<u8>) -> int {
    spec_u32_from_le_bytes(log.subrange(0, FRAME_HEADER_LEN as int)) as int
}

/// The payloads that a reader recovers from `log`: frames are read from the
/// front until fewer than four bytes remain or a frame announces more bytes
/// than are left; the byte after each payload, when there is one, is skipped
/// as the frame's terminator.
pub open spec fn payloads_in(log: Seq<u8>) -> Seq<Seq<u8>>
    decreases log.len(),
{
    if log.len() < FRAME_HEADER_LEN {
        Seq::empty()
    } else {
        let n = announced_len(log);
        let end = FRAME_HEADER_LEN + n;
        if log.len() < end {
            Seq::empty()
        } else {
            let rest = if log.len() > end {
                log.subrange(end + 1, log.len() as int)
            } else {
                Seq::empty()
            };
            seq![log.subrange(FRAME_HEADER_LEN as int, end)] + payloads_in(rest)
        }
    }
}

/// The byte sequences held by a vector of byte vectors.
pub open spec fn views_of(vs: Seq<Vec<u8>>) -> Seq<Seq<u8>> {
    vs.map_values(|v: Vec<u8>| v@)
}

/// The records that parsed, in order, leaving out those that did not.
pub open spec fn parsed_records(parsed: Seq<Option<WalRecord>>) -> Seq<WalRecord>
    decreases parsed.len(),
{
    if parsed.len() == 0 {
        Seq::empty()
    } else {
        let init = parsed_records(parsed.drop_last());
        match parsed.last() {
            Some(r) => init.push(r),
            None => init,
        }
    }
}

/// Whether every payload's length fits the four-byte length prefix.
pub open spec fn all_fit_prefix(payloads: Seq<Seq<u8>>) -> bool {
    forall|i: int| 0 <= i < payloads.len() ==> #[trigger] payloads[i].len() <= u32::MAX
}

/// Reading back a log written frame by frame yields exactly the payloads
/// that were written, in the order they were written, provided each length
/// fits the four-byte prefix.
pub proof fn lemma_frames_round_trip(payloads: Seq<Seq<u8>>)
    requires
        all_fit_prefix(payloads),
    ensures
        payloads_in(frames_of(payloads)) == payloads,
    decreases payloads.len(),
{
    if payloads.len() == 0 {
        assert(frames_of(payloads).len() == 0);
    } else {
        let p = payloads[0];
        let rest = payloads.drop_first();
        assert forall|i: int| 0 <= i < rest.len() implies #[trigger] rest[i].len() <= u32::MAX by {
            assert(rest[i] == payloads[i + 1]);
        }
        lemma_frames_round_trip(rest);
        lemma_auto_spec_u32_to_from_le_bytes();
        let prefix = spec_u32_to_le_bytes(p.len() as u32);
        let log = frames_of(payloads);
        assert(log == frame_of(p) + frames_of(rest));
        let n = p.len() as int;
        assert(log.subrange(0, FRAME_HEADER_LEN as int) == prefix);
        assert(announced_len(log) == n);
        assert(log.subrange(FRAME_HEADER_LEN as int, FRAME_HEADER_LEN + n) == p);
        assert(log.subrange(FRAME_HEADER_LEN + n + 1, log.len() as int) == frames_of(rest));
        assert(payloads_in(log) == seq![p] + payloads_in(frames_of(rest)));
        assert(seq![p] + rest == payloads);
    }
}

/// Writing the frames of `payloads` and then the frame of `payload` lays
/// down the same bytes as writing the frames of the extended sequence.
pub proof fn lemma_frames_of_push(payloads: Seq<Seq<u8>>, payload: Seq<u8>)
    ensures
        frames_of(payloads.push(payload)) == frames_of(payloads) + frame_of(payload),
    decreases payloads.len(),
{
    if payloads.len() == 0 {
        assert(payloads.push(payload).drop_first() == payloads);
        assert(frames_of(payloads.push(payload)) == frame_of(payload) + frames_of(payloads));
    } else {
        lemma_frames_of_push(payloads.drop_first(), payload);
        assert(payloads.push(payload).drop_first() == payloads.drop_first().push(payload));
        assert(payloads.push(payload)[0] == payloads[0]);
    }
}

/// Appending one frame to a log of frames makes a reader return the earlier
/// payloads followed by the new one.
pub proof fn lemma_read_after_append(payloads: Seq<Seq<u8>>, payload: Seq<u8>)
    requires
        all_fit_prefix(payloads),
        payload.len() <= u32::MAX,
    ensures
        payloads_in(frames_of(payloads) + frame_of(payload)) == payloads.push(payload),
{
    lemma_frames_of_push(payloads, payload);
    let all = payloads.push(payload);
    assert forall|i: int| 0 <= i < all.len() implies #[trigger] all[i].len() <= u32::MAX by {
        if i < payloads.len() {
            assert(all[i] == payloads[i]);
        }
    }
    lemma_frames_round_trip(all);
}

/// An empty log, as left by creating or truncating the log, holds no payload.
pub proof fn lemma_empty_log_reads_nothing()
    ensures
        payloads_in(Seq::<u8>::empty()) == Seq::<Seq<u8>>::empty(),
{
}

/// Every frame is the payload's length as four little-endian bytes, then the
/// payload, then a newline (byte 10), whatever the payload's length.
pub proof fn lemma_frame_layout(payload: Seq<u8>)
    ensures
        frame_of(payload) == spec_u32_to_le_bytes(payload.len() as u32) + payload + seq![10u8],
        frame_of(payload).len() == payload.len() + 5,
        frame_of(payload).last() == 10u8,
{
    lemma_auto_spec_u32_to_from_le_bytes();
}

/// The log of no payloads is empty, and the log of a sequence extended by one
/// payload is the earlier log followed by that payload's length as four
/// little-endian bytes, the payload and a newline.
pub proof fn lemma_frames_layout(payloads: Seq<Seq<u8>>, payload: Seq<u8>)
    ensures
        frames_of(Seq::<Seq<u8>>::empty()) == Seq::<u8>::empty(),
        frames_of(payloads.push(payload)) == frames_of(payloads) + (spec_u32_to_le_bytes(
            payload.len() as u32,
        ) + payload + seq![10u8]),
{
    lemma_frames_of_push(payloads, payload);
}

/// Reading a log that starts with a complete frame in the documented layout
/// (length as four little-endian bytes, payload, newline) yields that payload
/// followed by what the rest of the log yields, whatever the payload's length.
pub proof fn lemma_read_first_frame(payload: Seq<u8>, rest: Seq<u8>)
    requires
        payload.len() <= u32::MAX,
    ensures
        payloads_in(spec_u32_to_le_bytes(payload.len() as u32) + payload + seq![10u8] + rest)
            == seq![payload] + payloads_in(rest),
{
    lemma_auto_spec_u32_to_from_le_bytes();
    let log = spec_u32_to_le_bytes(payload.len() as u32) + payload + seq![10u8] + rest;
    let n = payload.len() as int;
    assert(log.subrange(0, FRAME_HEADER_LEN as int) == spec_u32_to_le_bytes(payload.len() as u32));
    assert(announced_len(log) == n);
    assert(log.subrange(FRAME_HEADER_LEN as int, FRAME_HEADER_LEN + n) == payload);
    assert(log.subrange(FRAME_HEADER_LEN + n + 1, log.len() as int) == rest);
}

/// Collecting the parsed records of two stretches of the log one after the
/// other gives the records of the first followed by those of the second.
pub proof fn lemma_parsed_records_concat(a: Seq<Option<WalRecord>>, b: Seq<Option<WalRecord>>)
    ensures
        parsed_records(a + b) == parsed_records(a) + parsed_records(b),
    decreases b.len(),
{
    if b.len() == 0 {
        assert(a + b == a);
    } else {
        lemma_parsed_records_concat(a, b.drop_last());
        assert((a + b).drop_last() == a + b.drop_last());
        assert((a + b).last() == b.last());
    }
}

/// A record that parsed is kept, one that did not is dropped, and nothing is
/// kept from an empty stretch.
pub proof fn lemma_parsed_records_single(record: WalRecord)
    ensures
        parsed_records(Seq::<Option<WalRecord>>::empty()) == Seq::<WalRecord>::empty(),
        parsed_records(seq![Some(record)]) == seq![record],
        parsed_records(seq![None::<WalRecord>]) == Seq::<WalRecord>::empty(),
{
    reveal_with_fuel(parsed_records, 2);
    assert(seq![Some(record)].drop_last() == Seq::<Option<WalRecord>>::empty());
    assert(seq![None::<WalRecord>].drop_last() == Seq::<Option<WalRecord>>::empty());
}

/// The kept records are exactly the values of the entries that parsed, in
/// their order: nothing that parsed is dropped and nothing is added.
pub proof fn lemma_parsed_records_are_the_parsed_values(parsed: Seq<Option<WalRecord>>)
    ensures
        parsed_records(parsed) == parsed.filter(|o: Option<WalRecord>| o is Some).map_values(
            |o: Option<WalRecord>| o->0,
        ),
        parsed_records(parsed).len() == parsed.filter(|o: Option<WalRecord>| o is Some).len(),
    decreases parsed.len(),
{
    reveal(Seq::filter);
    let is_some = |o: Option<WalRecord>| o is Some;
    let value = |o: Option<WalRecord>| o->0;
    if parsed.len() > 0 {
        lemma_parsed_records_are_the_parsed_values(parsed.drop_last());
        let sub = parsed.drop_last().filter(is_some);
        if parsed.last() is Some {
            assert(parsed.filter(is_some) == sub.push(parsed.last()));
            assert(sub.push(parsed.last()).map_values(value) == sub.map_values(value).push(
                parsed.last()->0,
            ));
        } else {
            assert(parsed.filter(is_some) == sub);
        }
    }
}

/// Build the frame that carries `payload`: length prefix, payload, newline.
pub fn encode_frame(payload: &[u8]) -> (frame: Vec<u8>)
    ensures
        frame@ == frame_of(payload@),
        frame@.len() == payload@.len() + 5,
        frame@.subrange(0, 4) == spec_u32_to_le_bytes(payload@.len() as u32),
        frame@.subrange(4, payload@.len() + 4int) == payload@,
        frame@[payload@.len() + 4int] == 10u8,
{
    let len: u32 = payload.len() as u32;
    let mut frame = u32_to_le_bytes(len);
    let mut body = slice_to_vec(payload);
    frame.append(&mut body);
    frame.push(FRAME_TERMINATOR);
    frame
}

/// Split a log into the payloads of its frames (see `payloads_in`).
pub fn decode_frames(log: &[u8]) -> (payloads: Vec<Vec<u8>>)
    ensures
        views_of(payloads@) == payloads_in(log@),
{
    let mut payloads: Vec<Vec<u8>> = Vec::new();
    let mut pos: usize = 0;
    assert(log@.subrange(0, log@.len() as int) == log@);
    while pos < log.len()
        invariant
            pos <= log@.len(),
            views_of(payloads@) + payloads_in(log@.subrange(pos as int, log@.len() as int))
                == payloads_in(log@),
        ensures
            views_of(payloads@) == payloads_in(log@),
        decreases log@.len() - pos,
    {
        let ghost rest = log@.subrange(pos as int, log@.len() as int);
        if log.len() - pos < FRAME_HEADER_LEN {
            assert(payloads_in(rest) == Seq::<Seq<u8>>::empty());
            assert(views_of(payloads@) + Seq::<Seq<u8>>::empty() == views_of(payloads@));
            break;
        }
        let header = slice_subrange(log, pos, pos + FRAME_HEADER_LEN);
        assert(header@ == rest.subrange(0, FRAME_HEADER_LEN as int));
        let n: usize = u32_from_le_bytes(header) as usize;
        if log.len() - pos - FRAME_HEADER_LEN < n {
            assert(payloads_in(rest) == Seq::<Seq<u8>>::empty());
            assert(views_of(payloads@) + Seq::<Seq<u8>>::empty() == views_of(payloads@));
            break;
        }
        let start = pos + FRAME_HEADER_LEN;
        let end = start + n;
        let payload = slice_to_vec(slice_subrange(log, start, end));
        let ghost old_payloads = payloads@;
        payloads.push(payload);
        let next = if end < log.len() { end + 1 } else { end };
        proof {
            let n_int = announced_len(rest);
            assert(n_int == n);
            assert(payload@ == rest.subrange(FRAME_HEADER_LEN as int, FRAME_HEADER_LEN + n_int));
            let tail = if rest.len() > FRAME_HEADER_LEN + n_int {
                rest.subrange(FRAME_HEADER_LEN + n_int + 1, rest.len() as int)
            } else {
                Seq::empty()
            };
            assert(tail == log@.subrange(next as int, log@.len() as int));
            assert(payloads_in(rest) == seq![payload@] + payloads_in(tail));
            assert(views_of(payloads@) == views_of(old_payloads) + seq![payload@]);
            assert(views_of(payloads@) + payloads_in(tail)
                == views_of(old_payloads) + (seq![payload@] + payloads_in(tail)));
        }
        pos = next;
    }
    payloads
}

/// Keep the records that parsed, in their order, and drop the rest.
pub fn collect_records(parsed: Vec<Option<WalRecord>>) -> (records: Vec<WalRecord>)
    ensures
        records@ == parsed_records(parsed@),
{
    let mut records: Vec<WalRecord> = Vec::new();
    let mut i: usize = 0;
    while i < parsed.len()
        invariant
            i <= parsed@.len(),
            records@ == parsed_records(parsed@.subrange(0, i as int)),
        decreases parsed@.len() - i,
    {
        let ghost prefix = parsed@.subrange(0, i as int + 1);
        assert(prefix.drop_last() == parsed@.subrange(0, i as int));
        match parsed[i] {
            Some(record) => records.push(record),
            None => {},
        }
        i = i + 1;
    }
    assert(parsed@.subrange(0, i as int) == parsed@);
    records
}

} // verus!
