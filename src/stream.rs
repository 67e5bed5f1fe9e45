//! Counting length-prefixed records in a byte stream that arrives in pieces.
use vstd::prelude::*;

use crate::wire::{frame_len, lemma_frame_of_string_frame, string_frame, CodecError, MAX_PAYLOAD};

verus! {

/// Result of reading records from the start of a byte sequence: how many
/// whole records were read, how many bytes they took, and whether reading
/// stopped at a negative length prefix.
pub struct Scan {
    pub count: nat,
    pub used: nat,
    pub malformed: bool,
}

/// Reads at most `max` whole records from the start of `b`, stopping at the
/// first record that has not fully arrived or whose prefix is negative.
pub open spec fn scan_frames(b: Seq<u8>, max: nat) -> Scan
    decreases max,
{
    if max == 0 {
        Scan { count: 0, used: 0, malformed: false }
    } else {
        match frame_len(b) {
            Ok(n) => {
                let r = scan_frames(b.skip(n as int), (max - 1) as nat);
                Scan { count: r.count + 1, used: r.used + n, malformed: r.malformed }
            },
            Err(CodecError::InvalidLength) => Scan { count: 0, used: 0, malformed: true },
            Err(_) => Scan { count: 0, used: 0, malformed: false },
        }
    }
}

/// The concatenated encodings of records with the given payloads, in order.
pub open spec fn batch_bytes(payloads: Seq<Seq<u8>>) -> Seq<u8>
    decreases payloads.len(),
{
    if payloads.len() == 0 {
        Seq::empty()
    } else {
        string_frame(payloads[0]) + batch_bytes(payloads.skip(1))
    }
}

/// Every payload fits a length prefix.
pub open spec fn payloads_fit(payloads: Seq<Seq<u8>>) -> bool {
    forall|i: int| 0 <= i < payloads.len() ==> #[trigger] payloads[i].len() <= MAX_PAYLOAD
}

/// More bytes after a whole record, or after a negative prefix, do not change
/// what the start holds.
pub proof fn lemma_frame_len_extends(a: Seq<u8>, y: Seq<u8>)
    ensures
        frame_len(a) is Ok ==> frame_len(a + y) == frame_len(a),
        frame_len(a) == Err::<nat, CodecError>(CodecError::InvalidLength) ==> frame_len(a + y)
            == frame_len(a),
{
    if a.len() >= 4 {
        assert((a + y)[0] == a[0] && (a + y)[1] == a[1] && (a + y)[2] == a[2] && (a + y)[3]
            == a[3]);
    }
}

/// A scan reads no more records than allowed and no more bytes than there are.
pub proof fn lemma_scan_bounds(b: Seq<u8>, max: nat)
    ensures
        scan_frames(b, max).count <= max,
        scan_frames(b, max).used <= b.len(),
    decreases max,
{
    if max > 0 {
        if let Ok(n) = frame_len(b) {
            lemma_scan_bounds(b.skip(n as int), (max - 1) as nat);
        }
    }
}

/// Reading records from `a + y` reads those that `a` holds whole, then goes on
/// from what `a` left unread, followed by `y`.
pub proof fn lemma_scan_concat(a: Seq<u8>, y: Seq<u8>, max: nat)
    ensures
        scan_frames(a, max).malformed ==> scan_frames(a + y, max) == scan_frames(a, max),
        !scan_frames(a, max).malformed ==> ({
            let s = scan_frames(a, max);
            let t = scan_frames(a.skip(s.used as int) + y, (max - s.count) as nat);
            scan_frames(a + y, max) == Scan {
                count: s.count + t.count,
                used: s.used + t.used,
                malformed: t.malformed,
            }
        }),
    decreases max,
{
    lemma_scan_bounds(a, max);
    lemma_frame_len_extends(a, y);
    if max == 0 {
        assert(a.skip(0) =~= a);
    } else {
        match frame_len(a) {
            Ok(n) => {
                let a1 = a.skip(n as int);
                lemma_scan_concat(a1, y, (max - 1) as nat);
                assert((a + y).skip(n as int) =~= a1 + y);
                let s1 = scan_frames(a1, (max - 1) as nat);
                assert(a1.skip(s1.used as int) =~= a.skip((s1.used + n) as int));
            },
            Err(CodecError::InvalidLength) => {},
            Err(_) => {
                assert(a.skip(0) =~= a);
            },
        }
    }
}

/// A scan that stops at a negative prefix has read fewer records than allowed,
/// and that prefix starts right after the records it read.
pub proof fn lemma_scan_malformed_at(b: Seq<u8>, max: nat)
    requires
        scan_frames(b, max).malformed,
    ensures
        scan_frames(b, max).count < max,
        frame_len(b.skip(scan_frames(b, max).used as int)) == Err::<nat, CodecError>(
            CodecError::InvalidLength,
        ),
    decreases max,
{
    match frame_len(b) {
        Ok(n) => {
            let b1 = b.skip(n as int);
            lemma_scan_malformed_at(b1, (max - 1) as nat);
            lemma_scan_bounds(b1, (max - 1) as nat);
            let s1 = scan_frames(b1, (max - 1) as nat);
            assert(b1.skip(s1.used as int) =~= b.skip((s1.used + n) as int));
        },
        Err(_) => {
            assert(b.skip(0) =~= b);
        },
    }
}

/// A batch of records is read whole: as many records as it holds, and all of
/// its bytes.
pub proof fn lemma_scan_batch(payloads: Seq<Seq<u8>>, max: nat)
    requires
        payloads_fit(payloads),
        payloads.len() <= max,
    ensures
        scan_frames(batch_bytes(payloads), max) == (Scan {
            count: payloads.len(),
            used: batch_bytes(payloads).len(),
            malformed: false,
        }),
    decreases payloads.len(),
{
    if payloads.len() > 0 {
        let rest = payloads.skip(1);
        assert(payloads_fit(rest)) by {
            assert forall|i: int| 0 <= i < rest.len() implies #[trigger] rest[i].len()
                <= MAX_PAYLOAD by {
                assert(rest[i] == payloads[i + 1]);
            }
        }
        assert(payloads[0].len() <= MAX_PAYLOAD);
        lemma_frame_of_string_frame(payloads[0], batch_bytes(rest));
        lemma_scan_batch(rest, (max - 1) as nat);
    }
}

/// Appending a record to a batch appends its encoding.
pub proof fn lemma_batch_push(payloads: Seq<Seq<u8>>, p: Seq<u8>)
    ensures
        batch_bytes(payloads.push(p)) == batch_bytes(payloads) + string_frame(p),
    decreases payloads.len(),
{
    let q = payloads.push(p);
    if payloads.len() == 0 {
        assert(q.skip(1) =~= Seq::<Seq<u8>>::empty());
        assert(batch_bytes(q.skip(1)) == Seq::<u8>::empty());
        assert(q[0] == p);
        assert(batch_bytes(q) =~= batch_bytes(payloads) + string_frame(p));
    } else {
        assert(q.skip(1) =~= payloads.skip(1).push(p));
        lemma_batch_push(payloads.skip(1), p);
        assert(batch_bytes(q) =~= batch_bytes(payloads) + string_frame(p));
    }
}

} // verus!
