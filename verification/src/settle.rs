//! Giving up the records that a power cut left without their commit
//! marker.

use vstd::prelude::*;
use crate::device::{overwrite, region_programmable, FlashDevice};
use crate::growth::{lemma_blank_log, lemma_log_append};
use crate::layout::{
    area_from,
    area_of,
    area_to,
    fits,
    lemma_ran_none,
    lemma_ran_short,
    lemma_ran_then,
    lemma_record_frame,
    program_area,
    ran,
    read_header,
};
use crate::record::{
    all_intact,
    contents,
    cut,
    header_at,
    is_committed,
    lemma_intact_concat,
    lemma_intact_rest,
    lemma_log_end,
    lemma_pairs_concat,
    lemma_pairs_push,
    lemma_pending_concat,
    lemma_pending_push,
    lemma_scan_frame,
    lemma_suffix_frame,
    log_end,
    log_ok,
    pairs_of,
    pending,
    rec_at,
    record_at,
    records,
    settled,
    Header,
    HEADER_LEN,
    Rec,
    STATE_ERASED,
    STATE_WRITING,
};

verus! {

/// What holds while a scan gives up the records without commit marker:
/// `b` is `a0` with those before `pos` given up, `seen0` are the records of
/// `a0` before `pos` and `seen` those of `b`.
#[verifier::opaque]
pub open spec fn settling(a0: Seq<u8>, b: Seq<u8>, pos: int, seen0: Seq<Rec>, seen: Seq<Rec>) -> bool {
    &&& a0.len() == b.len()
    &&& 0 <= pos <= a0.len()
    &&& log_end(cut(a0, pos), 0) == pos
    &&& records(cut(a0, pos), 0) == seen0
    &&& log_end(cut(b, pos), 0) == pos
    &&& records(cut(b, pos), 0) == seen
    &&& forall|i: int| pos <= i < a0.len() ==> b[i] == a0[i]
    &&& pairs_of(seen) == pairs_of(seen0)
    &&& all_intact(seen)
    &&& pending(seen) == 0
    &&& all_intact(records(a0, pos))
}

pub proof fn lemma_settling_begins(a0: Seq<u8>)
    requires
        log_ok(a0),
    ensures
        settling(a0, a0, 0, Seq::empty(), Seq::empty()),
{
    reveal(settling);
    lemma_blank_log(cut(a0, 0));
}

/// The records before `pos` and the record at `pos`, cut off behind it.
pub proof fn lemma_cut_step(a: Seq<u8>, pos: int, seen: Seq<Rec>, h: Header)
    requires
        0 <= pos <= a.len(),
        log_end(cut(a, pos), 0) == pos,
        records(cut(a, pos), 0) == seen,
        record_at(a, pos) == Some(h),
    ensures
        log_end(cut(a, pos + h.record_len()), 0) == pos + h.record_len(),
        records(cut(a, pos + h.record_len()), 0) == seen.push(rec_at(a, pos, h)),
{
    let next = pos + h.record_len();
    let c = cut(a, pos);
    let c2 = cut(a, next);
    lemma_record_frame(a, c2, pos);
    lemma_log_append(c, c2, h);
}

pub proof fn lemma_settling_step(
    a0: Seq<u8>,
    b: Seq<u8>,
    pos: int,
    seen0: Seq<Rec>,
    seen: Seq<Rec>,
    h: Header,
)
    requires
        settling(a0, b, pos, seen0, seen),
        record_at(b, pos) == Some(h),
    ensures
        ({
            let b2 = if h.state == STATE_WRITING {
                overwrite(b, pos, seq![STATE_ERASED])
            } else {
                b
            };
            let rec = rec_at(a0, pos, h);
            &&& record_at(a0, pos) == Some(h)
            &&& h.state == STATE_WRITING ==> region_programmable(b, pos, seq![STATE_ERASED])
            &&& settling(a0, b2, pos + h.record_len(), seen0.push(rec), seen.push(settled(rec)))
            &&& pending(seen0.push(rec)) == pending(seen0) + (if h.state == STATE_WRITING {
                1nat
            } else {
                0nat
            })
            &&& records(a0, pos) == seq![rec] + records(a0, pos + h.record_len())
        }),
{
    reveal(settling);
    let next = pos + h.record_len();
    let rec = rec_at(a0, pos, h);
    lemma_suffix_frame(a0, b, pos);
    lemma_record_frame(b, a0, pos);
    assert(rec_at(b, pos, h) == rec);
    lemma_cut_step(a0, pos, seen0, h);
    lemma_intact_rest(a0, pos, h);
    lemma_pairs_push(seen0, rec);
    lemma_pairs_push(seen, settled(rec));
    lemma_pending_push(seen0, rec);
    lemma_pending_push(seen, settled(rec));
    assert forall|i: int| 0 <= i < seen.push(settled(rec)).len() && is_committed(
        seen.push(settled(rec))[i].state,
    ) implies (#[trigger] seen.push(settled(rec))[i]).intact() by {
        if i < seen.len() {
            assert(seen.push(settled(rec))[i] == seen[i]);
        }
    }
    if h.state == STATE_WRITING {
        let mark = seq![STATE_ERASED];
        let b2 = overwrite(b, pos, mark);
        let h2 = Header { state: STATE_ERASED, ..h };
        assert(b[pos] == STATE_WRITING);
        assert(0xFEu8 & 0xF8u8 == 0xF8u8) by (bit_vector);
        assert(header_at(b2, pos) == h2);
        assert(record_at(b2, pos) == Some(h2));
        let ns_from = pos + HEADER_LEN;
        let key_from = ns_from + h.ns_len;
        let val_from = key_from + h.key_len;
        assert(b2.subrange(ns_from, key_from) =~= b.subrange(ns_from, key_from));
        assert(b2.subrange(key_from, val_from) =~= b.subrange(key_from, val_from));
        assert(b2.subrange(val_from, val_from + h.val_len) =~= b.subrange(
            val_from,
            val_from + h.val_len,
        ));
        assert(rec_at(b2, pos, h2) == settled(rec));
        assert(cut(b2, pos) =~= cut(b, pos));
        lemma_cut_step(b2, pos, seen, h2);
    } else {
        lemma_cut_step(b, pos, seen, h);
    }
}

pub proof fn lemma_settling_ends(
    a0: Seq<u8>,
    b: Seq<u8>,
    pos: int,
    seen0: Seq<Rec>,
    seen: Seq<Rec>,
)
    requires
        settling(a0, b, pos, seen0, seen),
        log_ok(a0),
    ensures
        contents(b) == contents(a0),
        log_ok(b),
        log_end(b, 0) == log_end(a0, 0),
        pending(records(a0, 0)) == pending(seen0) + pending(records(a0, pos)),
        pending(records(b, 0)) == pending(records(a0, pos)),
        records(b, pos) == records(a0, pos),
{
    reveal(settling);
    let rest = records(a0, pos);
    lemma_scan_frame(cut(a0, pos), a0, 0);
    lemma_scan_frame(cut(b, pos), b, 0);
    lemma_suffix_frame(a0, b, pos);
    lemma_pairs_concat(seen, seen0, rest);
    lemma_intact_concat(seen, rest);
    lemma_pending_concat(seen0, rest);
    lemma_pending_concat(seen, rest);
    lemma_log_end(a0, pos);
    assert forall|i: int| log_end(b, 0) <= i < b.len() implies #[trigger] b[i] == 0xFFu8 by {
        assert(a0[i] == 0xFFu8);
    }
}

/// Gives up each record of the log that has no commit marker: its state
/// byte is programmed to `STATE_ERASED`.
pub fn settle(dev: &mut FlashDevice, base: usize, bank: usize, second: bool) -> (ok: bool)
    requires
        old(dev).wf(),
        fits(old(dev)@, base as int, bank as int),
        log_ok(area_of(old(dev)@.bytes, base as int, bank as int, second)),
    ensures
        final(dev).wf(),
        fits(final(dev)@, base as int, bank as int),
        ran(
            old(dev)@,
            final(dev)@,
            area_from(base as int, bank as int, second),
            area_to(base as int, bank as int, second),
            pending(records(area_of(old(dev)@.bytes, base as int, bank as int, second), 0)),
            ok,
        ),
        log_ok(area_of(final(dev)@.bytes, base as int, bank as int, second)),
        contents(area_of(final(dev)@.bytes, base as int, bank as int, second)) == contents(
            area_of(old(dev)@.bytes, base as int, bank as int, second),
        ),
        log_end(area_of(final(dev)@.bytes, base as int, bank as int, second), 0) == log_end(
            area_of(old(dev)@.bytes, base as int, bank as int, second),
            0,
        ),
        ok ==> pending(records(area_of(final(dev)@.bytes, base as int, bank as int, second), 0))
            == 0,
{
    let from: usize = if second {
        base + bank
    } else {
        base
    };
    let start: usize = from + 1;
    let cap: usize = bank - 1;
    let ghost dev0 = dev@;
    let ghost a0 = area_of(dev0.bytes, base as int, bank as int, second);
    let ghost lo = area_from(base as int, bank as int, second);
    let ghost hi = area_to(base as int, bank as int, second);
    let ghost mut seen0: Seq<Rec> = Seq::empty();
    let ghost mut seen: Seq<Rec> = Seq::empty();
    let mut pos: usize = 0;
    proof {
        lemma_settling_begins(a0);
        lemma_ran_none(dev0, lo, hi);
    }
    loop
        invariant
            dev.wf(),
            fits(dev@, base as int, bank as int),
            dev0 == old(dev)@,
            a0 == area_of(dev0.bytes, base as int, bank as int, second),
            log_ok(a0),
            lo == area_from(base as int, bank as int, second),
            hi == area_to(base as int, bank as int, second),
            start == lo,
            start + cap == hi,
            hi <= dev@.bytes.len(),
            pos <= cap,
            settling(
                a0,
                area_of(dev@.bytes, base as int, bank as int, second),
                pos as int,
                seen0,
                seen,
            ),
            ran(dev0, dev@, lo, hi, pending(seen0), true),
        ensures
            record_at(area_of(dev@.bytes, base as int, bank as int, second), pos as int) is None,
        decreases cap - pos,
    {
        let ghost b = area_of(dev@.bytes, base as int, bank as int, second);
        let ghost dk = dev@;
        let f = match read_header(dev, start, cap, pos) {
            Some(f) => f,
            None => {
                break ;
            },
        };
        let ghost h = f.header();
        let ghost rec = rec_at(a0, pos as int, h);
        proof {
            lemma_settling_step(a0, b, pos as int, seen0, seen, h);
        }
        let total: usize = HEADER_LEN + f.ns_len + f.key_len + f.val_len;
        if f.state == STATE_WRITING {
            let mut mark: Vec<u8> = Vec::new();
            mark.push(STATE_ERASED);
            assert(mark@ =~= seq![STATE_ERASED]);
            if !program_area(dev, base, bank, second, pos, mark.as_slice()) {
                proof {
                    lemma_settling_ends(a0, b, pos as int, seen0, seen);
                    let rest = records(a0, pos + total);
                    lemma_pending_concat(seq![rec], rest);
                    lemma_pending_push(Seq::empty(), rec);
                    assert(seq![rec] =~= Seq::<Rec>::empty().push(rec));
                    assert(pending(Seq::<Rec>::empty()) == 0);
                    assert(pending(seq![rec]) == 1);
                    lemma_ran_then(dev0, dk, dev@, lo, hi, pending(seen0), 1, false);
                    lemma_ran_short(dev0, dev@, lo, hi, pending(seen0) + 1, pending(rest));
                }
                return false;
            }
            proof {
                lemma_ran_then(dev0, dk, dev@, lo, hi, pending(seen0), 1, true);
            }
        }
        proof {
            seen0 = seen0.push(rec);
            seen = seen.push(settled(rec));
        }
        pos = pos + total;
    }
    proof {
        let b = area_of(dev@.bytes, base as int, bank as int, second);
        lemma_settling_ends(a0, b, pos as int, seen0, seen);
        assert(records(b, pos as int) =~= Seq::<Rec>::empty());
    }
    true
}

} // verus!
