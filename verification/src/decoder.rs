//! Executable streaming decoder: turns raw bytes into whole frames,
//! reporting an incomplete frame without consuming anything.

use vstd::prelude::*;

use crate::codec::{
    all_digits, canonical_nat, dec_val, digit_of, enc_bulk, is_break, is_digit,
    lemma_bulk_item_sound, lemma_dec_val_step, lemma_find_break_at, lemma_find_break_none,
    parse, parse_bulk_item, parse_bulks, parse_line, Frame, FrameSpec, ItemOut, ItemsOut,
    LineOut, ParseOut,
};

verus! {

/// Result of trying to decode one whole frame from the head of a buffer.
pub enum DecodeOutcome {
    /// A whole frame and the number of bytes it occupied.
    Complete(Frame, usize),
    /// The buffer holds only a prefix of a frame; keep the bytes and read on.
    Incomplete,
    /// The bytes at the frame boundary are not a legal frame.
    Malformed,
}

/// The decoder agrees with the mathematical parser `parse`.
pub open spec fn decode_matches(r: DecodeOutcome, p: ParseOut) -> bool {
    match r {
        DecodeOutcome::Complete(f, n) => p == ParseOut::Done(f@, n as int),
        DecodeOutcome::Incomplete => p is More,
        DecodeOutcome::Malformed => p is Bad,
    }
}

pub(crate) enum LineScan {
    Found(usize),
    NeedMore,
    BadLine,
}

/// Scan for one CRLF-terminated line starting at `start`; `Found(end)`
/// means the payload is `buf[start..end]` with CRLF at `end`.
pub(crate) fn scan_line(buf: &Vec<u8>, start: usize) -> (r: LineScan)
    requires
        start <= buf@.len(),
    ensures
        ({
            let s = buf@.skip(start as int);
            match r {
                LineScan::Found(end) => start <= end && end + 2 <= buf@.len() && parse_line(s)
                    == LineOut::Done(
                    buf@.subrange(start as int, end as int),
                    end - start + 2,
                ),
                LineScan::NeedMore => parse_line(s) is More,
                LineScan::BadLine => parse_line(s) is Bad,
            }
        }),
{
    let ghost s = buf@.skip(start as int);
    proof {
        assert(forall|j: int| 0 <= j < s.len() ==> #[trigger] s[j] == buf@[start + j]);
    }
    let mut i: usize = start;
    while i < buf.len() && buf[i] != 13 && buf[i] != 10
        invariant
            start <= i <= buf@.len(),
            forall|j: int| start <= j < i ==> !is_break(#[trigger] buf@[j]),
        decreases buf@.len() - i,
    {
        i = i + 1;
    }
    if i == buf.len() {
        proof {
            assert(forall|j: int| 0 <= j < s.len() ==> !is_break(#[trigger] s[j]));
            lemma_find_break_none(s);
        }
        return LineScan::NeedMore;
    }
    let k: Ghost<int> = Ghost(i - start);
    proof {
        assert(s[k@] == buf@[i as int]);
        assert(forall|j: int| 0 <= j < k@ ==> !is_break(#[trigger] s[j]));
        lemma_find_break_at(s, k@);
    }
    if buf[i] == 10 {
        return LineScan::BadLine;
    }
    if i + 1 == buf.len() {
        return LineScan::NeedMore;
    }
    if buf[i + 1] == 10 {
        proof {
            assert(s[k@ + 1] == buf@[i + 1]);
            assert(s.take(k@) =~= buf@.subrange(start as int, i as int));
        }
        LineScan::Found(i)
    } else {
        proof {
            assert(s[k@ + 1] == buf@[i + 1]);
        }
        LineScan::BadLine
    }
}

pub(crate) enum NumScan {
    Value(u64),
    TooBig,
    NotCanonical,
}

/// Read `buf[start..end]` as a canonical decimal number.
pub(crate) fn scan_number(buf: &Vec<u8>, start: usize, end: usize) -> (r: NumScan)
    requires
        start <= end <= buf@.len(),
    ensures
        ({
            let sub = buf@.subrange(start as int, end as int);
            match r {
                NumScan::Value(v) => canonical_nat(sub) && dec_val(sub) == v as nat,
                NumScan::TooBig => canonical_nat(sub) && dec_val(sub) > u64::MAX as nat,
                NumScan::NotCanonical => !canonical_nat(sub),
            }
        }),
{
    let ghost sub = buf@.subrange(start as int, end as int);
    if end == start {
        return NumScan::NotCanonical;
    }
    if end - start > 1 && buf[start] == 48 {
        assert(sub[0] == 48);
        return NumScan::NotCanonical;
    }
    let mut acc: u64 = 0;
    let mut big = false;
    let mut i: usize = start;
    while i < end
        invariant
            start <= i <= end <= buf@.len(),
            sub == buf@.subrange(start as int, end as int),
            sub.len() == end - start,
            forall|j: int| 0 <= j < i - start ==> is_digit(#[trigger] sub[j]),
            !big ==> acc as nat == dec_val(sub.take(i - start)),
            big ==> dec_val(sub.take(i - start)) > u64::MAX as nat,
        decreases end - i,
    {
        let b = buf[i];
        proof {
            assert(sub[i - start] == buf@[i as int]);
        }
        if b < 48 || b > 57 {
            assert(!is_digit(sub[i - start]));
            return NumScan::NotCanonical;
        }
        let d: u64 = (b - 48) as u64;
        proof {
            lemma_dec_val_step(sub, i - start);
            assert(digit_of(sub[i - start]) == d as nat);
        }
        if !big {
            if acc > (u64::MAX - d) / 10 {
                proof {
                    let q = (u64::MAX - d) / 10;
                    assert((u64::MAX - d) as nat == 10 * (q as nat) + ((u64::MAX - d) as nat
                        % 10));
                    assert(acc as nat * 10 + d as nat > u64::MAX as nat);
                }
                big = true;
            } else {
                proof {
                    let q = (u64::MAX - d) / 10;
                    assert((u64::MAX - d) as nat == 10 * (q as nat) + ((u64::MAX - d) as nat
                        % 10));
                    assert(acc as nat * 10 + d as nat <= u64::MAX as nat);
                }
                acc = acc * 10 + d;
            }
        } else {
            proof {
                assert(dec_val(sub.take(i - start + 1)) >= dec_val(sub.take(i - start)));
            }
        }
        i = i + 1;
    }
    proof {
        assert(sub.take(end - start) =~= sub);
        assert(all_digits(sub));
        if sub.len() > 1 {
            assert(sub[0] == buf@[start as int]);
        }
    }
    if big {
        NumScan::TooBig
    } else {
        NumScan::Value(acc)
    }
}

enum ItemScan {
    Got(Vec<u8>, usize),
    NeedItem,
    BadItem,
}

/// Decode one bulk string (`$<len>\r\n<bytes>\r\n`) starting at `start`.
fn decode_bulk_item(buf: &Vec<u8>, start: usize) -> (r: ItemScan)
    requires
        start <= buf@.len(),
    ensures
        ({
            let s = buf@.skip(start as int);
            match r {
                ItemScan::Got(p, c) => parse_bulk_item(s) == ItemOut::Done(p@, c as int) && 1
                    <= c && start + c <= buf@.len(),
                ItemScan::NeedItem => parse_bulk_item(s) is More,
                ItemScan::BadItem => parse_bulk_item(s) is Bad,
            }
        }),
{
    let ghost s = buf@.skip(start as int);
    proof {
        assert(forall|j: int| 0 <= j < s.len() ==> #[trigger] s[j] == buf@[start + j]);
    }
    if start == buf.len() {
        return ItemScan::NeedItem;
    }
    if buf[start] != 36 {
        assert(s[0] != 36);
        return ItemScan::BadItem;
    }
    proof {
        assert(s.skip(1) =~= buf@.skip(start + 1));
    }
    match scan_line(buf, start + 1) {
        LineScan::NeedMore => ItemScan::NeedItem,
        LineScan::BadLine => ItemScan::BadItem,
        LineScan::Found(end) => {
            let ghost q = buf@.subrange(start + 1, end as int);
            let ghost cl = end - start + 1;
            assert(parse_line(s.skip(1)) == LineOut::Done(q, cl));
            match scan_number(buf, start + 1, end) {
                NumScan::NotCanonical => ItemScan::BadItem,
                NumScan::TooBig => {
                    proof {
                        let rest = s.skip(1 + cl);
                        assert(rest.len() <= buf@.len());
                        assert(buf@.len() <= usize::MAX as nat);
                        assert(usize::MAX as nat <= u64::MAX as nat);
                        assert(rest.len() < dec_val(q) + 2);
                    }
                    ItemScan::NeedItem
                },
                NumScan::Value(l) => {
                    let payload_start = end + 2;
                    let rem = buf.len() - payload_start;
                    let ghost rest = s.skip(1 + cl);
                    proof {
                        assert(rest =~= buf@.skip(payload_start as int));
                        assert(rest.len() == buf@.len() - payload_start);
                    }
                    if (rem as u128) < (l as u128) + 2 {
                        assert(rest.len() < dec_val(q) + 2);
                        ItemScan::NeedItem
                    } else {
                        let lu = l as usize;
                        let t1 = payload_start + lu;
                        proof {
                            assert(rest[l as int] == buf@[t1 as int]);
                            assert(rest[l as int + 1] == buf@[t1 as int + 1]);
                        }
                        if buf[t1] == 13 && buf[t1 + 1] == 10 {
                            let p = vstd::slice::slice_to_vec(
                                vstd::slice::slice_subrange(buf.as_slice(), payload_start, t1),
                            );
                            proof {
                                assert(p@ =~= rest.take(l as int));
                            }
                            ItemScan::Got(p, t1 + 2 - start)
                        } else {
                            ItemScan::BadItem
                        }
                    }
                },
            }
        },
    }
}

/// Decode one whole frame starting at `start`. `Complete(f, n)` means the
/// frame `f` occupies exactly the `n` bytes `buf[start..start + n]`.
pub fn decode_frame(buf: &Vec<u8>, start: usize) -> (r: DecodeOutcome)
    requires
        start <= buf@.len(),
    ensures
        decode_matches(r, parse(buf@.skip(start as int))),
        r matches DecodeOutcome::Complete(f, n) ==> 1 <= n && start + n <= buf@.len(),
{
    let ghost s = buf@.skip(start as int);
    proof {
        assert(forall|j: int| 0 <= j < s.len() ==> #[trigger] s[j] == buf@[start + j]);
    }
    if start == buf.len() {
        return DecodeOutcome::Incomplete;
    }
    let tag = buf[start];
    assert(s[0] == tag);
    proof {
        assert(s.skip(1) =~= buf@.skip(start + 1));
    }
    if tag == 43 || tag == 45 {
        match scan_line(buf, start + 1) {
            LineScan::NeedMore => DecodeOutcome::Incomplete,
            LineScan::BadLine => DecodeOutcome::Malformed,
            LineScan::Found(end) => {
                let payload = vstd::slice::slice_to_vec(
                    vstd::slice::slice_subrange(buf.as_slice(), start + 1, end),
                );
                let n = end + 2 - start;
                if tag == 43 {
                    DecodeOutcome::Complete(Frame::Simple(payload), n)
                } else {
                    DecodeOutcome::Complete(Frame::Error(payload), n)
                }
            },
        }
    } else if tag == 58 {
        match scan_line(buf, start + 1) {
            LineScan::NeedMore => DecodeOutcome::Incomplete,
            LineScan::BadLine => DecodeOutcome::Malformed,
            LineScan::Found(end) => {
                let ghost q = buf@.subrange(start + 1, end as int);
                let n = end + 2 - start;
                if end > start + 1 && buf[start + 1] == 45 {
                    proof {
                        assert(q[0] == 45);
                        assert(!is_digit(45u8));
                        assert(q.skip(1) =~= buf@.subrange(start + 2, end as int));
                    }
                    match scan_number(buf, start + 2, end) {
                        NumScan::NotCanonical => DecodeOutcome::Malformed,
                        NumScan::TooBig => DecodeOutcome::Malformed,
                        NumScan::Value(m) => {
                            if m == 0 {
                                DecodeOutcome::Malformed
                            } else if m <= 9223372036854775807u64 {
                                DecodeOutcome::Complete(Frame::Integer(-(m as i64)), n)
                            } else if m == 9223372036854775808u64 {
                                DecodeOutcome::Complete(Frame::Integer(i64::MIN), n)
                            } else {
                                DecodeOutcome::Malformed
                            }
                        },
                    }
                } else {
                    match scan_number(buf, start + 1, end) {
                        NumScan::NotCanonical => {
                            proof {
                                if q.len() >= 2 && q[0] == 45 {
                                    assert(buf@[start + 1] == 45);
                                }
                            }
                            DecodeOutcome::Malformed
                        },
                        NumScan::TooBig => DecodeOutcome::Malformed,
                        NumScan::Value(v) => {
                            if v <= 9223372036854775807u64 {
                                DecodeOutcome::Complete(Frame::Integer(v as i64), n)
                            } else {
                                DecodeOutcome::Malformed
                            }
                        },
                    }
                }
            },
        }
    } else if tag == 36 {
        match scan_line(buf, start + 1) {
            LineScan::NeedMore => DecodeOutcome::Incomplete,
            LineScan::BadLine => DecodeOutcome::Malformed,
            LineScan::Found(end) => {
                let ghost q = buf@.subrange(start + 1, end as int);
                if end == start + 3 && buf[start + 1] == 45 && buf[start + 2] == 49 {
                    proof {
                        assert(q =~= seq![45u8, 49u8]);
                    }
                    DecodeOutcome::Complete(Frame::NullBulk, end + 2 - start)
                } else {
                    proof {
                        if q == seq![45u8, 49u8] {
                            assert(q.len() == 2);
                            assert(buf@[start + 1] == q[0]);
                            assert(buf@[start + 2] == q[1]);
                            assert(false);
                        }
                    }
                    match decode_bulk_item(buf, start) {
                        ItemScan::NeedItem => DecodeOutcome::Incomplete,
                        ItemScan::BadItem => DecodeOutcome::Malformed,
                        ItemScan::Got(p, c) => DecodeOutcome::Complete(Frame::Bulk(p), c),
                    }
                }
            },
        }
    } else if tag == 42 {
        match scan_line(buf, start + 1) {
            LineScan::NeedMore => DecodeOutcome::Incomplete,
            LineScan::BadLine => DecodeOutcome::Malformed,
            LineScan::Found(end) => {
                let ghost q = buf@.subrange(start + 1, end as int);
                if end == start + 3 && buf[start + 1] == 45 && buf[start + 2] == 49 {
                    proof {
                        assert(q =~= seq![45u8, 49u8]);
                    }
                    DecodeOutcome::Complete(Frame::NullArray, end + 2 - start)
                } else {
                    proof {
                        if q == seq![45u8, 49u8] {
                            assert(q.len() == 2);
                            assert(buf@[start + 1] == q[0]);
                            assert(buf@[start + 2] == q[1]);
                            assert(false);
                        }
                    }
                    let count = match scan_number(buf, start + 1, end) {
                        NumScan::NotCanonical => {
                            return DecodeOutcome::Malformed;
                        },
                        NumScan::TooBig => None,
                        NumScan::Value(v) => Some(v),
                    };
                    decode_array_items(buf, start, end, count, Ghost(q))
                }
            },
        }
    } else {
        DecodeOutcome::Malformed
    }
}

/// Decode the elements of an array frame whose count line ended at `end`.
/// `count` is the element count, or `None` when it exceeds `u64::MAX`
/// (no real buffer can hold that many elements).
#[verifier::rlimit(50)]
#[verifier::loop_isolation(false)]
fn decode_array_items(
    buf: &Vec<u8>,
    start: usize,
    end: usize,
    count: Option<u64>,
    q: Ghost<Seq<u8>>,
) -> (r: DecodeOutcome)
    requires
        start + 1 <= end,
        end + 2 <= buf@.len(),
        q@ == buf@.subrange(start as int + 1, end as int),
        canonical_nat(q@),
        q@ != seq![45u8, 49u8],
        parse_line(buf@.skip(start as int).skip(1)) == LineOut::Done(q@, end - start + 1),
        buf@.skip(start as int)[0] == 42,
        match count {
            Some(v) => dec_val(q@) == v as nat,
            None => dec_val(q@) > u64::MAX as nat,
        },
    ensures
        decode_matches(r, parse(buf@.skip(start as int))),
        r matches DecodeOutcome::Complete(f, n) ==> 1 <= n && start + n <= buf@.len(),
{
    let ghost s = buf@.skip(start as int);
    let ghost n_spec = dec_val(q@);
    let ghost items_start = end + 2;
    let ghost s_items = buf@.skip(items_start as int);
    let bl = buf.len();
    let mut items: Vec<Vec<u8>> = Vec::new();
    let mut pos: usize = end + 2;
    let mut i: u64 = 0;
    let n_exec: u64 = match count {
        Some(v) => v,
        None => u64::MAX,
    };
    proof {
        assert(s.skip(1) =~= buf@.skip(start as int + 1));
        assert(s.skip(end - start + 2) =~= s_items);
        assert(usize::MAX as nat <= u64::MAX as nat);
    }
    while i < n_exec
        invariant
            start + 1 <= end,
            end + 2 <= pos <= buf@.len(),
            i <= n_exec,
            i as nat <= n_spec,
            s == buf@.skip(start as int),
            s_items == buf@.skip(items_start as int),
            items_start == end + 2,
            n_spec == dec_val(q@),
            match count {
                Some(v) => n_exec == v && n_spec == v as nat,
                None => n_exec == u64::MAX && n_spec > u64::MAX as nat,
            },
            items.deep_view().len() == i as nat,
            6 * (i as nat) <= pos - items_start,
            match parse_bulks(buf@.skip(pos as int), (n_spec - i as nat) as nat) {
                ItemsOut::Done(ps, c) => parse_bulks(s_items, n_spec) == ItemsOut::Done(
                    items.deep_view() + ps,
                    (pos - items_start) + c,
                ),
                ItemsOut::More => parse_bulks(s_items, n_spec) is More,
                ItemsOut::Bad => parse_bulks(s_items, n_spec) is Bad,
            },
        decreases n_exec - i,
    {
        proof {
            assert(n_spec - i as nat >= 1) by {
                if count is None {
                    assert(pos - items_start <= usize::MAX as nat);
                }
            }
        }
        match decode_bulk_item(buf, pos) {
            ItemScan::NeedItem => {
                proof {
                    assert(parse_bulks(s_items, n_spec) is More);
                    assert(parse(s) is More);
                }
                return DecodeOutcome::Incomplete;
            },
            ItemScan::BadItem => {
                proof {
                    assert(parse_bulks(s_items, n_spec) is Bad);
                    assert(parse(s) is Bad);
                }
                return DecodeOutcome::Malformed;
            },
            ItemScan::Got(p, c) => {
                proof {
                    lemma_bulk_item_sound(buf@.skip(pos as int), p@, c as int);
                    assert(c as int == enc_bulk(p@).len());
                    assert(enc_bulk(p@).len() >= 6) by {
                        crate::codec::lemma_digits_shape(p@.len());
                    }
                    assert(buf@.skip(pos as int).skip(c as int) =~= buf@.skip(pos + c));
                }
                let ghost old_items = items.deep_view();
                let ghost pv = p@;
                items.push(p);
                proof {
                    assert forall|j: int|
                        0 <= j < items.deep_view().len() implies items.deep_view()[j]
                        == old_items.push(pv)[j] by {
                        if j == old_items.len() {
                            assert(items@[j] == p);
                            assert(items@[j].deep_view() =~= pv);
                        }
                    }
                    assert(items.deep_view() =~= old_items.push(pv));
                    assert(old_items.push(pv) + parse_bulks(
                        buf@.skip(pos + c),
                        (n_spec - i as nat - 1) as nat,
                    )->Done_0 =~= old_items + (seq![pv] + parse_bulks(
                        buf@.skip(pos + c),
                        (n_spec - i as nat - 1) as nat,
                    )->Done_0));
                }
                pos = pos + c;
                i = i + 1;
            },
        }
    }
    proof {
        if count is None {
            assert(6 * (i as nat) <= usize::MAX as nat);
            assert(i == u64::MAX);
            assert(false);
        }
        assert(n_spec - i as nat == 0);
        assert(parse_bulks(buf@.skip(pos as int), 0) == ItemsOut::Done(
            Seq::<Seq<u8>>::empty(),
            0,
        ));
        assert(items.deep_view() + Seq::<Seq<u8>>::empty() =~= items.deep_view());
        assert(parse_bulks(s_items, n_spec) == ItemsOut::Done(
            items.deep_view(),
            pos - items_start,
        ));
    }
    let n = pos - start;
    proof {
        assert(parse(s) == ParseOut::Done(FrameSpec::Array(items.deep_view()), n as int));
    }
    DecodeOutcome::Complete(Frame::Array(items), n)
}

} // verus!
