//! The follower's side of replication: the four-step handshake against
//! the master, the inline snapshot transfer, and the silent consumption
//! of the propagated write stream.

use vstd::prelude::*;
use vstd::map::*;

use crate::codec::{
    canonical_nat, dec_val, enc, lemma_parse_sound, parse, parse_line, spec_digits,
    u64_to_decimal, encode_resp_array, Frame, FrameSpec, LineOut, ParseOut,
};
use crate::decoder::{decode_frame, DecodeOutcome, NumScan};
use crate::server::{
    ascii_bytes, lower, sat_add, set_args_ok, set_expiry, str_to_bytes, to_lower,
    parse_decimal_u64,
};
use crate::store::{bytes_eq, StoredVal, TimedHashMap};

verus! {

/// Where the follower stands in its long-lived master connection.
pub enum HandshakeStage {
    /// PING sent; expecting `+PONG`.
    AwaitPong,
    /// REPLCONF listening-port sent; expecting `+OK`.
    AwaitPortOk,
    /// REPLCONF capa sent; expecting `+OK`.
    AwaitCapaOk,
    /// PSYNC sent; expecting `+FULLRESYNC <id> <offset>`.
    AwaitFullresync,
    /// Expecting the inline snapshot `$<len>\r\n<bytes>`.
    AwaitSnapshot,
    /// Consuming propagated write commands, replying to none.
    Streaming,
    /// The master broke protocol; the caller should drop the link.
    Failed,
}

/// The follower's replication-link state.
pub struct ReplicaLink {
    pub stage: HandshakeStage,
    pub buf: Vec<u8>,
    pub listening_port: u16,
    pub master_replid: Vec<u8>,
    pub master_offset: u64,
}

#[verifier::ext_equal]
pub ghost struct LinkModel {
    pub stage: HandshakeStage,
    pub buf: Seq<u8>,
    pub listening_port: u16,
    pub master_replid: Seq<u8>,
    pub master_offset: u64,
}

impl View for ReplicaLink {
    type V = LinkModel;

    open spec fn view(&self) -> LinkModel {
        LinkModel {
            stage: self.stage,
            buf: self.buf@,
            listening_port: self.listening_port,
            master_replid: self.master_replid@,
            master_offset: self.master_offset,
        }
    }
}

/// `*1\r\n$4\r\nPING\r\n`
pub open spec fn msg_ping() -> Seq<u8> {
    enc(FrameSpec::Array(seq![ascii_bytes("PING"@)]))
}

/// `REPLCONF listening-port <port>`, as an array of bulk strings.
pub open spec fn msg_replconf_port(port: u16) -> Seq<u8> {
    enc(
        FrameSpec::Array(
            seq![
                ascii_bytes("REPLCONF"@),
                ascii_bytes("listening-port"@),
                spec_digits(port as nat),
            ],
        ),
    )
}

/// `REPLCONF capa psync2`, as an array of bulk strings.
pub open spec fn msg_replconf_capa() -> Seq<u8> {
    enc(
        FrameSpec::Array(
            seq![ascii_bytes("REPLCONF"@), ascii_bytes("capa"@), ascii_bytes("psync2"@)],
        ),
    )
}

/// `PSYNC ? -1`, as an array of bulk strings.
pub open spec fn msg_psync() -> Seq<u8> {
    enc(FrameSpec::Array(seq![ascii_bytes("PSYNC"@), ascii_bytes("?"@), ascii_bytes("-1"@)]))
}

/// A FULLRESYNC line: the word, a forty-character id, and an offset.
pub open spec fn fullresync_line_ok(p: Seq<u8>) -> bool {
    &&& p.len() >= 52
    &&& p.take(11) == ascii_bytes("FULLRESYNC "@)
    &&& p[51] == 32
    &&& canonical_nat(p.skip(52))
    &&& dec_val(p.skip(52)) <= u64::MAX as nat
}

/// What one propagated frame does to the follower's store: a valid SET
/// is applied, anything else is ignored; nothing is ever replied.
pub open spec fn spec_apply_replicated(
    store: Map<Seq<u8>, StoredVal>,
    f: FrameSpec,
    now: u64,
) -> Map<Seq<u8>, StoredVal> {
    match f {
        FrameSpec::Array(items) => {
            if items.len() >= 1 && lower(items[0]) == ascii_bytes("set"@) && set_args_ok(
                items,
            ) {
                store.insert(
                    items[1],
                    StoredVal { value: items[2], expires_at: set_expiry(items, now) },
                )
            } else {
                store
            }
        },
        _ => store,
    }
}

/// Result of scanning for the inline snapshot (`$<len>\r\n<bytes>`,
/// deliberately without the bulk string's trailing CRLF).
pub enum RdbOut {
    Done(int),
    More,
    Bad,
}

pub open spec fn parse_rdb(s: Seq<u8>) -> RdbOut {
    if s.len() == 0 {
        RdbOut::More
    } else if s[0] != 36 {
        RdbOut::Bad
    } else {
        match parse_line(s.skip(1)) {
            LineOut::More => RdbOut::More,
            LineOut::Bad => RdbOut::Bad,
            LineOut::Done(p, c) => {
                if canonical_nat(p) {
                    if s.skip(1 + c).len() < dec_val(p) {
                        RdbOut::More
                    } else {
                        RdbOut::Done(1 + c + dec_val(p) as int)
                    }
                } else {
                    RdbOut::Bad
                }
            },
        }
    }
}

pub proof fn lemma_parse_rdb_sound(s: Seq<u8>, n: int)
    requires
        parse_rdb(s) == RdbOut::Done(n),
    ensures
        1 <= n <= s.len(),
{
    let p = parse_line(s.skip(1))->Done_0;
    let c = parse_line(s.skip(1))->Done_1;
    crate::codec::lemma_parse_line_sound(s.skip(1), p, c);
}

/// What feeding bytes to the replication link does: state after, bytes
/// to send to the master, and whether the link failed.
#[verifier::ext_equal]
pub ghost struct RepOut {
    pub link: LinkModel,
    pub store: Map<Seq<u8>, StoredVal>,
    pub send: Seq<u8>,
    pub failed: bool,
}

/// Drive the link over its buffered bytes: answer each handshake reply
/// with the next handshake message, swallow the snapshot, and apply the
/// propagated stream silently.
pub open spec fn spec_replica_drive(l: LinkModel, store: Map<Seq<u8>, StoredVal>, now: u64)
    -> RepOut
    decreases l.buf.len(),
    via spec_replica_drive_dec
{
    if l.stage is Failed {
        RepOut { link: l, store, send: Seq::empty(), failed: true }
    } else if l.stage is AwaitSnapshot {
        match parse_rdb(l.buf) {
            RdbOut::More => RepOut { link: l, store, send: Seq::empty(), failed: false },
            RdbOut::Bad => RepOut {
                link: LinkModel { stage: HandshakeStage::Failed, ..l },
                store,
                send: Seq::empty(),
                failed: true,
            },
            RdbOut::Done(n) => spec_replica_drive(
                LinkModel { stage: HandshakeStage::Streaming, buf: l.buf.skip(n), ..l },
                store,
                now,
            ),
        }
    } else {
        match parse(l.buf) {
            ParseOut::More => RepOut { link: l, store, send: Seq::empty(), failed: false },
            ParseOut::Bad => RepOut {
                link: LinkModel { stage: HandshakeStage::Failed, ..l },
                store,
                send: Seq::empty(),
                failed: true,
            },
            ParseOut::Done(f, n) => {
                let rest = l.buf.skip(n);
                if l.stage is Streaming {
                    spec_replica_drive(
                        LinkModel { buf: rest, ..l },
                        spec_apply_replicated(store, f, now),
                        now,
                    )
                } else if l.stage is AwaitPong {
                    if f == FrameSpec::Simple(ascii_bytes("PONG"@)) {
                        let d = spec_replica_drive(
                            LinkModel { stage: HandshakeStage::AwaitPortOk, buf: rest, ..l },
                            store,
                            now,
                        );
                        RepOut {
                            link: d.link,
                            store: d.store,
                            send: msg_replconf_port(l.listening_port) + d.send,
                            failed: d.failed,
                        }
                    } else {
                        RepOut {
                            link: LinkModel { stage: HandshakeStage::Failed, buf: rest, ..l },
                            store,
                            send: Seq::empty(),
                            failed: true,
                        }
                    }
                } else if l.stage is AwaitPortOk {
                    if f == FrameSpec::Simple(ascii_bytes("OK"@)) {
                        let d = spec_replica_drive(
                            LinkModel { stage: HandshakeStage::AwaitCapaOk, buf: rest, ..l },
                            store,
                            now,
                        );
                        RepOut {
                            link: d.link,
                            store: d.store,
                            send: msg_replconf_capa() + d.send,
                            failed: d.failed,
                        }
                    } else {
                        RepOut {
                            link: LinkModel { stage: HandshakeStage::Failed, buf: rest, ..l },
                            store,
                            send: Seq::empty(),
                            failed: true,
                        }
                    }
                } else if l.stage is AwaitCapaOk {
                    if f == FrameSpec::Simple(ascii_bytes("OK"@)) {
                        let d = spec_replica_drive(
                            LinkModel {
                                stage: HandshakeStage::AwaitFullresync,
                                buf: rest,
                                ..l
                            },
                            store,
                            now,
                        );
                        RepOut {
                            link: d.link,
                            store: d.store,
                            send: msg_psync() + d.send,
                            failed: d.failed,
                        }
                    } else {
                        RepOut {
                            link: LinkModel { stage: HandshakeStage::Failed, buf: rest, ..l },
                            store,
                            send: Seq::empty(),
                            failed: true,
                        }
                    }
                } else {
                    // AwaitFullresync
                    if f matches FrameSpec::Simple(p) && fullresync_line_ok(f->Simple_0) {
                        spec_replica_drive(
                            LinkModel {
                                stage: HandshakeStage::AwaitSnapshot,
                                buf: rest,
                                master_replid: f->Simple_0.subrange(11, 51),
                                master_offset: dec_val(f->Simple_0.skip(52)) as u64,
                                ..l
                            },
                            store,
                            now,
                        )
                    } else {
                        RepOut {
                            link: LinkModel { stage: HandshakeStage::Failed, buf: rest, ..l },
                            store,
                            send: Seq::empty(),
                            failed: true,
                        }
                    }
                }
            },
        }
    }
}

#[via_fn]
proof fn spec_replica_drive_dec(l: LinkModel, store: Map<Seq<u8>, StoredVal>, now: u64) {
    if l.stage is AwaitSnapshot {
        if let RdbOut::Done(n) = parse_rdb(l.buf) {
            lemma_parse_rdb_sound(l.buf, n);
        }
    } else {
        if let ParseOut::Done(f, n) = parse(l.buf) {
            lemma_parse_sound(l.buf, f, n);
        }
    }
}

/// The first handshake message.
pub fn ping_message() -> (r: Vec<u8>)
    ensures
        r@ == msg_ping(),
{
    proof {
        reveal_strlit("PING");
    }
    let mut items: Vec<Vec<u8>> = Vec::new();
    items.push(str_to_bytes("PING"));
    let r = encode_resp_array(&items);
    proof {
        assert(items.deep_view()[0] =~= ascii_bytes("PING"@));
        assert(items.deep_view() =~= seq![ascii_bytes("PING"@)]);
    }
    r
}

/// The second handshake message, reporting the follower's listen port.
pub fn replconf_port_message(port: u16) -> (r: Vec<u8>)
    ensures
        r@ == msg_replconf_port(port),
{
    proof {
        reveal_strlit("REPLCONF");
        reveal_strlit("listening-port");
    }
    let mut items: Vec<Vec<u8>> = Vec::new();
    items.push(str_to_bytes("REPLCONF"));
    items.push(str_to_bytes("listening-port"));
    items.push(u64_to_decimal(port as u64));
    let r = encode_resp_array(&items);
    proof {
        assert(items.deep_view()[0] =~= ascii_bytes("REPLCONF"@));
        assert(items.deep_view()[1] =~= ascii_bytes("listening-port"@));
        assert(items.deep_view()[2] =~= spec_digits(port as nat));
        assert(items.deep_view() =~= seq![
            ascii_bytes("REPLCONF"@),
            ascii_bytes("listening-port"@),
            spec_digits(port as nat),
        ]);
    }
    r
}

/// The third handshake message, reporting capabilities.
pub fn replconf_capa_message() -> (r: Vec<u8>)
    ensures
        r@ == msg_replconf_capa(),
{
    proof {
        reveal_strlit("REPLCONF");
        reveal_strlit("capa");
        reveal_strlit("psync2");
    }
    let mut items: Vec<Vec<u8>> = Vec::new();
    items.push(str_to_bytes("REPLCONF"));
    items.push(str_to_bytes("capa"));
    items.push(str_to_bytes("psync2"));
    let r = encode_resp_array(&items);
    proof {
        assert(items.deep_view()[0] =~= ascii_bytes("REPLCONF"@));
        assert(items.deep_view()[1] =~= ascii_bytes("capa"@));
        assert(items.deep_view()[2] =~= ascii_bytes("psync2"@));
        assert(items.deep_view() =~= seq![
            ascii_bytes("REPLCONF"@),
            ascii_bytes("capa"@),
            ascii_bytes("psync2"@),
        ]);
    }
    r
}

/// The fourth handshake message, requesting a full resync.
pub fn psync_message() -> (r: Vec<u8>)
    ensures
        r@ == msg_psync(),
{
    proof {
        reveal_strlit("PSYNC");
        reveal_strlit("?");
        reveal_strlit("-1");
    }
    let mut items: Vec<Vec<u8>> = Vec::new();
    items.push(str_to_bytes("PSYNC"));
    items.push(str_to_bytes("?"));
    items.push(str_to_bytes("-1"));
    let r = encode_resp_array(&items);
    proof {
        assert(items.deep_view()[0] =~= ascii_bytes("PSYNC"@));
        assert(items.deep_view()[1] =~= ascii_bytes("?"@));
        assert(items.deep_view()[2] =~= ascii_bytes("-1"@));
        assert(items.deep_view() =~= seq![
            ascii_bytes("PSYNC"@),
            ascii_bytes("?"@),
            ascii_bytes("-1"@),
        ]);
    }
    r
}

/// Open the replication link: the fresh state and the PING to send.
pub fn handshake_start(listening_port: u16) -> (r: (ReplicaLink, Vec<u8>))
    ensures
        r.0@ == (LinkModel {
            stage: HandshakeStage::AwaitPong,
            buf: Seq::<u8>::empty(),
            listening_port,
            master_replid: Seq::<u8>::empty(),
            master_offset: 0,
        }),
        r.1@ == msg_ping(),
{
    let link = ReplicaLink {
        stage: HandshakeStage::AwaitPong,
        buf: Vec::new(),
        listening_port,
        master_replid: Vec::new(),
        master_offset: 0,
    };
    (link, ping_message())
}

/// Apply one propagated frame to the follower's store, never replying.
pub fn apply_replicated(store: &mut TimedHashMap, f: &Frame, now: u64)
    requires
        old(store).wf(),
    ensures
        final(store).wf(),
        final(store)@ == spec_apply_replicated(old(store)@, f@, now),
{
    match f {
        Frame::Array(items) => {
            let ghost dv = items.deep_view();
            proof {
                assert(dv.len() == items@.len());
                assert(forall|j: int|
                    0 <= j < items@.len() ==> dv[j] == #[trigger] items@[j]@);
            }
            if items.len() == 0 {
                return ;
            }
            let name = to_lower(&items[0]);
            let kw_set = ({
                proof {
                    reveal_strlit("set");
                }
                str_to_bytes("set")
            });
            if !bytes_eq(&name, &kw_set) {
                return ;
            }
            if items.len() == 3 {
                let key = vstd::slice::slice_to_vec(items[1].as_slice());
                let value = vstd::slice::slice_to_vec(items[2].as_slice());
                store.insert(key, value, None);
            } else if items.len() == 5 {
                let modifier = to_lower(&items[3]);
                let kw_px = ({
                    proof {
                        reveal_strlit("px");
                    }
                    str_to_bytes("px")
                });
                if bytes_eq(&modifier, &kw_px) {
                    match parse_decimal_u64(&items[4]) {
                        Some(ms) => {
                            let key = vstd::slice::slice_to_vec(items[1].as_slice());
                            let value = vstd::slice::slice_to_vec(items[2].as_slice());
                            store.insert(key, value, Some(sat_add(now, ms)));
                        },
                        None => {},
                    }
                }
            }
        },
        _ => {},
    }
}

enum RdbScan {
    Got(usize),
    NeedRdb,
    BadRdb,
}

/// Scan for the inline snapshot at the head of `buf`.
fn decode_rdb(buf: &Vec<u8>) -> (r: RdbScan)
    ensures
        match r {
            RdbScan::Got(n) => parse_rdb(buf@) == RdbOut::Done(n as int) && 1 <= n <= buf@.len(),
            RdbScan::NeedRdb => parse_rdb(buf@) is More,
            RdbScan::BadRdb => parse_rdb(buf@) is Bad,
        },
{
    if buf.len() == 0 {
        return RdbScan::NeedRdb;
    }
    if buf[0] != 36 {
        return RdbScan::BadRdb;
    }
    proof {
        assert(buf@.skip(1) =~= buf@.subrange(1, buf@.len() as int));
    }
    match crate::decoder::scan_line(buf, 1) {
        crate::decoder::LineScan::NeedMore => RdbScan::NeedRdb,
        crate::decoder::LineScan::BadLine => RdbScan::BadRdb,
        crate::decoder::LineScan::Found(end) => {
            let ghost p = buf@.subrange(1, end as int);
            let ghost c = end - 1 + 2;
            match crate::decoder::scan_number(buf, 1, end) {
                NumScan::NotCanonical => RdbScan::BadRdb,
                NumScan::TooBig => {
                    proof {
                        assert(buf@.skip(1 + c).len() <= buf@.len());
                        assert(buf@.len() <= usize::MAX as nat);
                        assert(usize::MAX as nat <= u64::MAX as nat);
                    }
                    RdbScan::NeedRdb
                },
                NumScan::Value(l) => {
                    let body_start = end + 2;
                    let rem = buf.len() - body_start;
                    proof {
                        assert(buf@.skip(1 + c).len() == rem);
                    }
                    if (rem as u64) < l {
                        RdbScan::NeedRdb
                    } else {
                        RdbScan::Got(body_start + (l as usize))
                    }
                },
            }
        },
    }
}

/// Feed bytes that arrived from the master: advance the handshake,
/// swallow the snapshot, and apply propagated writes to the store.
/// Returns the bytes to send back and whether the link failed.
#[verifier::loop_isolation(false)]
#[verifier::rlimit(100)]
pub fn replica_on_bytes(
    link: &mut ReplicaLink,
    store: &mut TimedHashMap,
    input: &[u8],
    now: u64,
) -> (r: (Vec<u8>, bool))
    requires
        old(store).wf(),
    ensures
        final(store).wf(),
        ({
            let d = spec_replica_drive(
                LinkModel { buf: old(link)@.buf + input@, ..old(link)@ },
                old(store)@,
                now,
            );
            final(link)@ == d.link && final(store)@ == d.store && r.0@ == d.send && r.1
                == d.failed
        }),
{
    crate::codec::push_bytes(&mut link.buf, input);
    let ghost l0 = link@;
    let ghost s0 = store@;
    let ghost total = spec_replica_drive(l0, s0, now);
    let mut send: Vec<u8> = Vec::new();
    loop
        invariant
            store.wf(),
            total == ({
                let d = spec_replica_drive(link@, store@, now);
                RepOut { link: d.link, store: d.store, send: send@ + d.send, failed: d.failed }
            }),
        decreases link@.buf.len(),
    {
        match link.stage {
            HandshakeStage::Failed => {
                return (send, true);
            },
            HandshakeStage::AwaitSnapshot => {
                match decode_rdb(&link.buf) {
                    RdbScan::NeedRdb => {
                        return (send, false);
                    },
                    RdbScan::BadRdb => {
                        link.stage = HandshakeStage::Failed;
                        return (send, true);
                    },
                    RdbScan::Got(n) => {
                        let rest = vstd::slice::slice_to_vec(
                            vstd::slice::slice_subrange(link.buf.as_slice(), n, link.buf.len()),
                        );
                        let ghost pre = link@.buf;
                        link.buf = rest;
                        link.stage = HandshakeStage::Streaming;
                        proof {
                            assert(link@.buf =~= pre.skip(n as int));
                        }
                    },
                }
            },
            _ => {
                proof {
                    assert(link@.buf.skip(0) =~= link@.buf);
                }
                match decode_frame(&link.buf, 0) {
                    DecodeOutcome::Incomplete => {
                        return (send, false);
                    },
                    DecodeOutcome::Malformed => {
                        link.stage = HandshakeStage::Failed;
                        return (send, true);
                    },
                    DecodeOutcome::Complete(f, n) => {
                        let ghost pre = link@.buf;
                        let rest = vstd::slice::slice_to_vec(
                            vstd::slice::slice_subrange(link.buf.as_slice(), n, link.buf.len()),
                        );
                        link.buf = rest;
                        proof {
                            assert(link@.buf =~= pre.skip(n as int));
                        }
                        match link.stage {
                            HandshakeStage::Streaming => {
                                apply_replicated(store, &f, now);
                            },
                            HandshakeStage::AwaitPong => {
                                let good = match &f {
                                    Frame::Simple(p) => {
                                        let pong = ({
                                            proof {
                                                reveal_strlit("PONG");
                                            }
                                            str_to_bytes("PONG")
                                        });
                                        bytes_eq(p, &pong)
                                    },
                                    _ => false,
                                };
                                if good {
                                    link.stage = HandshakeStage::AwaitPortOk;
                                    let msg = replconf_port_message(link.listening_port);
                                    crate::codec::push_bytes(&mut send, msg.as_slice());
                                } else {
                                    link.stage = HandshakeStage::Failed;
                                    return (send, true);
                                }
                            },
                            HandshakeStage::AwaitPortOk => {
                                let good = match &f {
                                    Frame::Simple(p) => {
                                        let ok = ({
                                            proof {
                                                reveal_strlit("OK");
                                            }
                                            str_to_bytes("OK")
                                        });
                                        bytes_eq(p, &ok)
                                    },
                                    _ => false,
                                };
                                if good {
                                    link.stage = HandshakeStage::AwaitCapaOk;
                                    let msg = replconf_capa_message();
                                    crate::codec::push_bytes(&mut send, msg.as_slice());
                                } else {
                                    link.stage = HandshakeStage::Failed;
                                    return (send, true);
                                }
                            },
                            HandshakeStage::AwaitCapaOk => {
                                let good = match &f {
                                    Frame::Simple(p) => {
                                        let ok = ({
                                            proof {
                                                reveal_strlit("OK");
                                            }
                                            str_to_bytes("OK")
                                        });
                                        bytes_eq(p, &ok)
                                    },
                                    _ => false,
                                };
                                if good {
                                    link.stage = HandshakeStage::AwaitFullresync;
                                    let msg = psync_message();
                                    crate::codec::push_bytes(&mut send, msg.as_slice());
                                } else {
                                    link.stage = HandshakeStage::Failed;
                                    return (send, true);
                                }
                            },
                            _ => {
                                // AwaitFullresync
                                let mut good = false;
                                match &f {
                                    Frame::Simple(p) => {
                                        let prefix = ({
                                            proof {
                                                reveal_strlit("FULLRESYNC ");
                                            }
                                            str_to_bytes("FULLRESYNC ")
                                        });
                                        if p.len() >= 52 && starts_with(p, &prefix) && p[51]
                                            == 32 {
                                            match crate::decoder::scan_number(p, 52, p.len()) {
                                                NumScan::Value(off) => {
                                                    proof {
                                                        assert(p@.subrange(
                                                            52,
                                                            p@.len() as int,
                                                        ) =~= p@.skip(52));
                                                    }
                                                    let id = vstd::slice::slice_to_vec(
                                                        vstd::slice::slice_subrange(
                                                            p.as_slice(),
                                                            11,
                                                            51,
                                                        ),
                                                    );
                                                    link.master_replid = id;
                                                    link.master_offset = off;
                                                    link.stage = HandshakeStage::AwaitSnapshot;
                                                    good = true;
                                                },
                                                NumScan::TooBig => {
                                                    proof {
                                                        assert(p@.subrange(
                                                            52,
                                                            p@.len() as int,
                                                        ) =~= p@.skip(52));
                                                    }
                                                },
                                                NumScan::NotCanonical => {
                                                    proof {
                                                        assert(p@.subrange(
                                                            52,
                                                            p@.len() as int,
                                                        ) =~= p@.skip(52));
                                                    }
                                                },
                                            }
                                        }
                                    },
                                    _ => {},
                                }
                                if !good {
                                    link.stage = HandshakeStage::Failed;
                                    return (send, true);
                                }
                            },
                        }
                    },
                }
            },
        }
    }
}

/// Does `s` begin with `prefix`?
pub fn starts_with(s: &Vec<u8>, prefix: &Vec<u8>) -> (r: bool)
    ensures
        r == (s@.len() >= prefix@.len() && s@.take(prefix@.len() as int) == prefix@),
{
    if s.len() < prefix.len() {
        return false;
    }
    let mut i: usize = 0;
    while i < prefix.len()
        invariant
            i <= prefix@.len() <= s@.len(),
            forall|j: int| 0 <= j < i ==> s@[j] == prefix@[j],
        decreases prefix@.len() - i,
    {
        if s[i] != prefix[i] {
            proof {
                assert(s@.take(prefix@.len() as int)[i as int] == s@[i as int]);
            }
            return false;
        }
        i = i + 1;
    }
    proof {
        assert(s@.take(prefix@.len() as int) =~= prefix@);
    }
    true
}

} // verus!
