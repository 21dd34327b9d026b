//! Role-aware command dispatch and the master's write propagation:
//! the per-connection state machine that turns one decoded command
//! frame into a reply, a store update, and (on a master) bytes queued
//! for every registered follower.

use vstd::prelude::*;
use vstd::map::*;
use vstd::string::{is_ascii, is_ascii_spec_bytes};

use crate::cli::Role;
use crate::codec::{
    canonical_nat, crlf, dec_val, enc, enc_bulk, is_hex_digit, line_ok, spec_digits, u64_to_decimal,
    encode_null_bulk, encode_resp_array, encode_resp_bulk_string, encode_simple_string,
    encode_error_string, push_bytes, Frame, FrameSpec,
};
use crate::store::{bytes_eq, entry_live, StoredVal, TimedHashMap};

verus! {

/// The byte each ASCII character of `cs` stands for.
pub open spec fn ascii_bytes(cs: Seq<char>) -> Seq<u8> {
    Seq::new(cs.len(), |i: int| cs[i] as u8)
}

/// Copy the bytes of an ASCII string literal.
pub fn str_to_bytes(s: &str) -> (r: Vec<u8>)
    requires
        is_ascii(s),
    ensures
        r@ == ascii_bytes(s@),
{
    let b = s.as_bytes();
    proof {
        is_ascii_spec_bytes(s);
        assert(b@ =~= ascii_bytes(s@));
    }
    vstd::slice::slice_to_vec(b)
}

pub open spec fn lower_byte(b: u8) -> u8 {
    if 65 <= b && b <= 90 {
        (b + 32) as u8
    } else {
        b
    }
}

/// ASCII lowercase, used for the case-insensitive command names.
pub open spec fn lower(s: Seq<u8>) -> Seq<u8> {
    s.map_values(|b: u8| lower_byte(b))
}

pub fn to_lower(s: &Vec<u8>) -> (r: Vec<u8>)
    ensures
        r@ == lower(s@),
{
    let mut out: Vec<u8> = Vec::new();
    let mut i: usize = 0;
    while i < s.len()
        invariant
            i <= s@.len(),
            out@.len() == i,
            forall|j: int| 0 <= j < i ==> out@[j] == lower_byte(#[trigger] s@[j]),
        decreases s@.len() - i,
    {
        let b = s[i];
        if 65 <= b && b <= 90 {
            out.push(b + 32);
        } else {
            out.push(b);
        }
        i = i + 1;
    }
    proof {
        assert(out@ =~= lower(s@));
    }
    out
}

pub open spec fn sat_add64(a: u64, b: u64) -> u64 {
    if a + b > u64::MAX {
        u64::MAX
    } else {
        (a + b) as u64
    }
}

pub fn sat_add(a: u64, b: u64) -> (r: u64)
    ensures
        r == sat_add64(a, b),
{
    if a > u64::MAX - b {
        u64::MAX
    } else {
        a + b
    }
}

/// The reply a master gives to PING.
pub open spec fn reply_pong_master() -> Seq<u8> {
    enc(FrameSpec::Simple(ascii_bytes("PONG"@)))
}

/// The reply a follower gives to PING: a one-element array.
pub open spec fn reply_pong_follower() -> Seq<u8> {
    enc(FrameSpec::Array(seq![ascii_bytes("PONG"@)]))
}

pub open spec fn reply_ok() -> Seq<u8> {
    enc(FrameSpec::Simple(ascii_bytes("OK"@)))
}

pub open spec fn reply_unknown() -> Seq<u8> {
    enc(FrameSpec::Error(ascii_bytes("ERR unknown command"@)))
}

pub open spec fn reply_arity() -> Seq<u8> {
    enc(FrameSpec::Error(ascii_bytes("ERR wrong number of arguments"@)))
}

pub open spec fn reply_syntax() -> Seq<u8> {
    enc(FrameSpec::Error(ascii_bytes("ERR syntax error"@)))
}

/// A replication id is forty hex characters.
pub open spec fn replid_wf(s: Seq<u8>) -> bool {
    s.len() == 40 && (forall|i: int| 0 <= i < s.len() ==> is_hex_digit(#[trigger] s[i]))
}

pub proof fn lemma_replid_line_ok(s: Seq<u8>)
    requires
        replid_wf(s),
    ensures
        line_ok(s),
{
    assert forall|i: int| 0 <= i < s.len() implies !crate::codec::is_break(#[trigger] s[i]) by {
        assert(is_hex_digit(s[i]));
    }
}

/// The fixed empty-database snapshot a master ships on a full resync:
/// a valid RDB v0011 image containing no keys.
pub open spec fn rdb_image() -> Seq<u8> {
    seq![
        82u8, 69, 68, 73, 83, 48, 48, 49, 49, 250, 9, 114, 101, 100, 105, 115, 45,
        118, 101, 114, 5, 55, 46, 50, 46, 48, 250, 10, 114, 101, 100, 105, 115, 45,
        98, 105, 116, 115, 192, 64, 250, 5, 99, 116, 105, 109, 101, 194, 109, 8,
        188, 101, 250, 8, 117, 115, 101, 100, 45, 109, 101, 109, 194, 176, 196, 16,
        0, 250, 8, 97, 111, 102, 45, 98, 97, 115, 101, 192, 0, 255, 240, 110, 59,
        254, 192, 255, 90, 162,
    ]
}

/// Bytes of the snapshot image, for the PSYNC reply and the tests.
pub fn rdb_snapshot() -> (r: Vec<u8>)
    ensures
        r@ == rdb_image(),
        r@.len() == 88,
{
    let r: Vec<u8> = vec![
        82u8, 69, 68, 73, 83, 48, 48, 49, 49, 250, 9, 114, 101, 100, 105, 115, 45,
        118, 101, 114, 5, 55, 46, 50, 46, 48, 250, 10, 114, 101, 100, 105, 115, 45,
        98, 105, 116, 115, 192, 64, 250, 5, 99, 116, 105, 109, 101, 194, 109, 8,
        188, 101, 250, 8, 117, 115, 101, 100, 45, 109, 101, 109, 194, 176, 196, 16,
        0, 250, 8, 97, 111, 102, 45, 98, 97, 115, 101, 192, 0, 255, 240, 110, 59,
        254, 192, 255, 90, 162,
    ];
    proof {
        assert(r@ =~= rdb_image());
    }
    r
}

/// The replication id both instances are started with by default.
pub fn default_replication_id() -> (r: Vec<u8>)
    ensures
        r@ == ascii_bytes("8371b4fb1155b71f4a04d3e1bc3e18c4a990aeeb"@),
        replid_wf(r@),
{
    proof {
        reveal_strlit("8371b4fb1155b71f4a04d3e1bc3e18c4a990aeeb");
    }
    let r = str_to_bytes("8371b4fb1155b71f4a04d3e1bc3e18c4a990aeeb");
    proof {
        assert(replid_wf(r@));
    }
    r
}

/// One registered follower on a master: its reported listening port,
/// the cumulative stream of propagated bytes owed to its socket, and
/// whether it is still connected (an evicted follower gets no more
/// propagation).
pub ghost struct FollowerModel {
    pub port: u16,
    pub stream: Seq<u8>,
    pub live: bool,
}

/// The whole state of one server instance.
#[verifier::ext_equal]
pub ghost struct ServerModel {
    pub master: bool,
    pub store: Map<Seq<u8>, StoredVal>,
    pub replid: Seq<u8>,
    pub offset: u64,
    pub followers: Seq<FollowerModel>,
}

/// Per-connection state: the undecoded bytes, the listening port a
/// pending follower reported, and the registry slot once promoted.
#[verifier::ext_equal]
pub ghost struct ConnModel {
    pub buf: Seq<u8>,
    pub pending_port: Option<u16>,
    pub follower_idx: Option<int>,
}

/// What one dispatched command does: the state after, the reply bytes,
/// and whether the connection is to be closed.
#[verifier::ext_equal]
pub ghost struct StepOut {
    pub srv: ServerModel,
    pub conn: ConnModel,
    pub out: Seq<u8>,
    pub close: bool,
}

/// SET takes a key and value, optionally followed by `PX <ms>`.
pub open spec fn set_args_ok(items: Seq<Seq<u8>>) -> bool {
    ||| items.len() == 3
    ||| (items.len() == 5 && lower(items[3]) == ascii_bytes("px"@) && canonical_nat(items[4])
        && dec_val(items[4]) <= u64::MAX as nat)
}

/// The absolute deadline a SET command asks for, at instant `now`.
pub open spec fn set_expiry(items: Seq<Seq<u8>>, now: u64) -> Option<u64> {
    if items.len() == 3 {
        None
    } else {
        Some(sat_add64(now, dec_val(items[4]) as u64))
    }
}

/// The bytes a master forwards for one SET: the command re-encoded
/// canonically as an array of bulk strings.
pub open spec fn set_propagation(items: Seq<Seq<u8>>) -> Seq<u8> {
    enc(FrameSpec::Array(items))
}

/// Append `bytes` to the stream owed to every live follower, in place.
pub open spec fn push_to_followers(fs: Seq<FollowerModel>, bytes: Seq<u8>) -> Seq<FollowerModel> {
    fs.map_values(
        |fo: FollowerModel|
            if fo.live {
                FollowerModel { port: fo.port, stream: fo.stream + bytes, live: true }
            } else {
                fo
            },
    )
}

/// The INFO reply body: CRLF-joined `key:value` lines.
pub open spec fn info_body(m: ServerModel) -> Seq<u8> {
    if m.master {
        ascii_bytes("role:master\r\nmaster_replid:"@) + m.replid + ascii_bytes(
            "\r\nmaster_repl_offset:"@,
        ) + spec_digits(m.offset as nat)
    } else {
        ascii_bytes("role:slave"@)
    }
}

/// The payload of the master's FULLRESYNC reply line.
pub open spec fn fullresync_payload(replid: Seq<u8>) -> Seq<u8> {
    ascii_bytes("FULLRESYNC "@) + replid + ascii_bytes(" 0"@)
}

/// Everything a master writes back to PSYNC: the FULLRESYNC line, then
/// the snapshot as `$<len>\r\n<bytes>` with no trailing CRLF.
pub open spec fn psync_reply(replid: Seq<u8>) -> Seq<u8> {
    enc(FrameSpec::Simple(fullresync_payload(replid))) + seq![36u8] + spec_digits(
        rdb_image().len(),
    ) + crlf() + rdb_image()
}

/// A REPLCONF that reports the follower's listening port.
pub open spec fn replconf_port_of(items: Seq<Seq<u8>>) -> Option<u16> {
    if items.len() >= 3 && lower(items[1]) == ascii_bytes("listening-port"@) && canonical_nat(
        items[2],
    ) && dec_val(items[2]) <= u16::MAX as nat {
        Some(dec_val(items[2]) as u16)
    } else {
        None
    }
}

/// The dispatch table: what one command frame does to the server, the
/// connection, and the wire, at instant `now`.
pub open spec fn spec_handle(m: ServerModel, c: ConnModel, f: FrameSpec, now: u64) -> StepOut {
    match f {
        FrameSpec::Array(items) => {
            if items.len() == 0 {
                StepOut { srv: m, conn: c, out: reply_unknown(), close: false }
            } else {
                let name = lower(items[0]);
                if name == ascii_bytes("ping"@) {
                    if items.len() == 1 {
                        StepOut {
                            srv: m,
                            conn: c,
                            out: if m.master {
                                reply_pong_master()
                            } else {
                                reply_pong_follower()
                            },
                            close: false,
                        }
                    } else {
                        StepOut { srv: m, conn: c, out: reply_arity(), close: false }
                    }
                } else if name == ascii_bytes("echo"@) {
                    if items.len() == 2 {
                        StepOut { srv: m, conn: c, out: enc_bulk(items[1]), close: false }
                    } else {
                        StepOut { srv: m, conn: c, out: reply_arity(), close: false }
                    }
                } else if name == ascii_bytes("get"@) {
                    if items.len() == 2 {
                        let out = if m.store.contains_key(items[1]) && entry_live(
                            m.store[items[1]],
                            now,
                        ) {
                            enc_bulk(m.store[items[1]].value)
                        } else {
                            enc(FrameSpec::NullBulk)
                        };
                        StepOut { srv: m, conn: c, out, close: false }
                    } else {
                        StepOut { srv: m, conn: c, out: reply_arity(), close: false }
                    }
                } else if name == ascii_bytes("set"@) {
                    if set_args_ok(items) {
                        let store2 = m.store.insert(
                            items[1],
                            StoredVal { value: items[2], expires_at: set_expiry(items, now) },
                        );
                        if m.master {
                            let bytes = set_propagation(items);
                            StepOut {
                                srv: ServerModel {
                                    store: store2,
                                    offset: sat_add64(m.offset, bytes.len() as u64),
                                    followers: push_to_followers(m.followers, bytes),
                                    ..m
                                },
                                conn: c,
                                out: reply_ok(),
                                close: false,
                            }
                        } else {
                            StepOut {
                                srv: ServerModel { store: store2, ..m },
                                conn: c,
                                out: reply_ok(),
                                close: false,
                            }
                        }
                    } else if items.len() == 5 {
                        StepOut { srv: m, conn: c, out: reply_syntax(), close: false }
                    } else {
                        StepOut { srv: m, conn: c, out: reply_arity(), close: false }
                    }
                } else if name == ascii_bytes("info"@) {
                    if items.len() <= 2 {
                        StepOut { srv: m, conn: c, out: enc_bulk(info_body(m)), close: false }
                    } else {
                        StepOut { srv: m, conn: c, out: reply_arity(), close: false }
                    }
                } else if name == ascii_bytes("replconf"@) {
                    if m.master {
                        let c2 = match replconf_port_of(items) {
                            Some(p) => ConnModel { pending_port: Some(p), ..c },
                            None => c,
                        };
                        StepOut { srv: m, conn: c2, out: reply_ok(), close: false }
                    } else {
                        StepOut { srv: m, conn: c, out: reply_unknown(), close: false }
                    }
                } else if name == ascii_bytes("psync"@) {
                    if m.master {
                        if items.len() == 3 {
                            let port = match c.pending_port {
                                Some(p) => p,
                                None => 0,
                            };
                            StepOut {
                                srv: ServerModel {
                                    followers: m.followers.push(
                                        (FollowerModel {
                                            port,
                                            stream: Seq::empty(),
                                            live: true,
                                        }),
                                    ),
                                    ..m
                                },
                                conn: ConnModel {
                                    follower_idx: Some(m.followers.len() as int),
                                    ..c
                                },
                                out: psync_reply(m.replid),
                                close: false,
                            }
                        } else {
                            StepOut { srv: m, conn: c, out: reply_arity(), close: false }
                        }
                    } else {
                        StepOut { srv: m, conn: c, out: reply_unknown(), close: false }
                    }
                } else {
                    StepOut { srv: m, conn: c, out: reply_unknown(), close: false }
                }
            }
        },
        _ => StepOut { srv: m, conn: c, out: reply_unknown(), close: false },
    }
}

/// One registered follower at runtime.
pub struct Follower {
    pub port: u16,
    pub stream: Vec<u8>,
    pub live: bool,
}

impl View for Follower {
    type V = FollowerModel;

    open spec fn view(&self) -> FollowerModel {
        FollowerModel { port: self.port, stream: self.stream@, live: self.live }
    }
}

impl DeepView for Follower {
    type V = FollowerModel;

    open spec fn deep_view(&self) -> FollowerModel {
        self.view()
    }
}

/// The runtime state of one server instance, shared by its connections.
pub struct ServerState {
    pub role: Role,
    pub store: TimedHashMap,
    pub replid: Vec<u8>,
    pub offset: u64,
    pub followers: Vec<Follower>,
}

impl View for ServerState {
    type V = ServerModel;

    open spec fn view(&self) -> ServerModel {
        ServerModel {
            master: self.role is Master,
            store: self.store@,
            replid: self.replid@,
            offset: self.offset,
            followers: self.followers.deep_view(),
        }
    }
}

impl ServerState {
    pub open spec fn wf(&self) -> bool {
        self.store.wf() && replid_wf(self.replid@)
    }

    /// A fresh instance with the given role and replication id.
    pub fn new(role: Role, replid: Vec<u8>) -> (r: ServerState)
        requires
            replid_wf(replid@),
        ensures
            r.wf(),
            r@.master == (role is Master),
            r@.store == Map::<Seq<u8>, StoredVal>::empty(),
            r@.replid == replid@,
            r@.offset == 0,
            r@.followers == Seq::<FollowerModel>::empty(),
    {
        let r = ServerState {
            role,
            store: TimedHashMap::new(),
            replid,
            offset: 0,
            followers: Vec::new(),
        };
        proof {
            assert(r.followers.deep_view() =~= Seq::<FollowerModel>::empty());
        }
        r
    }

    /// Evict the follower whose socket failed: it stays out of every
    /// later propagation, and no other follower or client is affected.
    pub fn evict_follower(&mut self, i: usize)
        requires
            old(self).wf(),
            i < old(self)@.followers.len(),
        ensures
            final(self).wf(),
            final(self)@ == (ServerModel {
                followers: old(self)@.followers.update(
                    i as int,
                    (FollowerModel { live: false, ..old(self)@.followers[i as int] }),
                ),
                ..old(self)@
            }),
    {
        let ghost pre = self.followers.deep_view();
        let fo = &mut self.followers[i];
        fo.live = false;
        proof {
            assert(self.followers@[i as int]@ == (FollowerModel { live: false, ..pre[i as int] }));
            assert(self.followers.deep_view() =~= pre.update(
                i as int,
                (FollowerModel { live: false, ..pre[i as int] }),
            ));
            assert(self@ =~~= (ServerModel {
                followers: pre.update(
                    i as int,
                    (FollowerModel { live: false, ..pre[i as int] }),
                ),
                ..old(self)@
            }));
        }
    }
}

/// Per-connection runtime state.
pub struct ConnState {
    pub buf: Vec<u8>,
    pub pending_port: Option<u16>,
    pub follower_idx: Option<usize>,
}

impl View for ConnState {
    type V = ConnModel;

    open spec fn view(&self) -> ConnModel {
        ConnModel {
            buf: self.buf@,
            pending_port: self.pending_port,
            follower_idx: match self.follower_idx {
                Some(i) => Some(i as int),
                None => None,
            },
        }
    }
}

impl ConnState {
    /// A fresh connection with an empty read buffer.
    pub fn new() -> (r: ConnState)
        ensures
            r@ == (ConnModel {
                buf: Seq::<u8>::empty(),
                pending_port: None,
                follower_idx: None,
            }),
    {
        ConnState { buf: Vec::new(), pending_port: None, follower_idx: None }
    }
}

/// Read a whole byte string as a canonical decimal number.
pub fn parse_decimal_u64(v: &Vec<u8>) -> (r: Option<u64>)
    ensures
        match r {
            Some(x) => canonical_nat(v@) && dec_val(v@) == x as nat,
            None => !(canonical_nat(v@) && dec_val(v@) <= u64::MAX as nat),
        },
{
    proof {
        assert(v@.subrange(0, v@.len() as int) =~= v@);
    }
    match crate::decoder::scan_number(v, 0, v.len()) {
        crate::decoder::NumScan::Value(x) => Some(x),
        crate::decoder::NumScan::TooBig => None,
        crate::decoder::NumScan::NotCanonical => None,
    }
}

/// Append `bytes` to the stream owed to every follower.
#[verifier::loop_isolation(false)]
fn broadcast_to_followers(followers: &mut Vec<Follower>, bytes: &Vec<u8>)
    ensures
        final(followers).deep_view() == push_to_followers(old(followers).deep_view(), bytes@),
{
    let ghost pre = followers.deep_view();
    let ghost n = pre.len();
    let mut updated: Vec<Follower> = Vec::new();
    while followers.len() > 0
        invariant
            updated@.len() + followers@.len() == n,
            forall|j: int|
                0 <= j < followers@.len() ==> #[trigger] followers@[j]@ == pre[updated@.len()
                    + j],
            forall|j: int|
                0 <= j < updated@.len() ==> #[trigger] updated@[j]@ == (if pre[j].live {
                    FollowerModel { port: pre[j].port, stream: pre[j].stream + bytes@, live: true }
                } else {
                    pre[j]
                }),
        decreases followers@.len(),
    {
        let ghost before = followers@;
        let ghost done = updated@.len();
        let mut fo = followers.remove(0);
        proof {
            assert(fo == before[0]);
            assert(before[0]@ == pre[done as int]);
            assert(fo.port == pre[done as int].port);
            assert(fo.stream@ == pre[done as int].stream);
            assert(fo.live == pre[done as int].live);
        }
        if fo.live {
            push_bytes(&mut fo.stream, bytes.as_slice());
            proof {
                assert(fo.port == pre[done as int].port);
                assert(fo.stream@ == pre[done as int].stream + bytes@);
            }
        }
        updated.push(fo);
        proof {
            assert(forall|j: int|
                0 <= j < followers@.len() ==> #[trigger] followers@[j] == before[j + 1]);
            assert(updated@[done as int]@ == (if pre[done as int].live {
                FollowerModel {
                    port: pre[done as int].port,
                    stream: pre[done as int].stream + bytes@,
                    live: true,
                }
            } else {
                pre[done as int]
            }));
        }
    }
    *followers = updated;
    proof {
        assert(final(followers).deep_view() =~= push_to_followers(pre, bytes@));
    }
}

/// Build the INFO reply body for the instance's role.
fn build_info_body(srv: &ServerState) -> (r: Vec<u8>)
    ensures
        r@ == info_body(srv@),
{
    if matches!(srv.role, Role::Master(_)) {
        proof {
            reveal_strlit("role:master\r\nmaster_replid:");
            reveal_strlit("\r\nmaster_repl_offset:");
        }
        let mut out = str_to_bytes("role:master\r\nmaster_replid:");
        push_bytes(&mut out, srv.replid.as_slice());
        let mid = str_to_bytes("\r\nmaster_repl_offset:");
        push_bytes(&mut out, mid.as_slice());
        let digits = u64_to_decimal(srv.offset);
        push_bytes(&mut out, digits.as_slice());
        proof {
            assert(out@ =~= info_body(srv@));
        }
        out
    } else {
        proof {
            reveal_strlit("role:slave");
        }
        str_to_bytes("role:slave")
    }
}

/// Build the whole PSYNC reply: FULLRESYNC line plus inline snapshot.
fn build_psync_reply(replid: &Vec<u8>) -> (r: Vec<u8>)
    requires
        replid_wf(replid@),
    ensures
        r@ == psync_reply(replid@),
{
    proof {
        reveal_strlit("FULLRESYNC ");
        reveal_strlit(" 0");
    }
    let mut payload = str_to_bytes("FULLRESYNC ");
    push_bytes(&mut payload, replid.as_slice());
    let tail = str_to_bytes(" 0");
    push_bytes(&mut payload, tail.as_slice());
    proof {
        assert(payload@ =~= fullresync_payload(replid@));
        lemma_replid_line_ok(replid@);
        assert(line_ok(payload@)) by {
            assert(forall|i: int|
                0 <= i < payload@.len() ==> !crate::codec::is_break(#[trigger] payload@[i]));
        }
    }
    let mut out = encode_simple_string(payload.as_slice());
    let rdb = rdb_snapshot();
    out.push(36);
    let digits = u64_to_decimal(rdb.len() as u64);
    push_bytes(&mut out, digits.as_slice());
    out.push(13);
    out.push(10);
    push_bytes(&mut out, rdb.as_slice());
    proof {
        assert(out@ =~= psync_reply(replid@));
    }
    out
}

fn ok_bytes() -> (r: Vec<u8>)
    ensures
        r@ == reply_ok(),
{
    proof {
        reveal_strlit("OK");
    }
    let p = str_to_bytes("OK");
    encode_simple_string(p.as_slice())
}

fn unknown_err_bytes() -> (r: Vec<u8>)
    ensures
        r@ == reply_unknown(),
{
    proof {
        reveal_strlit("ERR unknown command");
    }
    let p = str_to_bytes("ERR unknown command");
    encode_error_string(p.as_slice())
}

fn arity_err_bytes() -> (r: Vec<u8>)
    ensures
        r@ == reply_arity(),
{
    proof {
        reveal_strlit("ERR wrong number of arguments");
    }
    let p = str_to_bytes("ERR wrong number of arguments");
    encode_error_string(p.as_slice())
}

fn syntax_err_bytes() -> (r: Vec<u8>)
    ensures
        r@ == reply_syntax(),
{
    proof {
        reveal_strlit("ERR syntax error");
    }
    let p = str_to_bytes("ERR syntax error");
    encode_error_string(p.as_slice())
}

fn pong_master_bytes() -> (r: Vec<u8>)
    ensures
        r@ == reply_pong_master(),
{
    proof {
        reveal_strlit("PONG");
    }
    let p = str_to_bytes("PONG");
    encode_simple_string(p.as_slice())
}

fn pong_follower_bytes() -> (r: Vec<u8>)
    ensures
        r@ == reply_pong_follower(),
{
    proof {
        reveal_strlit("PONG");
    }
    let p = str_to_bytes("PONG");
    let mut items: Vec<Vec<u8>> = Vec::new();
    items.push(p);
    let r = encode_resp_array(&items);
    proof {
        assert(items.deep_view()[0] =~= ascii_bytes("PONG"@));
        assert(items.deep_view() =~= seq![ascii_bytes("PONG"@)]);
    }
    r
}

/// Dispatch one command frame against the server, as `spec_handle` says.
#[verifier::rlimit(100)]
pub fn handle_frame(srv: &mut ServerState, conn: &mut ConnState, f: &Frame, now: u64) -> (r: (
    Vec<u8>,
    bool,
))
    requires
        old(srv).wf(),
    ensures
        final(srv).wf(),
        (StepOut { srv: final(srv)@, conn: final(conn)@, out: r.0@, close: r.1 })
            == spec_handle(old(srv)@, old(conn)@, f@, now),
{
    let ghost m0 = srv@;
    let ghost c0 = conn@;
    let ghost fv = f@;
    let ghost target = spec_handle(m0, c0, fv, now);
    match f {
        Frame::Array(items) => {
            let ghost dv = items.deep_view();
            proof {
                assert(fv == FrameSpec::Array(dv));
                assert(dv.len() == items@.len());
                assert(forall|j: int|
                    0 <= j < items@.len() ==> dv[j] == #[trigger] items@[j]@);
            }
            if items.len() == 0 {
                let out = unknown_err_bytes();
                proof {
                    assert((StepOut { srv: srv@, conn: conn@, out: out@, close: false })
                        =~~= target);
                }
                return (out, false);
            }
            let name = to_lower(&items[0]);
            proof {
                assert(name@ == lower(dv[0]));
            }
            let is_master = matches!(srv.role, Role::Master(_));
            let kw_ping = ({
                proof {
                    reveal_strlit("ping");
                }
                str_to_bytes("ping")
            });
            let kw_echo = ({
                proof {
                    reveal_strlit("echo");
                }
                str_to_bytes("echo")
            });
            let kw_get = ({
                proof {
                    reveal_strlit("get");
                }
                str_to_bytes("get")
            });
            let kw_set = ({
                proof {
                    reveal_strlit("set");
                }
                str_to_bytes("set")
            });
            let kw_info = ({
                proof {
                    reveal_strlit("info");
                }
                str_to_bytes("info")
            });
            let kw_replconf = ({
                proof {
                    reveal_strlit("replconf");
                }
                str_to_bytes("replconf")
            });
            let kw_psync = ({
                proof {
                    reveal_strlit("psync");
                }
                str_to_bytes("psync")
            });
            if bytes_eq(&name, &kw_ping) {
                let out = if items.len() == 1 {
                    if is_master {
                        pong_master_bytes()
                    } else {
                        pong_follower_bytes()
                    }
                } else {
                    arity_err_bytes()
                };
                proof {
                    assert((StepOut { srv: srv@, conn: conn@, out: out@, close: false })
                        =~~= target);
                }
                (out, false)
            } else if bytes_eq(&name, &kw_echo) {
                let out = if items.len() == 2 {
                    encode_resp_bulk_string(items[1].as_slice())
                } else {
                    arity_err_bytes()
                };
                proof {
                    assert((StepOut { srv: srv@, conn: conn@, out: out@, close: false })
                        =~~= target);
                }
                (out, false)
            } else if bytes_eq(&name, &kw_get) {
                let out = if items.len() == 2 {
                    match srv.store.get(&items[1], now) {
                        Some(v) => encode_resp_bulk_string(v.as_slice()),
                        None => encode_null_bulk(),
                    }
                } else {
                    arity_err_bytes()
                };
                proof {
                    assert((StepOut { srv: srv@, conn: conn@, out: out@, close: false })
                        =~~= target);
                }
                (out, false)
            } else if bytes_eq(&name, &kw_set) {
                if items.len() == 3 || items.len() == 5 {
                    let deadline_opt: Option<Option<u64>> = if items.len() == 3 {
                        Some(None)
                    } else {
                        let modifier = to_lower(&items[3]);
                        let kw_px = ({
                            proof {
                                reveal_strlit("px");
                            }
                            str_to_bytes("px")
                        });
                        if bytes_eq(&modifier, &kw_px) {
                            match parse_decimal_u64(&items[4]) {
                                Some(ms) => Some(Some(sat_add(now, ms))),
                                None => None,
                            }
                        } else {
                            None
                        }
                    };
                    proof {
                        assert(match deadline_opt {
                            Some(d) => set_args_ok(dv) && d == set_expiry(dv, now),
                            None => !set_args_ok(dv),
                        });
                    }
                    match deadline_opt {
                        None => {
                            let out = syntax_err_bytes();
                            proof {
                                assert((StepOut {
                                    srv: srv@,
                                    conn: conn@,
                                    out: out@,
                                    close: false,
                                }) =~~= target);
                            }
                            (out, false)
                        },
                        Some(deadline) => {
                            let key = vstd::slice::slice_to_vec(items[1].as_slice());
                            let value = vstd::slice::slice_to_vec(items[2].as_slice());
                            srv.store.insert(key, value, deadline);
                            let out = ok_bytes();
                            if is_master {
                                let prop = encode_resp_array(items);
                                broadcast_to_followers(&mut srv.followers, &prop);
                                srv.offset = sat_add(srv.offset, prop.len() as u64);
                                proof {
                                    assert(prop@.len() as u64
                                        == set_propagation(dv).len() as u64);
                                    assert((StepOut {
                                        srv: srv@,
                                        conn: conn@,
                                        out: out@,
                                        close: false,
                                    }) =~~= target);
                                }
                            } else {
                                proof {
                                    assert((StepOut {
                                        srv: srv@,
                                        conn: conn@,
                                        out: out@,
                                        close: false,
                                    }) =~~= target);
                                }
                            }
                            (out, false)
                        },
                    }
                } else {
                    let out = arity_err_bytes();
                    proof {
                        assert((StepOut { srv: srv@, conn: conn@, out: out@, close: false })
                            =~~= target);
                    }
                    (out, false)
                }
            } else if bytes_eq(&name, &kw_info) {
                let out = if items.len() <= 2 {
                    let body = build_info_body(srv);
                    encode_resp_bulk_string(body.as_slice())
                } else {
                    arity_err_bytes()
                };
                proof {
                    assert((StepOut { srv: srv@, conn: conn@, out: out@, close: false })
                        =~~= target);
                }
                (out, false)
            } else if bytes_eq(&name, &kw_replconf) {
                if is_master {
                    if items.len() >= 3 {
                        let sub = to_lower(&items[1]);
                        let kw_lp = ({
                            proof {
                                reveal_strlit("listening-port");
                            }
                            str_to_bytes("listening-port")
                        });
                        if bytes_eq(&sub, &kw_lp) {
                            match parse_decimal_u64(&items[2]) {
                                Some(p) => {
                                    if p <= 65535 {
                                        conn.pending_port = Some(p as u16);
                                    }
                                },
                                None => {},
                            }
                        }
                    }
                    let out = ok_bytes();
                    proof {
                        assert((StepOut { srv: srv@, conn: conn@, out: out@, close: false })
                            =~~= target);
                    }
                    (out, false)
                } else {
                    let out = unknown_err_bytes();
                    proof {
                        assert((StepOut { srv: srv@, conn: conn@, out: out@, close: false })
                            =~~= target);
                    }
                    (out, false)
                }
            } else if bytes_eq(&name, &kw_psync) {
                if is_master {
                    if items.len() == 3 {
                        let out = build_psync_reply(&srv.replid);
                        let port: u16 = match conn.pending_port {
                            Some(p) => p,
                            None => 0,
                        };
                        let ghost fpre = srv.followers.deep_view();
                        conn.follower_idx = Some(srv.followers.len());
                        srv.followers.push(Follower { port, stream: Vec::new(), live: true });
                        proof {
                            assert(srv.followers.deep_view() =~= fpre.push(
                                (FollowerModel { port, stream: Seq::empty(), live: true }),
                            ));
                            assert((StepOut { srv: srv@, conn: conn@, out: out@, close: false })
                                =~~= target);
                        }
                        (out, false)
                    } else {
                        let out = arity_err_bytes();
                        proof {
                            assert((StepOut { srv: srv@, conn: conn@, out: out@, close: false })
                                =~~= target);
                        }
                        (out, false)
                    }
                } else {
                    let out = unknown_err_bytes();
                    proof {
                        assert((StepOut { srv: srv@, conn: conn@, out: out@, close: false })
                            =~~= target);
                    }
                    (out, false)
                }
            } else {
                let out = unknown_err_bytes();
                proof {
                    assert((StepOut { srv: srv@, conn: conn@, out: out@, close: false })
                        =~~= target);
                }
                (out, false)
            }
        },
        _ => {
            let out = unknown_err_bytes();
            proof {
                assert((StepOut { srv: srv@, conn: conn@, out: out@, close: false })
                    =~~= target);
            }
            (out, false)
        },
    }
}

/// Split a command frame into its lowercased name and its arguments.
#[verifier::loop_isolation(false)]
pub fn get_command_and_arguments(f: &Frame) -> (r: Option<(Vec<u8>, Vec<Vec<u8>>)>)
    ensures
        match r {
            Some(parts) => {
                &&& f@ matches FrameSpec::Array(items)
                &&& f@->Array_0.len() >= 1
                &&& parts.0@ == lower(f@->Array_0[0])
                &&& parts.1.deep_view() == f@->Array_0.skip(1)
            },
            None => !(f@ matches FrameSpec::Array(items) && f@->Array_0.len() >= 1),
        },
{
    match f {
        Frame::Array(items) => {
            let ghost dv = items.deep_view();
            proof {
                assert(dv.len() == items@.len());
                assert(forall|j: int|
                    0 <= j < items@.len() ==> dv[j] == #[trigger] items@[j]@);
            }
            if items.len() == 0 {
                return None;
            }
            let name = to_lower(&items[0]);
            let mut args: Vec<Vec<u8>> = Vec::new();
            let mut i: usize = 1;
            while i < items.len()
                invariant
                    1 <= i <= items@.len(),
                    args.deep_view() =~= dv.subrange(1, i as int),
                decreases items@.len() - i,
            {
                let ghost pre = args.deep_view();
                args.push(vstd::slice::slice_to_vec(items[i].as_slice()));
                proof {
                    assert(args.deep_view() =~= pre.push(dv[i as int]));
                    assert(args.deep_view() =~= dv.subrange(1, i + 1));
                }
                i = i + 1;
            }
            proof {
                assert(args.deep_view() =~= dv.skip(1));
            }
            Some((name, args))
        },
        _ => None,
    }
}

} // verus!
