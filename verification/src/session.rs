//! Per-connection read loop: buffer the bytes a socket delivered,
//! decode whole frames, dispatch each, and say when to close.

use vstd::prelude::*;

use crate::codec::{lemma_parse_sound, parse, FrameSpec, ParseOut};
use crate::decoder::{decode_frame, DecodeOutcome};
use crate::server::{push_to_followers, spec_handle, ConnModel, ConnState, ServerModel, ServerState};

verus! {

/// What one delivery of bytes does: the state after, the reply bytes,
/// the undecoded rest (kept in the connection), and whether to close.
#[verifier::ext_equal]
pub ghost struct DriveOut {
    pub srv: ServerModel,
    pub conn: ConnModel,
    pub out: Seq<u8>,
    pub close: bool,
}

/// Decode and dispatch frames from the connection's buffer until the
/// bytes run out (keep the partial frame), a handler closes, or the
/// bytes go bad (protocol error: close).
pub open spec fn spec_drive(m: ServerModel, c: ConnModel, now: u64) -> DriveOut
    decreases c.buf.len(),
    via spec_drive_dec
{
    match parse(c.buf) {
        ParseOut::Done(f, n) => {
            let st = spec_handle(m, c, f, now);
            let c2 = ConnModel { buf: c.buf.skip(n), ..st.conn };
            if st.close {
                DriveOut { srv: st.srv, conn: c2, out: st.out, close: true }
            } else {
                let d = spec_drive(st.srv, c2, now);
                DriveOut { srv: d.srv, conn: d.conn, out: st.out + d.out, close: d.close }
            }
        },
        ParseOut::More => DriveOut { srv: m, conn: c, out: Seq::empty(), close: false },
        ParseOut::Bad => DriveOut { srv: m, conn: c, out: Seq::empty(), close: true },
    }
}

#[via_fn]
proof fn spec_drive_dec(m: ServerModel, c: ConnModel, now: u64) {
    if let ParseOut::Done(f, n) = parse(c.buf) {
        lemma_parse_sound(c.buf, f, n);
    }
}

/// Feed bytes read from the socket to the connection: buffer them,
/// decode and dispatch every whole frame, and return the reply bytes
/// together with the close decision.
#[verifier::loop_isolation(false)]
#[verifier::rlimit(50)]
pub fn on_input(srv: &mut ServerState, conn: &mut ConnState, input: &[u8], now: u64) -> (r: (
    Vec<u8>,
    bool,
))
    requires
        old(srv).wf(),
    ensures
        final(srv).wf(),
        ({
            let d = spec_drive(
                old(srv)@,
                ConnModel { buf: old(conn)@.buf + input@, ..old(conn)@ },
                now,
            );
            final(srv)@ == d.srv && final(conn)@ == d.conn && r.0@ == d.out && r.1 == d.close
        }),
{
    crate::codec::push_bytes(&mut conn.buf, input);
    let ghost m0 = srv@;
    let ghost cstart = conn@;
    let ghost total = spec_drive(m0, cstart, now);
    let mut out: Vec<u8> = Vec::new();
    proof {
        assert(cstart == (ConnModel { buf: old(conn)@.buf + input@, ..old(conn)@ }));
    }
    loop
        invariant
            srv.wf(),
            total == ({
                let d = spec_drive(srv@, conn@, now);
                DriveOut { srv: d.srv, conn: d.conn, out: out@ + d.out, close: d.close }
            }),
        decreases conn@.buf.len(),
    {
        proof {
            assert(conn@.buf.skip(0) =~= conn@.buf);
        }
        match decode_frame(&conn.buf, 0) {
            DecodeOutcome::Incomplete => {
                return (out, false);
            },
            DecodeOutcome::Malformed => {
                return (out, true);
            },
            DecodeOutcome::Complete(f, n) => {
                let ghost c_full = conn@;
                let ghost st = spec_handle(srv@, conn@, f@, now);
                let (reply, close) = crate::server::handle_frame(srv, conn, &f, now);
                crate::codec::push_bytes(&mut out, reply.as_slice());
                let rest = vstd::slice::slice_to_vec(
                    vstd::slice::slice_subrange(conn.buf.as_slice(), n, conn.buf.len()),
                );
                conn.buf = rest;
                proof {
                    assert(conn@.buf =~= c_full.buf.skip(n as int));
                    assert(conn@ == (ConnModel { buf: c_full.buf.skip(n as int), ..st.conn }));
                }
                if close {
                    return (out, true);
                }
            },
        }
    }
}

/// A SET frame a master would apply and forward.
pub open spec fn is_set_cmd(f: FrameSpec) -> bool {
    &&& f matches FrameSpec::Array(items)
    &&& f->Array_0.len() >= 1
    &&& crate::server::lower(f->Array_0[0]) == crate::server::ascii_bytes("set"@)
    &&& crate::server::set_args_ok(f->Array_0)
}

/// The bytes a master forwards for a run of SET commands, in order.
pub open spec fn props_of(fs: Seq<FrameSpec>) -> Seq<u8>
    decreases fs.len(),
{
    if fs.len() == 0 {
        Seq::empty()
    } else {
        crate::codec::enc(fs[0]) + props_of(fs.skip(1))
    }
}

/// The server state after a run of frames arrives on one connection.
pub open spec fn apply_cmds(m: ServerModel, c: ConnModel, fs: Seq<FrameSpec>, now: u64)
    -> ServerModel
    decreases fs.len(),
{
    if fs.len() == 0 {
        m
    } else {
        apply_cmds(
            spec_handle(m, c, fs[0], now).srv,
            spec_handle(m, c, fs[0], now).conn,
            fs.skip(1),
            now,
        )
    }
}

/// Propagation order: applying a run of SET commands to a master appends
/// to each registered follower's stream exactly those commands' canonical
/// encodings, in apply order; no follower joins or leaves.
pub proof fn lemma_propagation_order(
    m: ServerModel,
    c: ConnModel,
    fs: Seq<FrameSpec>,
    now: u64,
)
    requires
        m.master,
        forall|k: int| 0 <= k < fs.len() ==> is_set_cmd(#[trigger] fs[k]),
    ensures
        apply_cmds(m, c, fs, now).followers.len() == m.followers.len(),
        forall|i: int|
            0 <= i < m.followers.len() && m.followers[i].live ==> #[trigger] apply_cmds(
                m,
                c,
                fs,
                now,
            ).followers[i].stream == m.followers[i].stream + props_of(fs),
        forall|i: int|
            0 <= i < m.followers.len() && !m.followers[i].live ==> #[trigger] apply_cmds(
                m,
                c,
                fs,
                now,
            ).followers[i] == m.followers[i],
    decreases fs.len(),
{
    reveal_strlit("set");
    reveal_strlit("ping");
    reveal_strlit("echo");
    reveal_strlit("get");
    if fs.len() == 0 {
        assert forall|i: int|
            0 <= i < m.followers.len() && m.followers[i].live implies #[trigger] apply_cmds(
            m,
            c,
            fs,
            now,
        ).followers[i].stream == m.followers[i].stream + props_of(fs) by {
            assert(m.followers[i].stream + Seq::<u8>::empty() =~= m.followers[i].stream);
        }
    } else {
        let f0 = fs[0];
        assert(is_set_cmd(fs[0]));
        let items = f0->Array_0;
        let st = spec_handle(m, c, f0, now);
        let bytes = crate::server::set_propagation(items);
        assert(crate::server::ascii_bytes("set"@).len() == 3);
        assert(crate::server::ascii_bytes("ping"@).len() == 4);
        assert(crate::server::ascii_bytes("echo"@).len() == 4);
        assert(crate::server::ascii_bytes("get"@)[0] == 103);
        assert(crate::server::ascii_bytes("set"@)[0] == 115);
        assert(st.srv.followers == push_to_followers(m.followers, bytes));
        assert(st.srv.master);
        assert(st.conn == c);
        lemma_propagation_order(st.srv, c, fs.skip(1), now);
        assert forall|i: int|
            0 <= i < m.followers.len() && m.followers[i].live implies #[trigger] apply_cmds(
            m,
            c,
            fs,
            now,
        ).followers[i].stream == m.followers[i].stream + props_of(fs) by {
            assert(st.srv.followers[i].stream == m.followers[i].stream + bytes);
            assert(st.srv.followers[i].live);
            assert(apply_cmds(st.srv, c, fs.skip(1), now).followers[i].stream
                == st.srv.followers[i].stream + props_of(fs.skip(1)));
            assert(m.followers[i].stream + bytes + props_of(fs.skip(1))
                =~= m.followers[i].stream + (bytes + props_of(fs.skip(1))));
            assert(props_of(fs) == bytes + props_of(fs.skip(1)));
        }
        assert forall|i: int|
            0 <= i < m.followers.len() && !m.followers[i].live implies #[trigger] apply_cmds(
            m,
            c,
            fs,
            now,
        ).followers[i] == m.followers[i] by {
            assert(st.srv.followers[i] == m.followers[i]);
        }
    }
}

/// Follower isolation: a command executed directly against a follower
/// never touches its follower registry or its replication offset, so
/// nothing is forwarded anywhere.
pub proof fn lemma_follower_isolation(m: ServerModel, c: ConnModel, f: FrameSpec, now: u64)
    requires
        !m.master,
    ensures
        spec_handle(m, c, f, now).srv.followers == m.followers,
        spec_handle(m, c, f, now).srv.offset == m.offset,
        spec_handle(m, c, f, now).srv.master == m.master,
        spec_handle(m, c, f, now).srv.replid == m.replid,
{
}

} // verus!
