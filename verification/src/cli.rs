//! Startup configuration: the listen address, the optional master
//! address, and the role the instance plays.

use vstd::prelude::*;
use vstd::string::StringExecFns;

verus! {

/// The part an instance plays in a replication pair. Each variant keeps
/// the role's wire name, as reported by INFO.
#[derive(Clone, Debug)]
pub enum Role {
    Slave(String),
    Master(String),
}

/// Configuration drawn from the command line: `[--port <N>]
/// [--replicaof <host> <port>]`, with `127.0.0.1:6379` as the default
/// listen address.
#[derive(Debug)]
pub struct CLI {
    pub port: String,
    pub master_server: String,
    pub role: Role,
}

impl CLI {
    /// Build the configuration from the raw argument list. A port flag
    /// must be followed by its number, and a replica flag by the
    /// master's host and port.
    pub fn new(args: Vec<String>) -> (r: CLI)
        requires
            args@.len() >= 2 ==> args@.len() >= 3,
            args@.len() >= 4 ==> args@.len() >= 6,
        ensures
            args@.len() >= 2 ==> r.port@ == "127.0.0.1:"@ + args@[2]@,
            args@.len() < 2 ==> r.port@ == "127.0.0.1:"@ + "6379"@,
            r.role is Master <==> args@.len() < 4,
            args@.len() >= 4 ==> r.master_server@ == args@[4]@ + ":"@ + args@[5]@,
            args@.len() < 4 ==> r.master_server@ == Seq::<char>::empty(),
    {
        let mut port = String::from_str("127.0.0.1:");
        let mut master_server = String::new();
        if args.len() >= 2 {
            port.append(args[2].as_str());
        } else {
            port.append("6379");
        }
        let role: Role;
        if args.len() >= 4 {
            master_server.append(args[4].as_str());
            master_server.append(":");
            master_server.append(args[5].as_str());
            role = Role::Slave(String::from_str("slave"));
        } else {
            role = Role::Master(String::from_str("master"));
        }
        CLI { port, master_server, role }
    }
}

/// Everything after the first `:` in `host:port`, as bytes.
pub fn get_port_from_address(address: &Vec<u8>) -> (r: Option<Vec<u8>>)
    ensures
        match r {
            Some(p) => exists|i: int|
                0 <= i < address@.len() && address@[i] == 58 && (forall|j: int|
                    0 <= j < i ==> address@[j] != 58) && p@ == address@.skip(i + 1),
            None => forall|j: int| 0 <= j < address@.len() ==> address@[j] != 58,
        },
{
    let mut i: usize = 0;
    while i < address.len()
        invariant
            i <= address@.len(),
            forall|j: int| 0 <= j < i ==> address@[j] != 58,
        decreases address@.len() - i,
    {
        if address[i] == 58 {
            let p = vstd::slice::slice_to_vec(
                vstd::slice::slice_subrange(address.as_slice(), i + 1, address.len()),
            );
            proof {
                assert(p@ =~= address@.skip(i + 1));
            }
            return Some(p);
        }
        i = i + 1;
    }
    None
}

} // verus!
