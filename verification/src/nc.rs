//! The arguments of the `nc` tool: `nc <host> <port>`.
use vstd::prelude::*;
use crate::error::Error;
use crate::text::{parse_unsigned, parse_unsigned_str};

verus! {

/// The port that the argument `port` names: its value as an unsigned
/// 16-bit number, `InvalidPort` when it is none, `PortZero` for 0.
pub open spec fn spec_port(port: Seq<char>) -> Result<u16, Error> {
    match parse_unsigned(port, 65535) {
        None => Err(Error::InvalidPort),
        Some(p) => if p == 0 {
            Err(Error::PortZero)
        } else {
            Ok(p as u16)
        },
    }
}

/// Reads the host and the port from the arguments (the program name, the
/// host and the port): `InvalidArguments` unless there are exactly three,
/// else the host and the port as `spec_port` reads it.
pub fn parse_args<'a>(args: &'a [&'a str]) -> (r: Result<(&'a str, u16), Error>)
    ensures
        args@.len() != 3 ==> r == Err::<(&'a str, u16), Error>(Error::InvalidArguments),
        args@.len() == 3 ==> match spec_port(args@[2]@) {
            Err(e) => r == Err::<(&'a str, u16), Error>(e),
            Ok(p) => r matches Ok((h, q)) && h@ == args@[1]@ && q == p,
        },
{
    if args.len() != 3 {
        return Err(Error::InvalidArguments);
    }
    let host = args[1];
    let port = match parse_unsigned_str(args[2], 65535) {
        Some(p) => p,
        None => {
            return Err(Error::InvalidPort);
        },
    };
    if port == 0 {
        return Err(Error::PortZero);
    }
    Ok((host, port as u16))
}

} // verus!
