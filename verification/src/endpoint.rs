//! Where the sockets are: the path of the compositor's socket and the paths
//! the relay tries for its own.
//!
//! Paths are plain bytes here. Reading the environment, binding and
//! connecting are the caller's.

use vstd::prelude::*;
use crate::wire::extend_from;

verus! {

/// The byte that separates the parts of a path.
pub const SEPARATOR: u8 = 0x2f;

/// The highest attempt after which another socket name is tried.
pub const LAST_RETRY: u32 = 9;

/// Whether a path starts at the root.
pub open spec fn is_absolute(path: Seq<u8>) -> bool {
    path.len() > 0 && path[0] == SEPARATOR
}

/// The path `name` as seen from the directory `dir`.
///
/// An absolute name stands for itself. Another name follows the directory,
/// after a separator unless the directory is empty or ends in one.
pub open spec fn joined(dir: Seq<u8>, name: Seq<u8>) -> Seq<u8> {
    if is_absolute(name) {
        name
    } else if dir.len() > 0 && dir.last() != SEPARATOR {
        dir.push(SEPARATOR) + name
    } else {
        dir + name
    }
}

/// The decimal digits of `n`, as characters.
pub open spec fn decimal(n: nat) -> Seq<u8>
    decreases n,
{
    if n < 10 {
        seq![(48 + n) as u8]
    } else {
        decimal(n / 10).push((48 + n % 10) as u8)
    }
}

/// The start of the name of every socket the relay listens on.
pub open spec fn listen_prefix() -> Seq<u8> {
    seq![0x77u8, 0x6c, 0x74, 0x2d, 0x6d, 0x69, 0x74, 0x6d, 0x2d]
}

/// The name of the socket the relay listens on at its `attempt`-th try.
pub open spec fn listen_name(attempt: u32) -> Seq<u8> {
    listen_prefix() + decimal(attempt as nat)
}

/// The path `name` as seen from the directory `dir`.
pub fn join(dir: &[u8], name: &[u8]) -> (path: Vec<u8>)
    ensures
        path@ == joined(dir@, name@),
{
    let mut path: Vec<u8> = Vec::new();
    let absolute = name.len() > 0 && name[0] == SEPARATOR;
    if !absolute {
        extend_from(&mut path, dir);
        if dir.len() > 0 && dir[dir.len() - 1] != SEPARATOR {
            path.push(SEPARATOR);
        }
    }
    extend_from(&mut path, name);
    assert(path@ =~= joined(dir@, name@));
    path
}

/// The path of the compositor's socket.
///
/// `display` is the name the compositor announced: a path of its own when it
/// is absolute, else the name of a socket in `runtime_dir`. An empty name
/// gives the directory itself, which no socket can be connected at.
pub fn upstream_socket_path(runtime_dir: &[u8], display: &[u8]) -> (path: Vec<u8>)
    ensures
        path@ == joined(runtime_dir@, display@),
        is_absolute(display@) ==> path@ == display@,
{
    join(runtime_dir, display)
}

/// Appends the decimal digits of `n` to `out`.
fn push_decimal(out: &mut Vec<u8>, n: u32)
    ensures
        final(out)@ == old(out)@ + decimal(n as nat),
    decreases n,
{
    if n < 10 {
        out.push(48 + n as u8);
        assert(out@ =~= old(out)@ + decimal(n as nat));
    } else {
        push_decimal(out, n / 10);
        out.push(48 + (n % 10) as u8);
        assert(out@ =~= old(out)@ + decimal(n as nat));
    }
}

/// The path of the socket the relay listens on at its `attempt`-th try.
pub fn listen_socket_path(runtime_dir: &[u8], attempt: u32) -> (path: Vec<u8>)
    ensures
        path@ == joined(runtime_dir@, listen_name(attempt)),
{
    let mut name: Vec<u8> = Vec::new();
    name.push(0x77);
    name.push(0x6c);
    name.push(0x74);
    name.push(0x2d);
    name.push(0x6d);
    name.push(0x69);
    name.push(0x74);
    name.push(0x6d);
    name.push(0x2d);
    assert(name@ =~= listen_prefix());
    push_decimal(&mut name, attempt);
    join(runtime_dir, name.as_slice())
}

/// The attempt to make after `attempt` failed, or `None` when it is time to give up.
pub fn next_attempt(attempt: u32) -> (next: Option<u32>)
    ensures
        next == (if attempt > LAST_RETRY {
            None
        } else {
            Some((attempt + 1) as u32)
        }),
{
    if attempt > LAST_RETRY {
        None
    } else {
        Some(attempt + 1)
    }
}

} // verus!
