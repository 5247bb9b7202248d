//! Command-line options of the engine.
use vstd::prelude::*;

use crate::text::{str_equal, views};

verus! {

/// The option that names the socket path.
pub open spec fn socket_flag() -> Seq<char> {
    seq!['-', '-', 's', 'o', 'c', 'k', 'e', 't']
}

/// The socket path chosen by `args` from position `i` on, with `current`
/// chosen before: each `--socket` followed by a value chooses that value and
/// consumes it; a final `--socket` without a value, and any other argument,
/// are ignored.
pub open spec fn socket_from(args: Seq<Seq<char>>, i: int, current: Option<Seq<char>>) -> Option<
    Seq<char>,
>
    decreases args.len() - i,
{
    if i < 0 || i >= args.len() {
        current
    } else if args[i] == socket_flag() {
        if i + 1 < args.len() {
            socket_from(args, i + 2, Some(args[i + 1]))
        } else {
            current
        }
    } else {
        socket_from(args, i + 1, current)
    }
}

/// The socket path that the arguments (without the program name) choose,
/// if they choose one.
pub fn socket_path_from_args(args: &Vec<String>) -> (r: Option<String>)
    ensures
        r is Some <==> socket_from(views(args@), 0, None) is Some,
        r matches Some(p) ==> socket_from(views(args@), 0, None) == Some(p@),
{
    let ghost a = views(args@);
    let mut path: Option<String> = None;
    let mut i: usize = 0;
    proof {
        reveal_strlit("--socket");
        assert("--socket"@ =~= socket_flag());
    }
    while i < args.len()
        invariant
            i <= args.len() + 1,
            a == views(args@),
            "--socket"@ == socket_flag(),
            socket_from(a, i as int, match path {
                Some(p) => Some(p@),
                None => None,
            }) == socket_from(a, 0, None),
        decreases args.len() + 1 - i,
    {
        if str_equal(args[i].as_str(), "--socket") {
            if i + 1 < args.len() {
                path = Some(args[i + 1].clone());
                i += 2;
            } else {
                i += 1;
            }
        } else {
            i += 1;
        }
    }
    path
}

} // verus!
