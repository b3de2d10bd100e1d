//! Interpreter selection from a definition's directive line.
//!
//! The first line of a definition names the interpreter that runs its body.
//! One named family — `nu` — is dispatched through a distinct invocation
//! flow; every other directive is treated as a POSIX-compatible shell whose
//! executable name is the directive's remainder after stripping the `#!`
//! prefix and surrounding whitespace, verbatim.  An empty remainder is a
//! fatal invalid-interpreter error.

use crate::parse::{copy_range, trim, trim_bounds};
use vstd::prelude::*;

verus! {

/// Which invocation flow a definition's build runs through.
pub enum Interpreter {
    /// The named family with its own invocation flow.
    Named,
    /// A POSIX-compatible shell; the payload is the executable name.
    Posix(Vec<u8>),
}

/// A directive that names no interpreter.
#[derive(PartialEq, Eq, Structural, Clone, Copy, Debug)]
pub enum InterpreterError {
    /// The first line does not start with `#!`, or nothing but blanks
    /// follows it.
    InvalidDirective,
}

/// The bytes `nu`: the executable name of the named family.
pub open spec fn named_family() -> Seq<u8> {
    seq![110u8, 117u8]
}

/// The bytes `/nu`, for a directive that names the family by full path.
pub open spec fn named_family_slash() -> Seq<u8> {
    seq![47u8, 110u8, 117u8]
}

/// A valid directive: it starts with `#!` and something other than blanks
/// follows.
pub open spec fn bang_ok(bang: Seq<u8>) -> bool {
    bang.len() >= 2 && bang[0] == 35 && bang[1] == 33 && trim(bang.skip(2)).len() > 0
}

/// The executable a valid directive names: the remainder after `#!`,
/// trimmed of blanks.
pub open spec fn bang_exe(bang: Seq<u8>) -> Seq<u8> {
    trim(bang.skip(2))
}

/// Whether an executable name picks the named family: `nu` itself, or any
/// path ending in `/nu`.
pub open spec fn is_named_family(exe: Seq<u8>) -> bool {
    exe == named_family() || (exe.len() >= 3 && exe.skip(exe.len() - 3) == named_family_slash())
}

/// Selects the invocation flow for a directive line.  Fails exactly on a
/// line that does not start with `#!` or whose remainder is blank; the
/// named family gets its own flow, and anything else carries the trimmed
/// remainder verbatim as the executable name.
#[verifier::loop_isolation(false)]
pub fn select_interpreter(bang: &[u8]) -> (r: Result<Interpreter, InterpreterError>)
    ensures
        r is Ok <==> bang_ok(bang@),
        r matches Ok(i) ==> match i {
            Interpreter::Named => is_named_family(bang_exe(bang@)),
            Interpreter::Posix(exe) => !is_named_family(bang_exe(bang@)) && exe@ == bang_exe(
                bang@,
            ),
        },
        r matches Err(e) ==> e == InterpreterError::InvalidDirective,
{
    if bang.len() < 2 || bang[0] != 35 || bang[1] != 33 {
        return Err(InterpreterError::InvalidDirective);
    }
    let rest: Vec<u8> = copy_range(bang, 2, bang.len());
    proof {
        assert(rest@ =~= bang@.skip(2));
    }
    let (lo, hi) = trim_bounds(rest.as_slice());
    if hi == lo {
        proof {
            assert(trim(bang@.skip(2)).len() == 0);
        }
        return Err(InterpreterError::InvalidDirective);
    }
    let exe: Vec<u8> = copy_range(rest.as_slice(), lo, hi);
    proof {
        assert(exe@ =~= trim(bang@.skip(2)));
    }
    let n: usize = exe.len();
    let named: bool = if n == 2 {
        exe[0] == 110 && exe[1] == 117
    } else if n >= 3 {
        exe[n - 3] == 47 && exe[n - 2] == 110 && exe[n - 1] == 117
    } else {
        false
    };
    proof {
        if n == 2 {
            if exe@[0] == 110 && exe@[1] == 117 {
                assert(exe@ =~= named_family());
            } else {
                assert(exe@ != named_family());
                assert(!is_named_family(exe@));
            }
        } else if n >= 3 {
            if exe@[n - 3] == 47 && exe@[n - 2] == 110 && exe@[n - 1] == 117 {
                assert(exe@.skip(n - 3) =~= named_family_slash());
            } else {
                assert(exe@ != named_family());
                if exe@.skip(n - 3) == named_family_slash() {
                    assert(exe@[n - 3] == exe@.skip(n - 3)[0]);
                    assert(exe@[n - 2] == exe@.skip(n - 3)[1]);
                    assert(exe@[n - 1] == exe@.skip(n - 3)[2]);
                }
                assert(!is_named_family(exe@));
            }
        } else {
            assert(exe@ != named_family());
            assert(!is_named_family(exe@));
        }
    }
    if named {
        Ok(Interpreter::Named)
    } else {
        Ok(Interpreter::Posix(exe))
    }
}

} // verus!
