//! Resolution of the definition directory from environment values.
//!
//! The directory is picked once per invocation, in a fixed priority order:
//! an explicit override, then an XDG-style path under the configuration
//! home, then a home-relative fallback.  The caller reads the environment
//! and passes what it found; finding none of the three is a fatal
//! configuration error.

use vstd::prelude::*;

verus! {

/// No directory could be resolved.
#[derive(PartialEq, Eq, Structural, Clone, Copy, Debug)]
pub enum ConfigError {
    /// Neither the override nor a configuration or home directory is set.
    NoDirectory,
}

/// The path suffix appended under the XDG configuration home: `/defbuild`.
pub open spec fn xdg_suffix() -> Seq<u8> {
    seq![47u8, 100u8, 101u8, 102u8, 98u8, 117u8, 105u8, 108u8, 100u8]
}

/// The path suffix appended under the home directory: `/.config/defbuild`.
pub open spec fn home_suffix() -> Seq<u8> {
    seq![47u8, 46u8, 99u8, 111u8, 110u8, 102u8, 105u8, 103u8] + xdg_suffix()
}

/// Appends fixed suffix bytes to an owned path.
fn push_all(path: &mut Vec<u8>, suffix: &[u8])
    ensures
        final(path)@ == old(path)@ + suffix@,
{
    let mut k: usize = 0;
    proof {
        assert(path@ =~= old(path)@ + suffix@.take(0));
    }

    while k < suffix.len()
        invariant
            k <= suffix@.len(),
            path@ == old(path)@ + suffix@.take(k as int),
        decreases suffix@.len() - k,
    {
        proof {
            assert(suffix@.take(k + 1) =~= suffix@.take(k as int).push(suffix@[k as int]));
            assert(old(path)@ + suffix@.take(k + 1) =~= (old(path)@ + suffix@.take(
                k as int,
            )).push(suffix@[k as int]));
        }
        path.push(suffix[k]);
        k = k + 1;
    }
    proof {
        assert(suffix@.take(suffix@.len() as int) =~= suffix@);
    }
}

/// Resolves the definition directory from the three environment values, in
/// priority order: the explicit override verbatim; else the XDG
/// configuration home with `/defbuild` appended; else the home directory
/// with `/.config/defbuild` appended; else a fatal configuration error.
pub fn resolve_directory(
    override_dir: Option<Vec<u8>>,
    xdg_config_home: Option<Vec<u8>>,
    home: Option<Vec<u8>>,
) -> (r: Result<Vec<u8>, ConfigError>)
    ensures
        r is Ok <==> (override_dir is Some || xdg_config_home is Some || home is Some),
        override_dir is Some ==> r is Ok && r.unwrap()@ == override_dir.unwrap()@,
        (override_dir is None && xdg_config_home is Some) ==> r is Ok && r.unwrap()@
            == xdg_config_home.unwrap()@ + xdg_suffix(),
        (override_dir is None && xdg_config_home is None && home is Some) ==> r is Ok
            && r.unwrap()@ == home.unwrap()@ + home_suffix(),
        r matches Err(e) ==> e == ConfigError::NoDirectory,
{
    match override_dir {
        Some(d) => Ok(d),
        None => match xdg_config_home {
            Some(x) => {
                let mut p = x;
                let suffix: Vec<u8> = xdg_suffix_vec();
                push_all(&mut p, suffix.as_slice());
                Ok(p)
            },
            None => match home {
                Some(h) => {
                    let mut p = h;
                    let suffix: Vec<u8> = home_suffix_vec();
                    push_all(&mut p, suffix.as_slice());
                    Ok(p)
                },
                None => Err(ConfigError::NoDirectory),
            },
        },
    }
}

/// The XDG suffix as owned bytes.
fn xdg_suffix_vec() -> (r: Vec<u8>)
    ensures
        r@ =~= xdg_suffix(),
{
    let mut r: Vec<u8> = Vec::new();
    r.push(47);
    r.push(100);
    r.push(101);
    r.push(102);
    r.push(98);
    r.push(117);
    r.push(105);
    r.push(108);
    r.push(100);
    r
}

/// The home-relative suffix as owned bytes.
fn home_suffix_vec() -> (r: Vec<u8>)
    ensures
        r@ =~= home_suffix(),
{
    let mut r: Vec<u8> = Vec::new();
    r.push(47);
    r.push(46);
    r.push(99);
    r.push(111);
    r.push(110);
    r.push(102);
    r.push(105);
    r.push(103);
    r.push(47);
    r.push(100);
    r.push(101);
    r.push(102);
    r.push(98);
    r.push(117);
    r.push(105);
    r.push(108);
    r.push(100);
    r
}

} // verus!
