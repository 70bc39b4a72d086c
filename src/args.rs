//! The command line, as plain values, and which operation it asks for.
use vstd::prelude::*;

use vstd::utf8::encode_utf8;

verus! {

/// The arguments of the command line (paths as raw bytes).
#[derive(Clone, Debug)]
pub struct ProgramArgs {
    /// Write a manifest into this directory.
    pub track: Option<Vec<u8>>,
    /// Compare a master directory with a slave directory.
    pub diff: Option<Vec<Vec<u8>>>,
    /// Make a slave directory match a master directory.
    pub sync: Option<Vec<Vec<u8>>>,
    /// Only include paths within these prefixes.
    pub prefix: Option<Vec<String>>,
    /// Print actions only (with `sync`).
    pub dry_run: bool,
}

/// The operation that a command line asks for.
#[derive(Clone, Debug)]
pub enum Command {
    Track(Vec<u8>),
    Diff(Vec<u8>, Vec<u8>),
    Sync(Vec<u8>, Vec<u8>),
}

pub open spec fn pair_ok(v: Option<Vec<Vec<u8>>>) -> bool {
    match v {
        Some(p) => p@.len() == 2,
        None => true,
    }
}

/// The command line is well-formed: exactly one operation, `diff` and
/// `sync` with two directories each, `dry_run` only with `sync`.
pub open spec fn args_valid(a: ProgramArgs) -> bool {
    let n = (if a.track is Some { 1int } else { 0 }) + (if a.diff is Some { 1int } else { 0 }) + (
    if a.sync is Some {
        1int
    } else {
        0
    });
    &&& n == 1
    &&& pair_ok(a.diff)
    &&& pair_ok(a.sync)
    &&& (a.dry_run ==> a.sync is Some)
}

impl ProgramArgs {
    /// The operation asked for; `None` where the command line is not
    /// well-formed.
    pub fn command(&self) -> (r: Option<Command>)
        ensures
            r is Some <==> args_valid(*self),
            r matches Some(Command::Track(d)) ==> self.track matches Some(t) && d@ == t@,
            r matches Some(Command::Diff(m, s)) ==> self.diff matches Some(p) && m@ == p@[0]@
                && s@ == p@[1]@,
            r matches Some(Command::Sync(m, s)) ==> self.sync matches Some(p) && m@ == p@[0]@
                && s@ == p@[1]@,
    {
        let n: u8 = (if self.track.is_some() { 1 } else { 0 }) + (if self.diff.is_some() {
            1
        } else {
            0
        }) + (if self.sync.is_some() {
            1
        } else {
            0
        });
        if n != 1 || (self.dry_run && self.sync.is_none()) {
            return None;
        }
        match (&self.track, &self.diff, &self.sync) {
            (Some(t), _, _) => Some(Command::Track(copy_bytes(t))),
            (_, Some(p), _) => {
                if p.len() != 2 {
                    return None;
                }
                Some(Command::Diff(copy_bytes(&p[0]), copy_bytes(&p[1])))
            },
            (_, _, Some(p)) => {
                if p.len() != 2 {
                    return None;
                }
                Some(Command::Sync(copy_bytes(&p[0]), copy_bytes(&p[1])))
            },
            _ => None,
        }
    }

    /// The allowed prefixes as raw bytes.
    pub fn prefix_bytes(&self) -> (r: Option<Vec<Vec<u8>>>)
        ensures
            r is Some <==> self.prefix is Some,
            r matches Some(v) ==> v@.len() == self.prefix->Some_0@.len() && forall|i: int|
                0 <= i < v@.len() ==> (#[trigger] v@[i])@ == encode_utf8(self.prefix->Some_0@[i]@),
    {
        match &self.prefix {
            None => None,
            Some(ps) => {
                let mut out: Vec<Vec<u8>> = Vec::new();
                let mut i: usize = 0;
                while i < ps.len()
                    invariant
                        i <= ps@.len(),
                        out@.len() == i,
                        forall|j: int| 0 <= j < i ==> (#[trigger] out@[j])@ == encode_utf8(ps@[j]@),
                    decreases ps@.len() - i,
                {
                    out.push(copy_bytes_of(ps[i].as_str().as_bytes()));
                    i = i + 1;
                }
                Some(out)
            },
        }
    }
}

fn copy_bytes(v: &Vec<u8>) -> (r: Vec<u8>)
    ensures
        r@ == v@,
{
    copy_bytes_of(v.as_slice())
}

fn copy_bytes_of(v: &[u8]) -> (r: Vec<u8>)
    ensures
        r@ == v@,
{
    let mut out: Vec<u8> = Vec::new();
    let mut j: usize = 0;
    while j < v.len()
        invariant
            j <= v@.len(),
            out@ == v@.take(j as int),
        decreases v@.len() - j,
    {
        out.push(v[j]);
        assert(v@.take(j + 1) =~= v@.take(j as int).push(v@[j as int]));
        j = j + 1;
    }
    assert(v@.take(j as int) =~= v@);
    out
}

} // verus!
