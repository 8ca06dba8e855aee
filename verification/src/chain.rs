use vstd::prelude::*;

use crate::parser::lemma_parse_ok_nonempty;
use crate::parser::pairs_view;
use crate::parser::parse;
use crate::parser::parse_spec;
use crate::parser::ParseError;

verus! {

/// The self-contained backends a chain may start with.
#[derive(Clone, Copy, Debug, PartialEq, Eq, Structural)]
pub enum StandaloneKind {
    Local,
    Https,
    Http,
}

/// The stream-backed backends a later hop may name.
#[derive(Clone, Copy, Debug, PartialEq, Eq, Structural)]
pub enum IoBackedKind {
    LibArchive,
}

/// The chain resolver's structured errors: the failing hop and its protocol
/// name are kept, never collapsed into a generic failure.
#[derive(Clone, Debug, PartialEq, Eq)]
pub enum MetaError {
    /// The meta-path itself is malformed.
    Grammar(ParseError),
    /// The named hop's protocol is not a registered backend of the required
    /// construction kind: self-contained at the first hop, stream-backed at
    /// every later one.
    UnrecognizedProtocol { hop: usize, name: Vec<u8> },
}

/// The protocol name of the local-disk backend, `local`.
pub open spec fn name_local() -> Seq<u8> {
    seq![108u8, 111u8, 99u8, 97u8, 108u8]
}

/// The protocol name of the TLS remote backend, `https`.
pub open spec fn name_https() -> Seq<u8> {
    seq![104u8, 116u8, 116u8, 112u8, 115u8]
}

/// The protocol name of the plain remote backend, `http`.
pub open spec fn name_http() -> Seq<u8> {
    seq![104u8, 116u8, 116u8, 112u8]
}

/// The protocol name of the archive backend, `libarchive`.
pub open spec fn name_libarchive() -> Seq<u8> {
    seq![108u8, 105u8, 98u8, 97u8, 114u8, 99u8, 104u8, 105u8, 118u8, 101u8]
}

/// Which self-contained backend a protocol name denotes.
pub open spec fn standalone_of(name: Seq<u8>) -> Option<StandaloneKind> {
    if name == name_local() {
        Some(StandaloneKind::Local)
    } else if name == name_https() {
        Some(StandaloneKind::Https)
    } else if name == name_http() {
        Some(StandaloneKind::Http)
    } else {
        None
    }
}

/// Which stream-backed backend a protocol name denotes.
pub open spec fn io_backed_of(name: Seq<u8>) -> Option<IoBackedKind> {
    if name == name_libarchive() {
        Some(IoBackedKind::LibArchive)
    } else {
        None
    }
}

/// Byte-string equality.
fn bytes_eq(a: &[u8], b: &[u8]) -> (r: bool)
    ensures
        r == (a@ == b@),
{
    if a.len() != b.len() {
        proof {
            if a@ == b@ {
                assert(a@.len() == b@.len());
            }
        }
        return false;
    }
    let mut i: usize = 0;
    while i < a.len()
        invariant
            i <= a@.len(),
            a@.len() == b@.len(),
            forall|j: int| 0 <= j < i ==> a@[j] == b@[j],
        decreases a@.len() - i,
    {
        if a[i] != b[i] {
            return false;
        }
        i = i + 1;
    }
    proof {
        assert(a@ =~= b@);
    }
    true
}

fn local_bytes() -> (v: Vec<u8>)
    ensures
        v@ == name_local(),
{
    let mut v: Vec<u8> = Vec::new();
    v.push(108);
    v.push(111);
    v.push(99);
    v.push(97);
    v.push(108);
    proof {
        assert(v@ =~= name_local());
    }
    v
}

fn https_bytes() -> (v: Vec<u8>)
    ensures
        v@ == name_https(),
{
    let mut v: Vec<u8> = Vec::new();
    v.push(104);
    v.push(116);
    v.push(116);
    v.push(112);
    v.push(115);
    proof {
        assert(v@ =~= name_https());
    }
    v
}

fn http_bytes() -> (v: Vec<u8>)
    ensures
        v@ == name_http(),
{
    let mut v: Vec<u8> = Vec::new();
    v.push(104);
    v.push(116);
    v.push(116);
    v.push(112);
    proof {
        assert(v@ =~= name_http());
    }
    v
}

fn libarchive_bytes() -> (v: Vec<u8>)
    ensures
        v@ == name_libarchive(),
{
    let mut v: Vec<u8> = Vec::new();
    v.push(108);
    v.push(105);
    v.push(98);
    v.push(97);
    v.push(114);
    v.push(99);
    v.push(104);
    v.push(105);
    v.push(118);
    v.push(101);
    proof {
        assert(v@ =~= name_libarchive());
    }
    v
}

impl StandaloneKind {
    /// Look the protocol name up among the registered self-contained
    /// backends.
    pub fn from_name(name: &[u8]) -> (r: Option<StandaloneKind>)
        ensures
            r == standalone_of(name@),
    {
        if bytes_eq(name, local_bytes().as_slice()) {
            Some(StandaloneKind::Local)
        } else if bytes_eq(name, https_bytes().as_slice()) {
            Some(StandaloneKind::Https)
        } else if bytes_eq(name, http_bytes().as_slice()) {
            Some(StandaloneKind::Http)
        } else {
            None
        }
    }
}

impl IoBackedKind {
    /// Look the protocol name up among the registered stream-backed backends.
    pub fn from_name(name: &[u8]) -> (r: Option<IoBackedKind>)
        ensures
            r == io_backed_of(name@),
    {
        if bytes_eq(name, libarchive_bytes().as_slice()) {
            Some(IoBackedKind::LibArchive)
        } else {
            None
        }
    }
}

/// The resolved execution plan of a meta-path: the self-contained backend
/// answering the first hop, the stream-backed backend of each later hop, and
/// every hop's path with its escapes resolved. An executor opens `paths[i]`
/// on backend `i` to obtain the stream backend `i + 1` is built from, and
/// answers the caller's request by the last backend on the last path.
#[derive(Debug)]
pub struct ChainPlan {
    pub first: StandaloneKind,
    pub rest: Vec<IoBackedKind>,
    pub paths: Vec<Vec<u8>>,
}

/// The plan renders exactly the parsed (protocol, path) pairs.
pub open spec fn plan_matches(plan: ChainPlan, pairs: Seq<(Seq<u8>, Seq<u8>)>) -> bool {
    &&& plan.paths@.len() == pairs.len()
    &&& plan.rest@.len() + 1 == pairs.len()
    &&& standalone_of(pairs[0].0) == Some(plan.first)
    &&& forall|i: int|
        0 <= i < plan.rest@.len() ==> io_backed_of(pairs[i + 1].0) == Some(#[trigger] plan.rest@[i])
    &&& forall|i: int| 0 <= i < pairs.len() ==> (#[trigger] plan.paths@[i])@ == pairs[i].1
}

/// The chain resolver: it owns no state, parses a meta-path and decides which
/// backend answers each hop; executing the plan (the backends' own transport
/// and engine work) happens outside the library.
pub struct MetaFs;

impl MetaFs {
    /// Resolve a meta-path into its execution plan: a grammar failure or an
    /// unrecognized protocol aborts the whole chain before any backend work,
    /// naming the first hop at fault; otherwise the plan lists every hop.
    pub fn resolve(path: &[u8]) -> (r: Result<ChainPlan, MetaError>)
        ensures
            match parse_spec(path@) {
                Err(e) => r == Err::<ChainPlan, MetaError>(MetaError::Grammar(e)),
                Ok(pairs) => match r {
                    Ok(plan) => plan_matches(plan, pairs),
                    Err(e) => match e {
                        MetaError::UnrecognizedProtocol { hop, name } => {
                            &&& (hop as int) < pairs.len()
                            &&& name@ == pairs[hop as int].0
                            &&& (hop == 0 ==> standalone_of(pairs[0].0) is None)
                            &&& (hop >= 1 ==> io_backed_of(pairs[hop as int].0) is None)
                            &&& (hop >= 1 ==> standalone_of(pairs[0].0) is Some)
                            &&& forall|j: int|
                                1 <= j < hop as int ==> io_backed_of(#[trigger] pairs[j].0) is Some
                        },
                        _ => false,
                    },
                },
            },
    {
        let pairs = match parse(path) {
            Ok(v) => v,
            Err(e) => {
                return Err(MetaError::Grammar(e));
            },
        };
        proof {
            lemma_parse_ok_nonempty(path@);
        }
        let ghost gp = pairs_view(pairs@);
        proof {
            assert forall|i: int|
                0 <= i < pairs@.len() implies #[trigger] gp[i] == (pairs@[i].0@, pairs@[i].1@) by {}
        }
        let first = match StandaloneKind::from_name(pairs[0].0.as_slice()) {
            Some(k) => k,
            None => {
                return Err(
                    MetaError::UnrecognizedProtocol {
                        hop: 0,
                        name: vstd::slice::slice_to_vec(pairs[0].0.as_slice()),
                    },
                );
            },
        };
        let mut rest: Vec<IoBackedKind> = Vec::new();
        let mut paths: Vec<Vec<u8>> = Vec::new();
        paths.push(vstd::slice::slice_to_vec(pairs[0].1.as_slice()));
        let mut h: usize = 1;
        while h < pairs.len()
            invariant
                1 <= h <= pairs@.len(),
                parse_spec(path@) == Ok::<Seq<(Seq<u8>, Seq<u8>)>, ParseError>(gp),
                gp == pairs_view(pairs@),
                gp.len() == pairs@.len(),
                standalone_of(gp[0].0) == Some(first),
                rest@.len() == h - 1,
                paths@.len() == h,
                forall|i: int|
                    0 <= i < h - 1 ==> io_backed_of(gp[i + 1].0) == Some(#[trigger] rest@[i]),
                forall|i: int| 0 <= i < h ==> (#[trigger] paths@[i])@ == gp[i].1,
            decreases pairs@.len() - h,
        {
            match IoBackedKind::from_name(pairs[h].0.as_slice()) {
                Some(k) => {
                    rest.push(k);
                    paths.push(vstd::slice::slice_to_vec(pairs[h].1.as_slice()));
                    h = h + 1;
                },
                None => {
                    proof {
                        assert forall|j: int| 1 <= j < h as int implies io_backed_of(
                            #[trigger] gp[j].0,
                        ) is Some by {
                            assert(io_backed_of(gp[(j - 1) + 1].0) == Some(rest@[j - 1]));
                        }
                    }
                    return Err(
                        MetaError::UnrecognizedProtocol {
                            hop: h,
                            name: vstd::slice::slice_to_vec(pairs[h].0.as_slice()),
                        },
                    );
                },
            }
        }
        Ok(ChainPlan { first, rest, paths })
    }
}

} // verus!
