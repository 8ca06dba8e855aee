use vstd::prelude::*;

verus! {

/// The byte that separates two components of a meta-path.
pub const PIPE: u8 = 124;

/// The byte that separates a protocol name from its path.
pub const COLON: u8 = 58;

/// The escape byte; inside a path it makes the following separator or escape
/// byte literal.
pub const ESCAPE: u8 = 92;

/// Grammar failures of the meta-path.
#[derive(Clone, Copy, Debug, PartialEq, Eq, Structural)]
pub enum ParseError {
    /// The whole input is empty.
    Empty,
    /// A component has no protocol separator.
    MissingColon,
    /// An escape begins at the very end of the input.
    UnterminatedEscape,
    /// An escape names a byte that escaping does not apply to.
    InvalidEscape,
}

/// The meta-path grammar from byte `i` on, with the component parsed so far:
/// `proto` and `path` accumulate the current component's protocol and
/// resolved path, and `in_path` tells whether the protocol separator has been
/// passed. A protocol is anything up to the first separator byte; a path runs
/// to the next unescaped component separator, resolving `\|` and `\\`.
pub open spec fn parse_rest(
    s: Seq<u8>,
    i: int,
    proto: Seq<u8>,
    path: Seq<u8>,
    in_path: bool,
) -> Result<Seq<(Seq<u8>, Seq<u8>)>, ParseError>
    decreases s.len() - i,
{
    if i < 0 || i >= s.len() {
        if in_path {
            Ok(seq![(proto, path)])
        } else {
            Err(ParseError::MissingColon)
        }
    } else if !in_path {
        if s[i] == COLON {
            parse_rest(s, i + 1, proto, path, true)
        } else {
            parse_rest(s, i + 1, proto.push(s[i]), path, false)
        }
    } else if s[i] == PIPE {
        match parse_rest(s, i + 1, Seq::empty(), Seq::empty(), false) {
            Ok(rest) => Ok(seq![(proto, path)] + rest),
            Err(e) => Err(e),
        }
    } else if s[i] == ESCAPE {
        if i + 1 >= s.len() {
            Err(ParseError::UnterminatedEscape)
        } else if s[i + 1] == ESCAPE || s[i + 1] == PIPE {
            parse_rest(s, i + 2, proto, path.push(s[i + 1]), true)
        } else {
            Err(ParseError::InvalidEscape)
        }
    } else {
        parse_rest(s, i + 1, proto, path.push(s[i]), true)
    }
}

/// What parsing a whole meta-path yields: its ordered (protocol, path) pairs,
/// every escape resolved, or the first grammar failure. The empty input is
/// refused outright.
pub open spec fn parse_spec(s: Seq<u8>) -> Result<Seq<(Seq<u8>, Seq<u8>)>, ParseError> {
    if s.len() == 0 {
        Err(ParseError::Empty)
    } else {
        parse_rest(s, 0, Seq::empty(), Seq::empty(), false)
    }
}

/// The pairs a parsed component vector stands for.
pub open spec fn pairs_view(v: Seq<(Vec<u8>, Vec<u8>)>) -> Seq<(Seq<u8>, Seq<u8>)> {
    Seq::new(v.len(), |i: int| (v[i].0@, v[i].1@))
}

/// Prepend the components already parsed to what the grammar yields for the
/// rest of the input.
spec fn glue(
    done: Seq<(Seq<u8>, Seq<u8>)>,
    rest: Result<Seq<(Seq<u8>, Seq<u8>)>, ParseError>,
) -> Result<Seq<(Seq<u8>, Seq<u8>)>, ParseError> {
    match rest {
        Ok(r) => Ok(done + r),
        Err(e) => Err(e),
    }
}

/// Parse a meta-path into its ordered (protocol, path) pairs, resolving the
/// escapes in each path, exactly as the grammar says: the result is `Ok` on
/// precisely the well-formed inputs, and names the first failure otherwise.
pub fn parse(s: &[u8]) -> (r: Result<Vec<(Vec<u8>, Vec<u8>)>, ParseError>)
    ensures
        match r {
            Ok(v) => parse_spec(s@) == Ok::<Seq<(Seq<u8>, Seq<u8>)>, ParseError>(pairs_view(v@)),
            Err(e) => parse_spec(s@) == Err::<Seq<(Seq<u8>, Seq<u8>)>, ParseError>(e),
        },
{
    if s.len() == 0 {
        return Err(ParseError::Empty);
    }
    let mut out: Vec<(Vec<u8>, Vec<u8>)> = Vec::new();
    let mut proto: Vec<u8> = Vec::new();
    let mut path: Vec<u8> = Vec::new();
    let mut in_path = false;
    let mut i: usize = 0;
    proof {
        assert(pairs_view(out@) =~= Seq::<(Seq<u8>, Seq<u8>)>::empty());
        assert(glue(pairs_view(out@), parse_rest(s@, 0, proto@, path@, false)) == parse_rest(
            s@,
            0,
            Seq::<u8>::empty(),
            Seq::<u8>::empty(),
            false,
        )) by {
            match parse_rest(s@, 0, Seq::<u8>::empty(), Seq::<u8>::empty(), false) {
                Ok(r) => {
                    assert(pairs_view(out@) + r =~= r);
                },
                Err(_) => {},
            }
        }
    }
    while i < s.len()
        invariant
            i <= s@.len(),
            parse_spec(s@) == glue(
                pairs_view(out@),
                parse_rest(s@, i as int, proto@, path@, in_path),
            ),
        decreases s@.len() - i,
    {
        let c = s[i];
        if !in_path {
            if c == COLON {
                in_path = true;
            } else {
                proto.push(c);
            }
            i = i + 1;
        } else if c == PIPE {
            let ghost gdone = pairs_view(out@);
            let ghost gproto = proto@;
            let ghost gpath = path@;
            out.push((proto, path));
            proto = Vec::new();
            path = Vec::new();
            in_path = false;
            i = i + 1;
            proof {
                assert(pairs_view(out@) =~= gdone + seq![(gproto, gpath)]);
                match parse_rest(s@, i as int, Seq::<u8>::empty(), Seq::<u8>::empty(), false) {
                    Ok(rest) => {
                        assert(gdone + (seq![(gproto, gpath)] + rest) =~= (gdone + seq![
                            (gproto, gpath),
                        ]) + rest);
                    },
                    Err(_) => {},
                }
            }
        } else if c == ESCAPE {
            if i + 1 >= s.len() {
                return Err(ParseError::UnterminatedEscape);
            }
            let d = s[i + 1];
            if d == ESCAPE || d == PIPE {
                path.push(d);
                i = i + 2;
            } else {
                return Err(ParseError::InvalidEscape);
            }
        } else {
            path.push(c);
            i = i + 1;
        }
    }
    if !in_path {
        return Err(ParseError::MissingColon);
    }
    let ghost gdone = pairs_view(out@);
    let ghost gproto = proto@;
    let ghost gpath = path@;
    out.push((proto, path));
    proof {
        assert(pairs_view(out@) =~= gdone + seq![(gproto, gpath)]);
        assert(gdone + seq![(gproto, gpath)] =~= pairs_view(out@));
    }
    Ok(out)
}


/// The rendered form of a path: its separator and escape bytes escaped.
pub open spec fn escape_path(p: Seq<u8>) -> Seq<u8>
    decreases p.len(),
{
    if p.len() == 0 {
        Seq::empty()
    } else {
        let head: Seq<u8> = if p[0] == PIPE || p[0] == ESCAPE {
            seq![ESCAPE, p[0]]
        } else {
            seq![p[0]]
        };
        head + escape_path(p.skip(1))
    }
}

/// The rendered form of one component: its protocol, the separator, and its
/// escaped path.
pub open spec fn unparse_component(c: (Seq<u8>, Seq<u8>)) -> Seq<u8> {
    c.0 + seq![COLON] + escape_path(c.1)
}

/// The rendered form of a chain of components, pipe-separated.
pub open spec fn unparse(pairs: Seq<(Seq<u8>, Seq<u8>)>) -> Seq<u8>
    decreases pairs.len(),
{
    if pairs.len() == 0 {
        Seq::empty()
    } else if pairs.len() == 1 {
        unparse_component(pairs[0])
    } else {
        unparse_component(pairs[0]) + seq![PIPE] + unparse(pairs.skip(1))
    }
}

/// The grammar looks at nothing before the byte it stands on: parsing from
/// `i` equals parsing the suffix from `i - d`.
proof fn lemma_parse_rest_shift(
    s: Seq<u8>,
    d: int,
    i: int,
    proto: Seq<u8>,
    path: Seq<u8>,
    in_path: bool,
)
    requires
        0 <= d <= i,
        d <= s.len(),
    ensures
        parse_rest(s, i, proto, path, in_path) == parse_rest(s.skip(d), i - d, proto, path, in_path),
    decreases s.len() - i,
{
    let t = s.skip(d);
    assert(t.len() == s.len() - d);
    if 0 <= i && i < s.len() {
        assert(t[i - d] == s[i]);
        if i + 1 < s.len() {
            assert(t[i - d + 1] == s[i + 1]);
        }
        if !in_path {
            if s[i] == COLON {
                lemma_parse_rest_shift(s, d, i + 1, proto, path, true);
            } else {
                lemma_parse_rest_shift(s, d, i + 1, proto.push(s[i]), path, false);
            }
        } else if s[i] == PIPE {
            lemma_parse_rest_shift(s, d, i + 1, Seq::empty(), Seq::empty(), false);
        } else if s[i] == ESCAPE {
            if i + 1 < s.len() && (s[i + 1] == ESCAPE || s[i + 1] == PIPE) {
                lemma_parse_rest_shift(s, d, i + 2, proto, path.push(s[i + 1]), true);
            }
        } else {
            lemma_parse_rest_shift(s, d, i + 1, proto, path.push(s[i]), true);
        }
    }
}

/// Reading a protocol: stepping over its bytes up to the separator
/// accumulates exactly those bytes.
proof fn lemma_parse_proto(s: Seq<u8>, i: int, acc: Seq<u8>, p: Seq<u8>)
    requires
        0 <= i,
        i + p.len() < s.len(),
        s.subrange(i, i + p.len()) == p,
        s[i + p.len()] == COLON,
        !p.contains(COLON),
    ensures
        parse_rest(s, i, acc, Seq::empty(), false) == parse_rest(
            s,
            i + p.len() + 1,
            acc + p,
            Seq::empty(),
            true,
        ),
    decreases p.len(),
{
    if p.len() == 0 {
        assert(s[i] == COLON);
        assert(acc + p =~= acc);
    } else {
        assert(s[i] == s.subrange(i, i + p.len())[0]);
        assert(s[i] == p[0]);
        assert(s[i] != COLON) by {
            if p[0] == COLON {
                assert(p.contains(COLON));
            }
        }
        let tail = p.skip(1);
        assert(!tail.contains(COLON)) by {
            if tail.contains(COLON) {
                let j = choose|j: int| 0 <= j < tail.len() && tail[j] == COLON;
                assert(p[j + 1] == COLON);
                assert(p.contains(COLON));
            }
        }
        assert(s.subrange(i + 1, i + 1 + tail.len()) =~= tail) by {
            assert forall|j: int| 0 <= j < tail.len() implies s.subrange(i + 1, i + 1 + tail.len())[j]
                == tail[j] by {
                assert(s[i + 1 + j] == s.subrange(i, i + p.len())[1 + j]);
            }
        }
        lemma_parse_proto(s, i + 1, acc.push(p[0]), tail);
        assert(acc.push(p[0]) + tail =~= acc + p);
    }
}

/// Reading a path: stepping over the rendered (escaped) form of `raw`
/// accumulates exactly `raw`.
proof fn lemma_parse_path(s: Seq<u8>, i: int, proto: Seq<u8>, acc: Seq<u8>, raw: Seq<u8>)
    requires
        0 <= i,
        i + escape_path(raw).len() <= s.len(),
        s.subrange(i, i + escape_path(raw).len()) == escape_path(raw),
    ensures
        parse_rest(s, i, proto, acc, true) == parse_rest(
            s,
            i + escape_path(raw).len(),
            proto,
            acc + raw,
            true,
        ),
    decreases raw.len(),
{
    let esc = escape_path(raw);
    if raw.len() == 0 {
        assert(acc + raw =~= acc);
    } else {
        let c = raw[0];
        let tailraw = raw.skip(1);
        let tailesc = escape_path(tailraw);
        if c == PIPE || c == ESCAPE {
            assert(esc =~= seq![ESCAPE, c] + tailesc);
            assert(s[i] == s.subrange(i, i + esc.len())[0]);
            assert(s[i] == ESCAPE);
            assert(s[i + 1] == s.subrange(i, i + esc.len())[1]);
            assert(s[i + 1] == c);
            assert(s.subrange(i + 2, i + 2 + tailesc.len()) =~= tailesc) by {
                assert forall|j: int|
                    0 <= j < tailesc.len() implies s.subrange(i + 2, i + 2 + tailesc.len())[j]
                    == tailesc[j] by {
                    assert(s[i + 2 + j] == s.subrange(i, i + esc.len())[2 + j]);
                }
            }
            lemma_parse_path(s, i + 2, proto, acc.push(c), tailraw);
            assert(acc.push(c) + tailraw =~= acc + raw);
        } else {
            assert(esc =~= seq![c] + tailesc);
            assert(s[i] == s.subrange(i, i + esc.len())[0]);
            assert(s[i] == c);
            assert(s.subrange(i + 1, i + 1 + tailesc.len()) =~= tailesc) by {
                assert forall|j: int|
                    0 <= j < tailesc.len() implies s.subrange(i + 1, i + 1 + tailesc.len())[j]
                    == tailesc[j] by {
                    assert(s[i + 1 + j] == s.subrange(i, i + esc.len())[1 + j]);
                }
            }
            lemma_parse_path(s, i + 1, proto, acc.push(c), tailraw);
            assert(acc.push(c) + tailraw =~= acc + raw);
        }
    }
}

/// Grammar round-trip: rendering any non-empty chain of components whose
/// protocol names hold no protocol separator, then parsing the rendered
/// meta-path, yields exactly the chain again.
pub proof fn lemma_parse_round_trip(pairs: Seq<(Seq<u8>, Seq<u8>)>)
    requires
        pairs.len() >= 1,
        forall|i: int| 0 <= i < pairs.len() ==> !(#[trigger] pairs[i].0).contains(COLON),
    ensures
        parse_spec(unparse(pairs)) == Ok::<Seq<(Seq<u8>, Seq<u8>)>, ParseError>(pairs),
    decreases pairs.len(),
{
    let u = unparse(pairs);
    let p0 = pairs[0].0;
    let x0 = pairs[0].1;
    let esc0 = escape_path(x0);
    let comp = unparse_component(pairs[0]);
    assert(comp.len() == p0.len() + 1 + esc0.len());
    let after = p0.len() + 1 + esc0.len() as int;
    if pairs.len() == 1 {
        assert(u =~= comp);
        assert(u.subrange(0, p0.len() as int) =~= p0);
        assert(u[p0.len() as int] == COLON);
        assert(!pairs[0].0.contains(COLON));
        lemma_parse_proto(u, 0, Seq::empty(), p0);
        assert(Seq::<u8>::empty() + p0 =~= p0);
        assert(u.subrange(p0.len() as int + 1, p0.len() as int + 1 + esc0.len() as int) =~= esc0);
        lemma_parse_path(u, p0.len() as int + 1, p0, Seq::empty(), x0);
        assert(Seq::<u8>::empty() + x0 =~= x0);
        assert(parse_rest(u, after, p0, x0, true) == Ok::<Seq<(Seq<u8>, Seq<u8>)>, ParseError>(
            seq![(p0, x0)],
        ));
        assert(seq![(p0, x0)] =~= pairs);
    } else {
        let rest = pairs.skip(1);
        let urest = unparse(rest);
        assert(u =~= comp + seq![PIPE] + urest);
        assert(u.subrange(0, p0.len() as int) =~= p0);
        assert(u[p0.len() as int] == COLON);
        assert(!pairs[0].0.contains(COLON));
        lemma_parse_proto(u, 0, Seq::empty(), p0);
        assert(Seq::<u8>::empty() + p0 =~= p0);
        assert(u.subrange(p0.len() as int + 1, p0.len() as int + 1 + esc0.len() as int) =~= esc0);
        lemma_parse_path(u, p0.len() as int + 1, p0, Seq::empty(), x0);
        assert(Seq::<u8>::empty() + x0 =~= x0);
        assert(u[after] == PIPE);
        lemma_parse_rest_shift(u, after + 1, after + 1, Seq::empty(), Seq::empty(), false);
        assert(u.skip(after + 1) =~= urest);
        assert(forall|i: int| 0 <= i < rest.len() ==> !(#[trigger] rest[i].0).contains(COLON)) by {
            assert forall|i: int| 0 <= i < rest.len() implies !(#[trigger] rest[i].0).contains(
                COLON,
            ) by {
                assert(rest[i] == pairs[i + 1]);
            }
        }
        lemma_parse_round_trip(rest);
        assert(urest.len() > 0) by {
            if rest.len() == 1 {
                assert(urest =~= unparse_component(rest[0]));
            }
        }
        assert(parse_rest(urest, 0, Seq::empty(), Seq::empty(), false) == Ok::<
            Seq<(Seq<u8>, Seq<u8>)>,
            ParseError,
        >(rest));
        assert(parse_rest(u, after, p0, x0, true) == Ok::<Seq<(Seq<u8>, Seq<u8>)>, ParseError>(
            seq![(p0, x0)] + rest,
        ));
        assert(seq![(p0, x0)] + rest =~= pairs);
    }
}

/// A parsed meta-path always has at least one component.
pub proof fn lemma_parse_ok_nonempty(s: Seq<u8>)
    ensures
        parse_spec(s) matches Ok(l) ==> l.len() >= 1,
{
    if s.len() > 0 {
        lemma_parse_rest_ok_nonempty(s, 0, Seq::empty(), Seq::empty(), false);
    }
}

proof fn lemma_parse_rest_ok_nonempty(s: Seq<u8>, i: int, proto: Seq<u8>, path: Seq<u8>, in_path: bool)
    ensures
        parse_rest(s, i, proto, path, in_path) matches Ok(l) ==> l.len() >= 1,
    decreases s.len() - i,
{
    if 0 <= i && i < s.len() {
        if !in_path {
            if s[i] == COLON {
                lemma_parse_rest_ok_nonempty(s, i + 1, proto, path, true);
            } else {
                lemma_parse_rest_ok_nonempty(s, i + 1, proto.push(s[i]), path, false);
            }
        } else if s[i] == PIPE {
            lemma_parse_rest_ok_nonempty(s, i + 1, Seq::empty(), Seq::empty(), false);
        } else if s[i] == ESCAPE {
            if i + 1 < s.len() && (s[i + 1] == ESCAPE || s[i + 1] == PIPE) {
                lemma_parse_rest_ok_nonempty(s, i + 2, proto, path.push(s[i + 1]), true);
            }
        } else {
            lemma_parse_rest_ok_nonempty(s, i + 1, proto, path.push(s[i]), true);
        }
    }
}

} // verus!

