//! A streaming tokenizer for the XML subset the ingestion understands.
//!
//! The input is walked strictly in document order and turned into a
//! sequence of events: element start (with its attributes), character
//! data, and element end. Element and attribute names are reduced to
//! their local part (the text after a namespace prefix's colon). The
//! subset covers what activity log files use: an XML declaration and
//! comments (skipped), start tags with single- or double-quoted
//! attribute values and no whitespace around `=`, self-closing tags,
//! end tags, and literal character data (no entity or CDATA handling).
//! Anything else is malformed and fails the whole file.

use vstd::prelude::*;

use crate::errors::ParseError;

verus! {

/// One attribute of a start tag: local name and literal value.
#[derive(Clone, Debug)]
pub struct Attr {
    pub name: Vec<u8>,
    pub value: Vec<u8>,
}

impl View for Attr {
    type V = (Seq<u8>, Seq<u8>);

    open spec fn view(&self) -> (Seq<u8>, Seq<u8>) {
        (self.name@, self.value@)
    }
}

/// One event of the document walk.
#[derive(Clone, Debug)]
pub enum XmlEvent {
    Start { name: Vec<u8>, attrs: Vec<Attr> },
    Text { text: Vec<u8> },
    End { name: Vec<u8> },
}

/// The mathematical form of an event.
pub enum Ev {
    Start(Seq<u8>, Seq<(Seq<u8>, Seq<u8>)>),
    Text(Seq<u8>),
    End(Seq<u8>),
}

impl View for XmlEvent {
    type V = Ev;

    open spec fn view(&self) -> Ev {
        match self {
            XmlEvent::Start { name, attrs } => Ev::Start(
                name@,
                attrs@.map_values(|a: Attr| a@),
            ),
            XmlEvent::Text { text } => Ev::Text(text@),
            XmlEvent::End { name } => Ev::End(name@),
        }
    }
}

/// The mathematical form of an event sequence.
pub open spec fn evs_of(v: Seq<XmlEvent>) -> Seq<Ev> {
    v.map_values(|e: XmlEvent| e@)
}

/// XML whitespace.
pub open spec fn is_ws(b: u8) -> bool {
    b == (' ' as u8) || b == ('\t' as u8) || b == ('\n' as u8) || b == ('\r' as u8)
}

/// A byte that ends a tag or attribute name.
pub open spec fn is_name_delim(b: u8) -> bool {
    is_ws(b) || b == ('/' as u8) || b == ('>' as u8)
}

/// Index of the first occurrence of `c` at or after `i`.
pub open spec fn find_from(s: Seq<u8>, i: int, c: u8) -> Option<int>
    decreases s.len() - i,
{
    if i < 0 || i >= s.len() {
        None
    } else if s[i] == c {
        Some(i)
    } else {
        find_from(s, i + 1, c)
    }
}

/// Index of the first occurrence of the pair `c1 c2` at or after `i`.
pub open spec fn find2_from(s: Seq<u8>, i: int, c1: u8, c2: u8) -> Option<int>
    decreases s.len() - i,
{
    if i < 0 || i + 2 > s.len() {
        None
    } else if s[i] == c1 && s[i + 1] == c2 {
        Some(i)
    } else {
        find2_from(s, i + 1, c1, c2)
    }
}

/// Index of the first occurrence of the triple `c1 c2 c3` at or after `i`.
pub open spec fn find3_from(s: Seq<u8>, i: int, c1: u8, c2: u8, c3: u8) -> Option<int>
    decreases s.len() - i,
{
    if i < 0 || i + 3 > s.len() {
        None
    } else if s[i] == c1 && s[i + 1] == c2 && s[i + 2] == c3 {
        Some(i)
    } else {
        find3_from(s, i + 1, c1, c2, c3)
    }
}

/// Index of the first name delimiter at or after `i`.
pub open spec fn find_delim_from(s: Seq<u8>, i: int) -> Option<int>
    decreases s.len() - i,
{
    if i < 0 || i >= s.len() {
        None
    } else if is_name_delim(s[i]) {
        Some(i)
    } else {
        find_delim_from(s, i + 1)
    }
}

/// Index of the first non-whitespace byte at or after `i` (or the end).
pub open spec fn skip_ws_spec(s: Seq<u8>, i: int) -> int
    decreases s.len() - i,
{
    if i < 0 || i >= s.len() {
        i
    } else if is_ws(s[i]) {
        skip_ws_spec(s, i + 1)
    } else {
        i
    }
}

/// The local part of a possibly prefixed name: the text after the
/// first colon, or the whole name.
pub open spec fn local_of(n: Seq<u8>) -> Seq<u8> {
    match find_from(n, 0, (':' as u8)) {
        Some(k) => n.subrange(k + 1, n.len() as int),
        None => n,
    }
}

/// One step of the attribute list of a start tag, beginning at `p`:
/// the attributes (local names and literal values, in order), the
/// position after the tag's closing `>`, and whether the tag was
/// self-closing. `None` when the list is malformed.
pub open spec fn spec_attrs(s: Seq<u8>, p: int) -> Option<(Seq<(Seq<u8>, Seq<u8>)>, int, bool)>
    decreases s.len() - p,
{
    let q = skip_ws_spec(s, p);
    if q < 0 || q >= s.len() {
        None
    } else if s[q] == ('>' as u8) {
        Some((Seq::empty(), q + 1, false))
    } else if s[q] == ('/' as u8) {
        if q + 1 < s.len() && s[q + 1] == ('>' as u8) {
            Some((Seq::empty(), q + 2, true))
        } else {
            None
        }
    } else {
        match find_from(s, q, ('=' as u8)) {
            None => None,
            Some(e) => {
                let name = s.subrange(q, e);
                if name.len() == 0 || e + 2 > s.len() {
                    None
                } else {
                    let quote = s[e + 1];
                    if quote != ('"' as u8) && quote != ('\'' as u8) {
                        None
                    } else {
                        match find_from(s, e + 2, quote) {
                            None => None,
                            Some(r) => {
                                let value = s.subrange(e + 2, r);
                                if r + 1 <= p || r >= s.len() {
                                    None
                                } else {
                                    match spec_attrs(s, r + 1) {
                                        None => None,
                                        Some((rest, j, sc)) => Some(
                                            (seq![(local_of(name), value)] + rest, j, sc),
                                        ),
                                    }
                                }
                            },
                        }
                    }
                }
            },
        }
    }
}

/// What one token starting at position `i` yields: the events it emits
/// (none for a declaration or comment, two for a self-closing tag) and
/// the position after it, or a malformed-XML failure.
pub enum TokStep {
    Events(Seq<Ev>, int),
    TokFail,
}

pub open spec fn spec_next_token(s: Seq<u8>, i: int) -> TokStep {
    if s[i] != ('<' as u8) {
        let j = match find_from(s, i + 1, ('<' as u8)) {
            None => s.len() as int,
            Some(k) => k,
        };
        TokStep::Events(seq![Ev::Text(s.subrange(i, j))], j)
    } else if i + 1 >= s.len() {
        TokStep::TokFail
    } else if s[i + 1] == ('?' as u8) {
        match find2_from(s, i + 2, ('?' as u8), ('>' as u8)) {
            None => TokStep::TokFail,
            Some(k) => TokStep::Events(Seq::empty(), k + 2),
        }
    } else if s[i + 1] == ('!' as u8) {
        if i + 4 > s.len() || s[i + 2] != ('-' as u8) || s[i + 3] != ('-' as u8) {
            TokStep::TokFail
        } else {
            match find3_from(s, i + 4, ('-' as u8), ('-' as u8), ('>' as u8)) {
                None => TokStep::TokFail,
                Some(k) => TokStep::Events(Seq::empty(), k + 3),
            }
        }
    } else if s[i + 1] == ('/' as u8) {
        match find_from(s, i + 2, ('>' as u8)) {
            None => TokStep::TokFail,
            Some(k) => {
                let name = s.subrange(i + 2, k);
                if name.len() == 0 {
                    TokStep::TokFail
                } else {
                    TokStep::Events(seq![Ev::End(local_of(name))], k + 1)
                }
            },
        }
    } else {
        match find_delim_from(s, i + 1) {
            None => TokStep::TokFail,
            Some(k) => {
                let name = s.subrange(i + 1, k);
                if name.len() == 0 {
                    TokStep::TokFail
                } else {
                    match spec_attrs(s, k) {
                        None => TokStep::TokFail,
                        Some((attrs, j, sc)) => if sc {
                            TokStep::Events(
                                seq![
                                    Ev::Start(local_of(name), attrs),
                                    Ev::End(local_of(name)),
                                ],
                                j,
                            )
                        } else {
                            TokStep::Events(seq![Ev::Start(local_of(name), attrs)], j)
                        },
                    }
                }
            },
        }
    }
}

/// The event sequence of the whole input from position `i`, or `None`
/// when the input is malformed.
pub open spec fn spec_lex_from(s: Seq<u8>, i: int) -> Option<Seq<Ev>>
    decreases s.len() - i,
{
    if i < 0 || i >= s.len() {
        Some(Seq::empty())
    } else {
        match spec_next_token(s, i) {
            TokStep::TokFail => None,
            TokStep::Events(evs, j) => if j <= i || j > s.len() {
                None
            } else {
                match spec_lex_from(s, j) {
                    None => None,
                    Some(rest) => Some(evs + rest),
                }
            },
        }
    }
}

fn find_byte(s: &[u8], from: usize, c: u8) -> (r: Option<usize>)
    requires
        from <= s@.len(),
    ensures
        match r {
            None => find_from(s@, from as int, c) is None,
            Some(j) => from <= j < s@.len() && find_from(s@, from as int, c) == Some(j as int),
        },
{
    let n = s.len();
    let mut i = from;
    while i < n
        invariant
            from <= i <= n == s@.len(),
            find_from(s@, from as int, c) == find_from(s@, i as int, c),
        decreases n - i,
    {
        if s[i] == c {
            return Some(i);
        }
        i = i + 1;
    }
    None
}

fn find_two(s: &[u8], from: usize, c1: u8, c2: u8) -> (r: Option<usize>)
    requires
        from <= s@.len(),
    ensures
        match r {
            None => find2_from(s@, from as int, c1, c2) is None,
            Some(j) => from <= j && j + 2 <= s@.len() && find2_from(s@, from as int, c1, c2)
                == Some(j as int),
        },
{
    let n = s.len();
    if n < 2 {
        return None;
    }
    let mut i = from;
    while i < n - 1
        invariant
            from <= i,
            i <= n == s@.len(),
            n >= 2,
            find2_from(s@, from as int, c1, c2) == find2_from(s@, i as int, c1, c2),
        decreases n - i,
    {
        if s[i] == c1 && s[i + 1] == c2 {
            return Some(i);
        }
        i = i + 1;
    }
    None
}

fn find_three(s: &[u8], from: usize, c1: u8, c2: u8, c3: u8) -> (r: Option<usize>)
    requires
        from <= s@.len(),
    ensures
        match r {
            None => find3_from(s@, from as int, c1, c2, c3) is None,
            Some(j) => from <= j && j + 3 <= s@.len() && find3_from(s@, from as int, c1, c2, c3)
                == Some(j as int),
        },
{
    let n = s.len();
    if n < 3 {
        return None;
    }
    let mut i = from;
    while i < n - 2
        invariant
            from <= i,
            i <= n == s@.len(),
            n >= 3,
            find3_from(s@, from as int, c1, c2, c3) == find3_from(s@, i as int, c1, c2, c3),
        decreases n - i,
    {
        if s[i] == c1 && s[i + 1] == c2 && s[i + 2] == c3 {
            return Some(i);
        }
        i = i + 1;
    }
    None
}

fn ws_check(b: u8) -> (r: bool)
    ensures
        r == is_ws(b),
{
    b == (' ' as u8) || b == ('\t' as u8) || b == ('\n' as u8) || b == ('\r' as u8)
}

fn find_delim(s: &[u8], from: usize) -> (r: Option<usize>)
    requires
        from <= s@.len(),
    ensures
        match r {
            None => find_delim_from(s@, from as int) is None,
            Some(j) => from <= j < s@.len() && find_delim_from(s@, from as int) == Some(j as int),
        },
{
    let n = s.len();
    let mut i = from;
    while i < n
        invariant
            from <= i <= n == s@.len(),
            find_delim_from(s@, from as int) == find_delim_from(s@, i as int),
        decreases n - i,
    {
        if ws_check(s[i]) || s[i] == ('/' as u8) || s[i] == ('>' as u8) {
            return Some(i);
        }
        i = i + 1;
    }
    None
}

fn skip_ws(s: &[u8], from: usize) -> (r: usize)
    requires
        from <= s@.len(),
    ensures
        from <= r <= s@.len(),
        r == skip_ws_spec(s@, from as int),
{
    let n = s.len();
    let mut i = from;
    while i < n
        invariant
            from <= i <= n == s@.len(),
            skip_ws_spec(s@, from as int) == skip_ws_spec(s@, i as int),
        decreases n - i,
    {
        if !ws_check(s[i]) {
            return i;
        }
        i = i + 1;
    }
    i
}

/// The local part of a name: the text after the first colon, if any.
fn local_name(name: &[u8]) -> (r: Vec<u8>)
    ensures
        r@ == local_of(name@),
{
    let n = name.len();
    match find_byte(name, 0, ':' as u8) {
        Some(k) => {
            let v = vstd::slice::slice_to_vec(&name[k + 1..n]);
            proof {
                assert(v@ =~= local_of(name@));
            }
            v
        },
        None => {
            let v = vstd::slice::slice_to_vec(&name[0..n]);
            proof {
                assert(v@ =~= local_of(name@));
            }
            v
        },
    }
}

/// Read one token at position `i`: the events it emits and the
/// position after it.
fn next_token(s: &[u8], i: usize) -> (r: Result<(Vec<XmlEvent>, usize), ParseError>)
    requires
        i < s@.len(),
    ensures
        match spec_next_token(s@, i as int) {
            TokStep::TokFail => r == Err::<(Vec<XmlEvent>, usize), ParseError>(
                ParseError::MalformedXml,
            ),
            TokStep::Events(evs, j) => r matches Ok((v, jj)) && evs_of(v@) == evs && jj == j && i
                < jj <= s@.len(),
        },
{
    let n = s.len();
    if s[i] != ('<' as u8) {
        let j = match find_byte(s, i + 1, '<' as u8) {
            None => n,
            Some(k) => k,
        };
        let text = vstd::slice::slice_to_vec(&s[i..j]);
        let mut v: Vec<XmlEvent> = Vec::new();
        v.push(XmlEvent::Text { text });
        proof {
            assert(evs_of(v@) =~= seq![Ev::Text(s@.subrange(i as int, j as int))]);
        }
        return Ok((v, j));
    }
    if i + 1 >= n {
        return Err(ParseError::MalformedXml);
    }
    let c = s[i + 1];
    if c == ('?' as u8) {
        match find_two(s, i + 2, '?' as u8, '>' as u8) {
            None => Err(ParseError::MalformedXml),
            Some(k) => {
                let v: Vec<XmlEvent> = Vec::new();
                proof {
                    assert(evs_of(v@) =~= Seq::<Ev>::empty());
                }
                Ok((v, k + 2))
            },
        }
    } else if c == ('!' as u8) {
        if n - i < 4 || s[i + 2] != ('-' as u8) || s[i + 3] != ('-' as u8) {
            return Err(ParseError::MalformedXml);
        }
        match find_three(s, i + 4, '-' as u8, '-' as u8, '>' as u8) {
            None => Err(ParseError::MalformedXml),
            Some(k) => {
                let v: Vec<XmlEvent> = Vec::new();
                proof {
                    assert(evs_of(v@) =~= Seq::<Ev>::empty());
                }
                Ok((v, k + 3))
            },
        }
    } else if c == ('/' as u8) {
        match find_byte(s, i + 2, '>' as u8) {
            None => Err(ParseError::MalformedXml),
            Some(k) => {
                if k == i + 2 {
                    return Err(ParseError::MalformedXml);
                }
                let name = local_name(&s[i + 2..k]);
                let mut v: Vec<XmlEvent> = Vec::new();
                v.push(XmlEvent::End { name });
                proof {
                    assert(evs_of(v@) =~= seq![
                        Ev::End(local_of(s@.subrange(i as int + 2, k as int))),
                    ]);
                }
                Ok((v, k + 1))
            },
        }
    } else {
        let k = match find_delim(s, i + 1) {
            None => {
                return Err(ParseError::MalformedXml);
            },
            Some(k) => k,
        };
        if k == i + 1 {
            return Err(ParseError::MalformedXml);
        }
        let ghost name_seq = s@.subrange(i as int + 1, k as int);
        let name = local_name(&s[i + 1..k]);
        // the attribute list, maintained against its recursive form
        let mut attrs: Vec<Attr> = Vec::new();
        let mut p = k;
        proof {
            assert(forall|x: Seq<(Seq<u8>, Seq<u8>)>| #[trigger] (Seq::<(Seq<u8>, Seq<u8>)>::empty()
                + x) =~= x);
            assert(attrs@.map_values(|a: Attr| a@) =~= Seq::<(Seq<u8>, Seq<u8>)>::empty());
        }
        loop
            invariant
                i + 1 < k <= p <= n,
                n == s@.len(),
                name_seq == s@.subrange(i as int + 1, k as int),
                name@ == local_of(name_seq),
                spec_attrs(s@, k as int) == match spec_attrs(s@, p as int) {
                    None => None::<(Seq<(Seq<u8>, Seq<u8>)>, int, bool)>,
                    Some((rest, j, sc)) => Some((attrs@.map_values(|a: Attr| a@) + rest, j, sc)),
                },
                ({
                    match spec_attrs(s@, k as int) {
                        None => spec_next_token(s@, i as int) == TokStep::TokFail,
                        Some((ats, j2, sc)) => spec_next_token(s@, i as int) == (if sc {
                            TokStep::Events(
                                seq![
                                    Ev::Start(local_of(name_seq), ats),
                                    Ev::End(local_of(name_seq)),
                                ],
                                j2,
                            )
                        } else {
                            TokStep::Events(seq![Ev::Start(local_of(name_seq), ats)], j2)
                        }),
                    }
                }),
            decreases n - p,
        {
            let q = skip_ws(s, p);
            if q >= n {
                return Err(ParseError::MalformedXml);
            }
            if s[q] == ('>' as u8) {
                proof {
                    assert(spec_attrs(s@, p as int) == Some(
                        (Seq::<(Seq<u8>, Seq<u8>)>::empty(), q as int + 1, false),
                    ));
                    assert(attrs@.map_values(|a: Attr| a@) + Seq::<(Seq<u8>, Seq<u8>)>::empty()
                        =~= attrs@.map_values(|a: Attr| a@));
                }
                let mut v: Vec<XmlEvent> = Vec::new();
                v.push(XmlEvent::Start { name, attrs });
                proof {
                    assert(evs_of(v@) =~= seq![
                        Ev::Start(local_of(name_seq), v@[0]->Start_attrs@.map_values(|a: Attr| a@)),
                    ]);
                }
                return Ok((v, q + 1));
            }
            if s[q] == ('/' as u8) {
                if q + 1 < n && s[q + 1] == ('>' as u8) {
                    proof {
                        assert(spec_attrs(s@, p as int) == Some(
                            (Seq::<(Seq<u8>, Seq<u8>)>::empty(), q as int + 2, true),
                        ));
                        assert(attrs@.map_values(|a: Attr| a@) + Seq::<(Seq<u8>, Seq<u8>)>::empty()
                            =~= attrs@.map_values(|a: Attr| a@));
                    }
                    let name2 = local_name(&s[i + 1..k]);
                    let mut v: Vec<XmlEvent> = Vec::new();
                    v.push(XmlEvent::Start { name, attrs });
                    v.push(XmlEvent::End { name: name2 });
                    proof {
                        assert(evs_of(v@) =~= seq![
                            Ev::Start(
                                local_of(name_seq),
                                v@[0]->Start_attrs@.map_values(|a: Attr| a@),
                            ),
                            Ev::End(local_of(name_seq)),
                        ]);
                    }
                    return Ok((v, q + 2));
                } else {
                    return Err(ParseError::MalformedXml);
                }
            }
            let e = match find_byte(s, q, '=' as u8) {
                None => {
                    return Err(ParseError::MalformedXml);
                },
                Some(e) => e,
            };
            if e == q || n - e < 2 {
                return Err(ParseError::MalformedXml);
            }
            let quote = s[e + 1];
            if quote != ('"' as u8) && quote != ('\'' as u8) {
                return Err(ParseError::MalformedXml);
            }
            let rq = match find_byte(s, e + 2, quote) {
                None => {
                    return Err(ParseError::MalformedXml);
                },
                Some(r) => r,
            };
            let aname = local_name(&s[q..e]);
            let value = vstd::slice::slice_to_vec(&s[e + 2..rq]);
            let a = Attr { name: aname, value };
            attrs.push(a);
            proof {
                let ghost old_attrs = attrs@.drop_last();
                assert(attrs@.map_values(|a: Attr| a@) =~= old_attrs.map_values(|a: Attr| a@)
                    + seq![
                    (
                        local_of(s@.subrange(q as int, e as int)),
                        s@.subrange(e as int + 2, rq as int),
                    ),
                ]);
                assert(forall|x: Seq<(Seq<u8>, Seq<u8>)>, y: Seq<(Seq<u8>, Seq<u8>)>, z: Seq<
                    (Seq<u8>, Seq<u8>),
                >| #[trigger] ((x + y) + z) =~= x + (y + z));
            }
            p = rq + 1;
        }
    }
}

/// Tokenize the whole input into its event sequence, per
/// [`spec_lex_from`]; a malformed document fails as a whole.
pub fn tokenize(s: &[u8]) -> (r: Result<Vec<XmlEvent>, ParseError>)
    ensures
        match spec_lex_from(s@, 0) {
            None => r == Err::<Vec<XmlEvent>, ParseError>(ParseError::MalformedXml),
            Some(evs) => r matches Ok(v) && evs_of(v@) == evs,
        },
{
    let n = s.len();
    let mut out: Vec<XmlEvent> = Vec::new();
    let mut i: usize = 0;
    while i < n
        invariant
            i <= n == s@.len(),
            spec_lex_from(s@, 0) == match spec_lex_from(s@, i as int) {
                None => None::<Seq<Ev>>,
                Some(rest) => Some(evs_of(out@) + rest),
            },
        decreases n - i,
    {
        match next_token(s, i) {
            Err(_) => {
                return Err(ParseError::MalformedXml);
            },
            Ok((mut evts, j)) => {
                let ghost old_out = out@;
                let ghost step_evs = evs_of(evts@);
                out.append(&mut evts);
                proof {
                    assert(evs_of(out@) =~= evs_of(old_out) + step_evs);
                    assert(forall|x: Seq<Ev>, y: Seq<Ev>, z: Seq<Ev>| #[trigger] ((x + y) + z) =~= x
                        + (y + z));
                }
                i = j;
            },
        }
    }
    proof {
        assert(spec_lex_from(s@, i as int) == Some(Seq::<Ev>::empty()));
        assert(evs_of(out@) + Seq::<Ev>::empty() =~= evs_of(out@));
    }
    Ok(out)
}

} // verus!
