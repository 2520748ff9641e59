//! The vertex subset of the Wavefront mesh format, read line by line.
//!
//! A line whose first whitespace-delimited token is exactly `v` is a vertex
//! record; every other line is ignored. A record needs at least three fields
//! after the `v` (x, y and z); a fourth (w) is optional and anything after it
//! is ignored. A `v` line with fewer than three fields is a load error. The
//! fields are handed out as raw text: turning them into numbers is left to
//! the caller.
use vstd::prelude::*;

verus! {

/// The bytes that separate tokens: space, tab, line feed, vertical tab,
/// form feed and carriage return.
pub open spec fn is_space_spec(b: u8) -> bool {
    b == 32u8 || (9u8 <= b && b <= 13u8)
}

/// The maximal runs of non-space bytes of `s`, in order.
pub open spec fn tokens(s: Seq<u8>) -> Seq<Seq<u8>>
    decreases s.len(),
{
    if s.len() == 0 {
        seq![]
    } else {
        let prev = tokens(s.drop_last());
        if is_space_spec(s.last()) {
            prev
        } else if s.len() >= 2 && !is_space_spec(s[s.len() - 2]) && prev.len() > 0 {
            prev.update(prev.len() - 1, prev.last().push(s.last()))
        } else {
            prev.push(seq![s.last()])
        }
    }
}

/// Every token is a non-empty run of non-space bytes.
pub proof fn lemma_tokens_are_words(s: Seq<u8>)
    ensures
        forall|k: int| 0 <= k < tokens(s).len() ==> (#[trigger] tokens(s)[k]).len() > 0,
        forall|k: int, j: int|
            0 <= k < tokens(s).len() && 0 <= j < tokens(s)[k].len() ==> !is_space_spec(#[trigger] tokens(s)[k][j]),
    decreases s.len(),
{
    if s.len() > 0 {
        lemma_tokens_are_words(s.drop_last());
        let prev = tokens(s.drop_last());
        if !is_space_spec(s.last()) && s.len() >= 2 && !is_space_spec(s[s.len() - 2]) && prev.len() > 0 {
            let t = prev.last().push(s.last());
            assert forall|j: int| 0 <= j < t.len() implies !is_space_spec(#[trigger] t[j]) by {
                if j < t.len() - 1 {
                    assert(t[j] == prev[prev.len() - 1][j]);
                }
            }
        }
    }
}

/// The fields of one vertex record, as text.
pub struct VertexText {
    pub x: Seq<u8>,
    pub y: Seq<u8>,
    pub z: Seq<u8>,
    pub w: Option<Seq<u8>>,
}

/// What one line of the mesh text is.
pub enum LineClass {
    Vertex(VertexText),
    Ignored,
    TooFewFields,
}

pub open spec fn classify(line: Seq<u8>) -> LineClass {
    let ts = tokens(line);
    if ts.len() == 0 || ts[0] != seq![118u8] {
        LineClass::Ignored
    } else if ts.len() < 4 {
        LineClass::TooFewFields
    } else {
        LineClass::Vertex(
            VertexText {
                x: ts[1],
                y: ts[2],
                z: ts[3],
                w: if ts.len() >= 5 { Some(ts[4]) } else { None },
            },
        )
    }
}

pub fn is_space(b: u8) -> (r: bool)
    ensures
        r == is_space_spec(b),
{
    b == 32u8 || (9u8 <= b && b <= 13u8)
}

pub open spec fn token_views(v: Seq<Vec<u8>>) -> Seq<Seq<u8>> {
    v.map_values(|t: Vec<u8>| t@)
}

/// Splits `line` into its whitespace-delimited tokens.
pub fn split_tokens(line: &[u8]) -> (r: Vec<Vec<u8>>)
    ensures
        token_views(r@) == tokens(line@),
{
    let mut done: Vec<Vec<u8>> = Vec::new();
    let mut cur: Vec<u8> = Vec::new();
    let mut i: usize = 0;
    while i < line.len()
        invariant
            i <= line@.len(),
            tokens(line@.take(i as int)) == if cur@.len() > 0 {
                token_views(done@).push(cur@)
            } else {
                token_views(done@)
            },
            cur@.len() > 0 ==> i > 0 && !is_space_spec(line@[i - 1]),
            i > 0 && !is_space_spec(line@[i - 1]) ==> cur@.len() > 0,
        decreases line@.len() - i,
    {
        let b = line[i];
        let ghost pre = line@.take(i as int);
        let ghost next = line@.take(i + 1);
        assert(next.drop_last() =~= pre);
        assert(next.last() == b);
        if is_space(b) {
            if cur.len() > 0 {
                let ghost before = token_views(done@);
                done.push(cur);
                cur = Vec::new();
                assert(token_views(done@) =~= before.push(done@.last()@));
            }
        } else {
            let had = cur.len() > 0;
            cur.push(b);
            if had {
                assert(next.len() >= 2 && next[next.len() - 2] == line@[i - 1]);
                assert(tokens(next) =~= token_views(done@).push(cur@));
            } else {
                assert(i > 0 ==> next[next.len() - 2] == line@[i - 1]);
                assert(cur@ =~= seq![b]);
                assert(tokens(next) =~= token_views(done@).push(cur@));
            }
        }
        i = i + 1;
    }
    assert(line@.take(line@.len() as int) =~= line@);
    if cur.len() > 0 {
        let ghost before = token_views(done@);
        done.push(cur);
        assert(token_views(done@) =~= before.push(done@.last()@));
    }
    done
}

/// The fields of one vertex record, as the bytes of the line they came from.
pub struct VertexFields {
    pub x: Vec<u8>,
    pub y: Vec<u8>,
    pub z: Vec<u8>,
    pub w: Option<Vec<u8>>,
}

impl View for VertexFields {
    type V = VertexText;

    open spec fn view(&self) -> VertexText {
        VertexText {
            x: self.x@,
            y: self.y@,
            z: self.z@,
            w: match self.w {
                Some(w) => Some(w@),
                None => None,
            },
        }
    }
}

/// One line of mesh text, classified.
pub enum VertexLine {
    Vertex(VertexFields),
    Ignored,
    TooFewFields,
}

impl View for VertexLine {
    type V = LineClass;

    open spec fn view(&self) -> LineClass {
        match self {
            VertexLine::Vertex(f) => LineClass::Vertex(f@),
            VertexLine::Ignored => LineClass::Ignored,
            VertexLine::TooFewFields => LineClass::TooFewFields,
        }
    }
}

/// Why a mesh could not be loaded; lines and vertices count from zero.
#[derive(Clone, Copy, Debug, PartialEq, Eq)]
pub enum LoadError {
    /// A `v` line with fewer than three fields.
    TooFewFields { line: usize },
    /// A field of the `vertex`-th record that is not a number.
    BadNumber { vertex: usize },
}

fn copy_bytes(b: &Vec<u8>) -> (r: Vec<u8>)
    ensures
        r@ == b@,
{
    let mut r: Vec<u8> = Vec::with_capacity(b.len());
    let mut i: usize = 0;
    while i < b.len()
        invariant
            i <= b@.len(),
            r@ == b@.take(i as int),
        decreases b@.len() - i,
    {
        r.push(b[i]);
        i = i + 1;
        assert(r@ =~= b@.take(i as int));
    }
    assert(b@.take(b@.len() as int) =~= b@);
    r
}

/// Classifies one line: a vertex record with its fields, a line to ignore, or
/// a `v` line with too few fields.
pub fn parse_vertex_line(line: &[u8]) -> (r: VertexLine)
    ensures
        r@ == classify(line@),
{
    let ts = split_tokens(line);
    proof {
        assert(ts@.len() == tokens(line@).len());
        assert(forall|k: int| 0 <= k < ts@.len() ==> ts@[k]@ == tokens(line@)[k]);
    }
    if ts.len() == 0 || !(ts[0].len() == 1 && ts[0][0] == 118u8) {
        proof {
            if ts@.len() > 0 {
                if ts@[0]@.len() == 1 {
                    assert(ts@[0]@[0] != 118u8);
                    assert(tokens(line@)[0] != seq![118u8]);
                } else {
                    assert(tokens(line@)[0].len() != 1);
                }
            }
        }
        VertexLine::Ignored
    } else if ts.len() < 4 {
        assert(tokens(line@)[0] =~= seq![118u8]);
        VertexLine::TooFewFields
    } else {
        assert(tokens(line@)[0] =~= seq![118u8]);
        let w = if ts.len() >= 5 {
            Some(copy_bytes(&ts[4]))
        } else {
            None
        };
        let f = VertexFields {
            x: copy_bytes(&ts[1]),
            y: copy_bytes(&ts[2]),
            z: copy_bytes(&ts[3]),
            w,
        };
        VertexLine::Vertex(f)
    }
}

/// What a sequence of lines loads to: the vertex records in order, or the
/// index of the first `v` line with too few fields.
pub open spec fn load_lines(lines: Seq<Seq<u8>>) -> Result<Seq<VertexText>, nat>
    decreases lines.len(),
{
    if lines.len() == 0 {
        Ok(seq![])
    } else {
        match load_lines(lines.drop_last()) {
            Err(e) => Err(e),
            Ok(vs) => match classify(lines.last()) {
                LineClass::Vertex(v) => Ok(vs.push(v)),
                LineClass::Ignored => Ok(vs),
                LineClass::TooFewFields => Err((lines.len() - 1) as nat),
            },
        }
    }
}

pub open spec fn line_views(lines: Seq<Vec<u8>>) -> Seq<Seq<u8>> {
    lines.map_values(|l: Vec<u8>| l@)
}

pub open spec fn record_views(rs: Seq<VertexFields>) -> Seq<VertexText> {
    rs.map_values(|r: VertexFields| r@)
}

/// Reads the vertex records of a mesh given as its lines. The whole load
/// fails on the first `v` line with fewer than three fields.
pub fn read_vertex_records(lines: &Vec<Vec<u8>>) -> (r: Result<Vec<VertexFields>, LoadError>)
    ensures
        match load_lines(line_views(lines@)) {
            Ok(vs) => r.is_ok() && record_views(r->Ok_0@) == vs,
            Err(e) => r == Err::<Vec<VertexFields>, LoadError>(LoadError::TooFewFields { line: e as usize }),
        },
{
    let mut out: Vec<VertexFields> = Vec::new();
    let mut i: usize = 0;
    assert(line_views(lines@).take(0) =~= Seq::<Seq<u8>>::empty());
    assert(record_views(out@) =~= Seq::<VertexText>::empty());
    while i < lines.len()
        invariant
            i <= lines@.len(),
            load_lines(line_views(lines@).take(i as int)) == Ok::<Seq<VertexText>, nat>(record_views(out@)),
        decreases lines@.len() - i,
    {
        let ghost pre = line_views(lines@).take(i as int);
        let ghost next = line_views(lines@).take(i + 1);
        assert(next.drop_last() =~= pre);
        assert(next.last() == lines@[i as int]@);
        let c = parse_vertex_line(lines[i].as_slice());
        match c {
            VertexLine::Vertex(f) => {
                let ghost before = record_views(out@);
                out.push(f);
                assert(record_views(out@) =~= before.push(out@.last()@));
            },
            VertexLine::Ignored => {},
            VertexLine::TooFewFields => {
                proof {
                    let l = line_views(lines@);
                    assert forall|k: int| i + 1 <= k <= l.len() implies load_lines(l.take(k)) == Err::<Seq<VertexText>, nat>(i as nat) by {
                        lemma_load_error_sticks(l, i as int, k);
                    }
                    assert(l.take(l.len() as int) =~= l);
                }
                return Err(LoadError::TooFewFields { line: i });
            },
        }
        i = i + 1;
    }
    assert(line_views(lines@).take(lines@.len() as int) =~= line_views(lines@));
    Ok(out)
}

proof fn lemma_load_error_sticks(l: Seq<Seq<u8>>, i: int, k: int)
    requires
        0 <= i < l.len(),
        i + 1 <= k <= l.len(),
        load_lines(l.take(i + 1)) == Err::<Seq<VertexText>, nat>(i as nat),
    ensures
        load_lines(l.take(k)) == Err::<Seq<VertexText>, nat>(i as nat),
    decreases k - i,
{
    if k > i + 1 {
        lemma_load_error_sticks(l, i, k - 1);
        assert(l.take(k).drop_last() =~= l.take(k - 1));
    }
}

} // verus!
