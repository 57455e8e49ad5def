//! Parser for the line-oriented mesh text format: `v` lines carry vertex
//! positions, `f` lines carry triangular faces as `/`-subdivided tokens
//! whose first field is a 1-based vertex index.
//!
//! The parser works on raw bytes. Vertex coordinate tokens are handed back
//! verbatim so that the caller can interpret them numerically; face index
//! tokens are resolved here, 1-based in the text and 0-based in the
//! result, unparsable or non-positive indices falling back to 0.

use vstd::prelude::*;

verus! {

/// A byte that separates tokens within a line: ASCII blank, tab or
/// carriage return.
pub open spec fn is_space(b: u8) -> bool {
    b == 0x20 || b == 0x09 || b == 0x0d
}

/// A byte that separates lines.
pub open spec fn is_newline(b: u8) -> bool {
    b == 0x0a
}

/// A decimal digit.
pub open spec fn is_digit(b: u8) -> bool {
    0x30 <= b <= 0x39
}

/// The token separator as a predicate value.
pub open spec fn space_sep() -> spec_fn(u8) -> bool {
    |b: u8| is_space(b)
}

/// The line separator as a predicate value.
pub open spec fn newline_sep() -> spec_fn(u8) -> bool {
    |b: u8| is_newline(b)
}

/// The sub-field separator of a face token.
pub open spec fn slash_sep() -> spec_fn(u8) -> bool {
    |b: u8| b == 0x2f
}

/// The length of the maximal leading run of non-separator bytes.
pub open spec fn run_len(s: Seq<u8>, sep: spec_fn(u8) -> bool) -> int
    decreases s.len(),
{
    if s.len() == 0 || sep(s[0]) {
        0
    } else {
        1 + run_len(s.skip(1), sep)
    }
}

/// The leading run is a prefix: `0 <= run_len(s) <= s.len()`.
pub proof fn lemma_run_len_bounds(s: Seq<u8>, sep: spec_fn(u8) -> bool)
    ensures
        0 <= run_len(s, sep) <= s.len(),
    decreases s.len(),
{
    if s.len() != 0 && !sep(s[0]) {
        lemma_run_len_bounds(s.skip(1), sep);
    }
}

/// The run ends exactly at the first separator (or at the end): if the
/// first `m` bytes are no separators and byte `m` is one or absent, the
/// run has length `m`.
pub proof fn lemma_run_len_at(s: Seq<u8>, sep: spec_fn(u8) -> bool, m: int)
    requires
        0 <= m <= s.len(),
        forall|i: int| 0 <= i < m ==> !sep(#[trigger] s[i]),
        m == s.len() || sep(s[m]),
    ensures
        run_len(s, sep) == m,
    decreases s.len(),
{
    if s.len() != 0 && !sep(s[0]) {
        assert(m >= 1);
        let t = s.skip(1);
        assert(forall|i: int| 0 <= i < m - 1 ==> !sep(#[trigger] t[i]));
        lemma_run_len_at(t, sep, m - 1);
    }
}

/// The maximal runs of non-separator bytes of `s`, in order: `s` split at
/// its separators, with empty segments dropped.
pub open spec fn split_runs(s: Seq<u8>, sep: spec_fn(u8) -> bool) -> Seq<Seq<u8>>
    decreases s.len(),
    via split_runs_dec
{
    if s.len() == 0 {
        Seq::empty()
    } else if sep(s[0]) {
        split_runs(s.skip(1), sep)
    } else {
        seq![s.take(run_len(s, sep))] + split_runs(s.skip(run_len(s, sep)), sep)
    }
}

#[via_fn]
proof fn split_runs_dec(s: Seq<u8>, sep: spec_fn(u8) -> bool) {
    if s.len() != 0 && !sep(s[0]) {
        lemma_run_len_bounds(s.skip(1), sep);
    }
}

/// The whitespace-separated tokens of a line.
pub open spec fn tokens_of(line: Seq<u8>) -> Seq<Seq<u8>> {
    split_runs(line, space_sep())
}

/// The non-empty lines of a text.
pub open spec fn lines_of(text: Seq<u8>) -> Seq<Seq<u8>> {
    split_runs(text, newline_sep())
}

/// Splits a text into its non-empty lines.
#[verifier::loop_isolation(false)]
fn split_lines_exec(s: &Vec<u8>) -> (r: Vec<Vec<u8>>)
    ensures
        r@.len() == lines_of(s@).len(),
        forall|i: int| 0 <= i < r@.len() ==> #[trigger] r@[i]@ == lines_of(s@)[i],
{
    let ghost sep = newline_sep();
    let whole = Ghost(split_runs(s@, sep));
    let mut r: Vec<Vec<u8>> = Vec::new();
    let mut i: usize = 0;
    proof {
        assert(s@.skip(0) =~= s@);
    }
    while i < s.len()
        invariant
            i <= s.len(),
            r@.len() + split_runs(s@.skip(i as int), sep).len() == whole@.len(),
            forall|t: int| 0 <= t < r@.len() ==> #[trigger] r@[t]@ == whole@[t],
            forall|t: int|
                0 <= t < split_runs(s@.skip(i as int), sep).len() ==> #[trigger] split_runs(
                    s@.skip(i as int),
                    sep,
                )[t] == whole@[r@.len() + t],
        decreases s.len() - i,
    {
        if s[i] == 0x0a {
            proof {
                assert(s@.skip(i as int).skip(1) =~= s@.skip(i as int + 1));
            }
            i = i + 1;
        } else {
            // scan to the end of the line
            let mut j = i + 1;
            while j < s.len() && s[j] != 0x0a
                invariant
                    i < j <= s.len(),
                    forall|k: int| i <= k < j ==> #[trigger] s@[k] != 0x0a,
                decreases s.len() - j,
            {
                j = j + 1;
            }
            proof {
                let t = s@.skip(i as int);
                assert(forall|k: int| 0 <= k < j - i ==> !sep(#[trigger] t[k]));
                lemma_run_len_at(t, sep, j - i);
                assert(t.take(j - i) =~= s@.subrange(i as int, j as int));
                assert(t.skip(j - i) =~= s@.skip(j as int));
                assert(split_runs(t, sep) == seq![s@.subrange(i as int, j as int)] + split_runs(
                    s@.skip(j as int),
                    sep,
                ));
                assert(split_runs(t, sep)[0] == whole@[r@.len() as int]);
                assert forall|q: int|
                    0 <= q < split_runs(s@.skip(j as int), sep).len() implies #[trigger] split_runs(
                    s@.skip(j as int),
                    sep,
                )[q] == whole@[r@.len() + 1 + q] by {
                    assert(split_runs(t, sep)[q + 1] == whole@[r@.len() + q + 1]);
                }
            }
            // copy the line
            let mut tok: Vec<u8> = Vec::new();
            let mut k = i;
            while k < j
                invariant
                    i <= k <= j <= s.len(),
                    tok@ == s@.subrange(i as int, k as int),
                decreases j - k,
            {
                tok.push(s[k]);
                proof {
                    assert(s@.subrange(i as int, k as int).push(s@[k as int]) =~= s@.subrange(
                        i as int,
                        k as int + 1,
                    ));
                }
                k = k + 1;
            }
            r.push(tok);
            i = j;
        }
    }
    proof {
        assert(s@.skip(i as int) =~= Seq::<u8>::empty());
    }
    r
}

/// Splits a line into its whitespace-separated tokens.
#[verifier::loop_isolation(false)]
fn split_tokens_exec(s: &Vec<u8>) -> (r: Vec<Vec<u8>>)
    ensures
        r@.len() == tokens_of(s@).len(),
        forall|i: int| 0 <= i < r@.len() ==> #[trigger] r@[i]@ == tokens_of(s@)[i],
{
    let ghost sep = space_sep();
    let whole = Ghost(split_runs(s@, sep));
    let mut r: Vec<Vec<u8>> = Vec::new();
    let mut i: usize = 0;
    proof {
        assert(s@.skip(0) =~= s@);
    }
    while i < s.len()
        invariant
            i <= s.len(),
            r@.len() + split_runs(s@.skip(i as int), sep).len() == whole@.len(),
            forall|t: int| 0 <= t < r@.len() ==> #[trigger] r@[t]@ == whole@[t],
            forall|t: int|
                0 <= t < split_runs(s@.skip(i as int), sep).len() ==> #[trigger] split_runs(
                    s@.skip(i as int),
                    sep,
                )[t] == whole@[r@.len() + t],
        decreases s.len() - i,
    {
        if s[i] == 0x20 || s[i] == 0x09 || s[i] == 0x0d {
            proof {
                assert(s@.skip(i as int).skip(1) =~= s@.skip(i as int + 1));
            }
            i = i + 1;
        } else {
            // scan to the end of the token
            let mut j = i + 1;
            while j < s.len() && s[j] != 0x20 && s[j] != 0x09 && s[j] != 0x0d
                invariant
                    i < j <= s.len(),
                    forall|k: int|
                        i <= k < j ==> #[trigger] s@[k] != 0x20 && s@[k] != 0x09 && s@[k] != 0x0d,
                decreases s.len() - j,
            {
                j = j + 1;
            }
            proof {
                let t = s@.skip(i as int);
                assert(forall|k: int| 0 <= k < j - i ==> !sep(#[trigger] t[k]));
                lemma_run_len_at(t, sep, j - i);
                assert(t.take(j - i) =~= s@.subrange(i as int, j as int));
                assert(t.skip(j - i) =~= s@.skip(j as int));
                assert(split_runs(t, sep) == seq![s@.subrange(i as int, j as int)] + split_runs(
                    s@.skip(j as int),
                    sep,
                ));
                assert(split_runs(t, sep)[0] == whole@[r@.len() as int]);
                assert forall|q: int|
                    0 <= q < split_runs(s@.skip(j as int), sep).len() implies #[trigger] split_runs(
                    s@.skip(j as int),
                    sep,
                )[q] == whole@[r@.len() + 1 + q] by {
                    assert(split_runs(t, sep)[q + 1] == whole@[r@.len() + q + 1]);
                }
            }
            // copy the token
            let mut tok: Vec<u8> = Vec::new();
            let mut k = i;
            while k < j
                invariant
                    i <= k <= j <= s.len(),
                    tok@ == s@.subrange(i as int, k as int),
                decreases j - k,
            {
                tok.push(s[k]);
                proof {
                    assert(s@.subrange(i as int, k as int).push(s@[k as int]) =~= s@.subrange(
                        i as int,
                        k as int + 1,
                    ));
                }
                k = k + 1;
            }
            r.push(tok);
            i = j;
        }
    }
    proof {
        assert(s@.skip(i as int) =~= Seq::<u8>::empty());
    }
    r
}

/// The number the decimal digits of `s` denote (most significant first).
pub open spec fn digits_val(s: Seq<u8>) -> int
    decreases s.len(),
{
    if s.len() == 0 {
        0
    } else {
        digits_val(s.take(s.len() - 1)) * 10 + (s[s.len() - 1] - 0x30)
    }
}

/// Digits denote a nonnegative number.
pub proof fn lemma_digits_val_nonneg(s: Seq<u8>)
    requires
        forall|i: int| 0 <= i < s.len() ==> is_digit(#[trigger] s[i]),
    ensures
        digits_val(s) >= 0,
    decreases s.len(),
{
    if s.len() != 0 {
        lemma_digits_val_nonneg(s.take(s.len() - 1));
    }
}

/// The value an integer token parses to, when it does: an optional sign,
/// then at least one digit and nothing else, denoting a value in `i32`
/// range; `None` otherwise.
pub open spec fn parse_i32_spec(s: Seq<u8>) -> Option<int> {
    if s.len() > 0 && (s[0] == 0x2b || s[0] == 0x2d) {
        parse_i32_digits(s.skip(1), if s[0] == 0x2d {
            -1int
        } else {
            1int
        })
    } else {
        parse_i32_digits(s, 1)
    }
}

/// The signed value of a digit sequence, in `i32` range; `None` when it is
/// empty, holds a non-digit, or denotes a value out of range.
pub open spec fn parse_i32_digits(digits: Seq<u8>, sign: int) -> Option<int> {
    if digits.len() == 0 {
        None
    } else if exists|i: int| 0 <= i < digits.len() && !is_digit(#[trigger] digits[i]) {
        None
    } else if -0x8000_0000 <= sign * digits_val(digits) <= 0x7fff_ffff {
        Some(sign * digits_val(digits))
    } else {
        None
    }
}

/// Parses an integer token as the mesh format reads one.
#[verifier::loop_isolation(false)]
fn parse_i32_exec(s: &Vec<u8>) -> (r: Option<i32>)
    ensures
        match r {
            Some(v) => parse_i32_spec(s@) == Some(v as int),
            None => parse_i32_spec(s@) is None,
        },
{
    let mut start: usize = 0;
    let mut negative = false;
    if s.len() > 0 && (s[0] == 0x2b || s[0] == 0x2d) {
        negative = s[0] == 0x2d;
        start = 1;
    }
    let ghost digits = s@.skip(start as int);
    let ghost sign: int = if negative {
        -1
    } else {
        1
    };
    proof {
        assert(s@.skip(0) =~= s@);
        assert(digits.len() == s@.len() - start);
        assert(parse_i32_spec(s@) == parse_i32_digits(digits, sign));
    }
    if start == s.len() {
        return None;
    }
    // every remaining byte must be a digit
    let mut k = start;
    while k < s.len()
        invariant
            start <= k <= s.len(),
            forall|i: int| start <= i < k ==> is_digit(#[trigger] s@[i]),
        decreases s.len() - k,
    {
        if !(0x30 <= s[k] && s[k] <= 0x39) {
            proof {
                assert(digits[k - start] == s@[k as int]);
                assert(!is_digit(digits[k - start]));
            }
            return None;
        }
        k = k + 1;
    }
    proof {
        assert(forall|i: int| 0 <= i < digits.len() ==> is_digit(#[trigger] digits[i]));
    }
    // accumulate, saturating just above the i32 magnitude range so that an
    // overlong token still compares as out of range
    let mut acc: u64 = 0;
    let mut k2 = start;
    while k2 < s.len()
        invariant
            start <= k2 <= s.len(),
            forall|i: int| start <= i < s.len() ==> is_digit(#[trigger] s@[i]),
            acc <= 0x1_0000_0001,
            digits_val(s@.subrange(start as int, k2 as int)) <= 0x1_0000_0000 ==> acc == digits_val(
                s@.subrange(start as int, k2 as int),
            ),
            digits_val(s@.subrange(start as int, k2 as int)) > 0x1_0000_0000 ==> acc
                > 0x1_0000_0000,
        decreases s.len() - k2,
    {
        let d = s[k2] - 0x30;
        proof {
            let p = s@.subrange(start as int, k2 as int);
            assert(p.push(s@[k2 as int]) =~= s@.subrange(start as int, k2 as int + 1));
            assert(digits_val(p.push(s@[k2 as int])) == digits_val(p) * 10 + (s@[k2 as int] - 0x30))
                by {
                assert(p.push(s@[k2 as int]).take(p.len() as int) =~= p);
            }
            lemma_digits_val_nonneg(p);
        }
        acc = acc * 10 + (d as u64);
        if acc > 0x1_0000_0000 {
            acc = 0x1_0000_0001;
        }
        k2 = k2 + 1;
    }
    proof {
        assert(s@.subrange(start as int, s@.len() as int) =~= digits);
        lemma_digits_val_nonneg(digits);
    }
    if negative {
        if acc > 0x8000_0000 {
            None
        } else if acc == 0x8000_0000 {
            Some(i32::MIN)
        } else {
            Some(-(acc as i32))
        }
    } else {
        if acc > 0x7fff_ffff {
            None
        } else {
            Some(acc as i32)
        }
    }
}

/// The 0-based vertex index a face token denotes: the first `/`-separated
/// field read as an integer (0 when it does not parse), made 1-based by
/// subtracting one, clamped below at 0.
pub open spec fn face_index(s: Seq<u8>) -> int {
    let idx = match parse_i32_spec(s.take(run_len(s, slash_sep()))) {
        Some(v) => v,
        None => 0,
    };
    if idx >= 1 {
        idx - 1
    } else {
        0
    }
}

/// Resolves one face token to its 0-based vertex index.
#[verifier::loop_isolation(false)]
fn face_index_exec(s: &Vec<u8>) -> (r: usize)
    ensures
        r as int == face_index(s@),
{
    // the first `/`-separated field
    let mut j: usize = 0;
    while j < s.len() && s[j] != 0x2f
        invariant
            j <= s.len(),
            forall|i: int| 0 <= i < j ==> s@[i] != 0x2f,
        decreases s.len() - j,
    {
        j = j + 1;
    }
    proof {
        let sl = slash_sep();
        assert(forall|i: int| 0 <= i < j ==> !sl(#[trigger] s@[i]));
        lemma_run_len_at(s@, sl, j as int);
    }
    let mut field: Vec<u8> = Vec::new();
    let mut k: usize = 0;
    while k < j
        invariant
            k <= j <= s.len(),
            field@ == s@.subrange(0, k as int),
        decreases j - k,
    {
        field.push(s[k]);
        proof {
            assert(s@.subrange(0, k as int).push(s@[k as int]) =~= s@.subrange(0, k as int + 1));
        }
        k = k + 1;
    }
    proof {
        assert(field@ =~= s@.take(run_len(s@, slash_sep())));
    }
    match parse_i32_exec(&field) {
        Some(v) => {
            if v >= 1 {
                (v - 1) as usize
            } else {
                0
            }
        },
        None => 0,
    }
}

/// The vertex-position tokens of a mesh line, when it is a vertex line: a
/// `v` keyword followed by at least three tokens.
pub open spec fn line_vertex(ts: Seq<Seq<u8>>) -> Option<(Seq<u8>, Seq<u8>, Seq<u8>)> {
    if ts.len() >= 4 && ts[0] == seq![0x76u8] {
        Some((ts[1], ts[2], ts[3]))
    } else {
        None
    }
}

/// The face of a mesh line, when it is a face line: an `f` keyword
/// followed by at least three tokens, each resolved by [`face_index`].
pub open spec fn line_face(ts: Seq<Seq<u8>>) -> Option<(int, int, int)> {
    if ts.len() >= 4 && ts[0] == seq![0x66u8] {
        Some((face_index(ts[1]), face_index(ts[2]), face_index(ts[3])))
    } else {
        None
    }
}

/// The vertex token triples of all vertex lines, in order.
pub open spec fn mesh_vertices(ls: Seq<Seq<u8>>) -> Seq<(Seq<u8>, Seq<u8>, Seq<u8>)>
    decreases ls.len(),
{
    if ls.len() == 0 {
        Seq::empty()
    } else {
        mesh_vertices(ls.drop_last()) + (match line_vertex(tokens_of(ls.last())) {
            Some(v) => seq![v],
            None => Seq::empty(),
        })
    }
}

/// The faces of all face lines, in order.
pub open spec fn mesh_faces(ls: Seq<Seq<u8>>) -> Seq<(int, int, int)>
    decreases ls.len(),
{
    if ls.len() == 0 {
        Seq::empty()
    } else {
        mesh_faces(ls.drop_last()) + (match line_face(tokens_of(ls.last())) {
            Some(f) => seq![f],
            None => Seq::empty(),
        })
    }
}

/// The vertex token triples a mesh text holds.
pub open spec fn obj_vertices(text: Seq<u8>) -> Seq<(Seq<u8>, Seq<u8>, Seq<u8>)> {
    mesh_vertices(lines_of(text))
}

/// The faces a mesh text holds, 0-based.
pub open spec fn obj_faces(text: Seq<u8>) -> Seq<(int, int, int)> {
    mesh_faces(lines_of(text))
}

/// The three coordinate tokens of one vertex line, verbatim.
#[derive(PartialEq, Eq, Debug)]
pub struct VertexTokens {
    pub x: Vec<u8>,
    pub y: Vec<u8>,
    pub z: Vec<u8>,
}

/// A triangular face: three 0-based indices into the vertex list.
#[derive(Clone, Copy, PartialEq, Eq, Structural, Debug)]
pub struct Face {
    pub v0: usize,
    pub v1: usize,
    pub v2: usize,
}

/// Parses a mesh text: the vertex token triples of its `v` lines and the
/// resolved faces of its `f` lines, each in text order. Lines of any other
/// kind, and `v` or `f` lines with fewer than three data tokens, are
/// ignored.
#[verifier::loop_isolation(false)]
pub fn parse_obj(text: &Vec<u8>) -> (r: (Vec<VertexTokens>, Vec<Face>))
    ensures
        r.0@.len() == obj_vertices(text@).len(),
        forall|i: int|
            0 <= i < r.0@.len() ==> #[trigger] r.0@[i].x@ == obj_vertices(text@)[i].0 && r.0@[i].y@
                == obj_vertices(text@)[i].1 && r.0@[i].z@ == obj_vertices(text@)[i].2,
        r.1@.len() == obj_faces(text@).len(),
        forall|i: int|
            0 <= i < r.1@.len() ==> #[trigger] r.1@[i].v0 == obj_faces(text@)[i].0 && r.1@[i].v1
                == obj_faces(text@)[i].1 && r.1@[i].v2 == obj_faces(text@)[i].2,
{
    let lines = split_lines_exec(text);
    let ghost lv = lines_of(text@);
    let mut vertices: Vec<VertexTokens> = Vec::new();
    let mut faces: Vec<Face> = Vec::new();
    let mut li: usize = 0;
    while li < lines.len()
        invariant
            li <= lines.len(),
            lines@.len() == lv.len(),
            forall|i: int| 0 <= i < lv.len() ==> #[trigger] lines@[i]@ == lv[i],
            vertices@.len() == mesh_vertices(lv.take(li as int)).len(),
            forall|i: int|
                0 <= i < vertices@.len() ==> #[trigger] vertices@[i].x@ == mesh_vertices(
                    lv.take(li as int),
                )[i].0 && vertices@[i].y@ == mesh_vertices(lv.take(li as int))[i].1
                    && vertices@[i].z@ == mesh_vertices(lv.take(li as int))[i].2,
            faces@.len() == mesh_faces(lv.take(li as int)).len(),
            forall|i: int|
                0 <= i < faces@.len() ==> #[trigger] faces@[i].v0 == mesh_faces(
                    lv.take(li as int),
                )[i].0 && faces@[i].v1 == mesh_faces(lv.take(li as int))[i].1 && faces@[i].v2
                    == mesh_faces(lv.take(li as int))[i].2,
        decreases lines.len() - li,
    {
        let ghost prefix = lv.take(li as int);
        let ghost ts = tokens_of(lv[li as int]);
        let mut tokens = split_tokens_exec(&lines[li]);
        proof {
            assert(lv.take(li as int + 1).drop_last() =~= prefix);
            assert(lv.take(li as int + 1).last() == lv[li as int]);
        }
        if tokens.len() >= 4 && tokens[0].len() == 1 && tokens[0][0] == 0x76 {
            // a vertex line: keep its first three coordinate tokens
            proof {
                assert(ts[0] =~= seq![0x76u8]);
                assert(line_vertex(ts) == Some((ts[1], ts[2], ts[3])));
                assert(mesh_vertices(lv.take(li as int + 1)) =~= mesh_vertices(prefix) + seq![
                    (ts[1], ts[2], ts[3]),
                ]);
                assert(mesh_faces(lv.take(li as int + 1)) =~= mesh_faces(prefix));
            }
            let tx = tokens.remove(1);
            let ty = tokens.remove(1);
            let tz = tokens.remove(1);
            let ghost vprev = vertices@;
            vertices.push(VertexTokens { x: tx, y: ty, z: tz });
            proof {
                let nv = mesh_vertices(lv.take(li as int + 1));
                assert forall|q: int|
                    0 <= q < vertices@.len() implies #[trigger] vertices@[q].x@ == nv[q].0
                    && vertices@[q].y@ == nv[q].1 && vertices@[q].z@ == nv[q].2 by {
                    if q < vprev.len() {
                        assert(vertices@[q] == vprev[q]);
                        assert(vprev[q].x@ == mesh_vertices(prefix)[q].0 && vprev[q].y@
                            == mesh_vertices(prefix)[q].1 && vprev[q].z@ == mesh_vertices(
                            prefix,
                        )[q].2);
                        assert(nv[q] == mesh_vertices(prefix)[q]);
                    } else {
                        assert(nv[q] == (ts[1], ts[2], ts[3]));
                    }
                }
            }
        } else if tokens.len() >= 4 && tokens[0].len() == 1 && tokens[0][0] == 0x66 {
            // a face line: resolve its first three index tokens
            proof {
                assert(ts[0] =~= seq![0x66u8]);
                assert(ts[0] != seq![0x76u8]);
                assert(line_face(ts) == Some((face_index(ts[1]), face_index(ts[2]), face_index(
                    ts[3],
                ))));
                assert(mesh_faces(lv.take(li as int + 1)) =~= mesh_faces(prefix) + seq![
                    (face_index(ts[1]), face_index(ts[2]), face_index(ts[3])),
                ]);
                assert(mesh_vertices(lv.take(li as int + 1)) =~= mesh_vertices(prefix));
            }
            let f0 = face_index_exec(&tokens[1]);
            let f1 = face_index_exec(&tokens[2]);
            let f2 = face_index_exec(&tokens[3]);
            let ghost fprev = faces@;
            faces.push(Face { v0: f0, v1: f1, v2: f2 });
            proof {
                let nf = mesh_faces(lv.take(li as int + 1));
                assert forall|q: int|
                    0 <= q < faces@.len() implies #[trigger] faces@[q].v0 == nf[q].0 && faces@[q].v1
                    == nf[q].1 && faces@[q].v2 == nf[q].2 by {
                    if q < fprev.len() {
                        assert(faces@[q] == fprev[q]);
                        assert(fprev[q].v0 == mesh_faces(prefix)[q].0 && fprev[q].v1 == mesh_faces(
                            prefix,
                        )[q].1 && fprev[q].v2 == mesh_faces(prefix)[q].2);
                        assert(nf[q] == mesh_faces(prefix)[q]);
                    } else {
                        assert(nf[q] == (face_index(ts[1]), face_index(ts[2]), face_index(ts[3])));
                    }
                }
            }
        } else {
            // any other line is ignored
            proof {
                if ts.len() >= 4 {
                    assert(ts[0] != seq![0x76u8] && ts[0] != seq![0x66u8]) by {
                        if tokens@[0]@.len() == 1 {
                            assert(tokens@[0]@[0] != 0x76 && tokens@[0]@[0] != 0x66);
                        }
                    }
                }
                assert(mesh_vertices(lv.take(li as int + 1)) =~= mesh_vertices(prefix));
                assert(mesh_faces(lv.take(li as int + 1)) =~= mesh_faces(prefix));
            }
        }
        li = li + 1;
    }
    proof {
        assert(lv.take(lines@.len() as int) =~= lv);
    }
    (vertices, faces)
}

} // verus!
