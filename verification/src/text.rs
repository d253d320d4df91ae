//! The text side of the codec, reading direction.
//!
//! The input is consumed line by line (lines end at a line feed). A line
//! beginning with `"v "` contributes a vertex, `"vn "` a normal, `"f "` a
//! face; the 2nd, 3rd and 4th whitespace-separated tokens are its fields.
//! Any other line is ignored. Face fields are parsed here as signed 32-bit
//! decimal integers; vertex and normal fields are handed out as raw tokens,
//! since their decimal-to-float conversion is outside this library.
//!
//! Error policy: the first malformed record line (too few tokens, or a face
//! field that is not a valid integer) aborts the whole parse.

use vstd::prelude::*;
use vstd::slice::{slice_subrange, slice_to_vec};

use crate::mesh::Face;

verus! {

/// Why a text parse was rejected.
#[derive(Clone, Copy, PartialEq, Eq, Structural, Debug)]
pub enum TextError {
    /// A record line has fewer than four whitespace-separated tokens
    /// (keyword plus three fields).
    MissingFields,
    /// A face field is not a valid signed 32-bit decimal integer.
    BadInteger,
}

// ---------------------------------------------------------------------------
// Whitespace and token splitting.
// ---------------------------------------------------------------------------

/// Token-separating whitespace: space, horizontal tab, carriage return.
/// (Line feeds separate lines and never reach the tokenizer.)
pub open spec fn is_ws(c: u8) -> bool {
    c == 32 || c == 9 || c == 13
}

/// The number of leading bytes of `s` for which `stop` is false.
pub open spec fn run_len(s: Seq<u8>, stop: spec_fn(u8) -> bool) -> int
    decreases s.len(),
{
    if s.len() == 0 || stop(s[0]) {
        0
    } else {
        1 + run_len(s.skip(1), stop)
    }
}

pub proof fn lemma_run_len_bounds(s: Seq<u8>, stop: spec_fn(u8) -> bool)
    ensures
        0 <= run_len(s, stop) <= s.len(),
    decreases s.len(),
{
    if s.len() > 0 && !stop(s[0]) {
        lemma_run_len_bounds(s.skip(1), stop);
    }
}

/// `run_len` is the unique `k` with no stop byte before it and a stop byte
/// (or the end) at it.
pub proof fn lemma_run_len_is_run(s: Seq<u8>, stop: spec_fn(u8) -> bool, k: int)
    requires
        0 <= k <= s.len(),
        forall|j: int| 0 <= j < k ==> !stop(#[trigger] s[j]),
        k == s.len() || stop(s[k]),
    ensures
        run_len(s, stop) == k,
    decreases k,
{
    if k > 0 {
        assert(!stop(s[0]));
        assert forall|j: int| 0 <= j < k - 1 implies !stop(#[trigger] s.skip(1)[j]) by {
            assert(s.skip(1)[j] == s[j + 1]);
        }
        if k < s.len() {
            assert(s.skip(1)[k - 1] == s[k]);
        }
        lemma_run_len_is_run(s.skip(1), stop, k - 1);
    }
}

/// The whitespace predicate, as a function value for `run_len`.
pub open spec fn ws_stop() -> spec_fn(u8) -> bool {
    |c: u8| is_ws(c)
}

/// The length of the token at the head of `s` (0 if `s` starts with
/// whitespace or is empty).
pub open spec fn token_len(s: Seq<u8>) -> int {
    run_len(s, ws_stop())
}

/// The whitespace-separated tokens of `s`, in order.
pub open spec fn spec_tokens(s: Seq<u8>) -> Seq<Seq<u8>>
    decreases s.len(),
    via spec_tokens_decreases
{
    if s.len() == 0 {
        Seq::empty()
    } else if is_ws(s[0]) {
        spec_tokens(s.skip(1))
    } else {
        seq![s.take(token_len(s))] + spec_tokens(s.skip(token_len(s)))
    }
}

#[via_fn]
proof fn spec_tokens_decreases(s: Seq<u8>) {
    lemma_run_len_bounds(s, ws_stop());
    if s.len() > 0 && !is_ws(s[0]) {
        lemma_run_len_bounds(s.skip(1), ws_stop());
        assert(!ws_stop()(s[0]));
        assert(run_len(s, ws_stop()) == 1 + run_len(s.skip(1), ws_stop()));
    }
}

/// The views of a sequence of byte vectors.
pub open spec fn views_of(ts: Seq<Vec<u8>>) -> Seq<Seq<u8>> {
    ts.map_values(|t: Vec<u8>| t@)
}

/// Splits `line` into its whitespace-separated tokens.
pub fn tokenize(line: &[u8]) -> (toks: Vec<Vec<u8>>)
    ensures
        views_of(toks@) == spec_tokens(line@),
{
    let n = line.len();
    let mut toks: Vec<Vec<u8>> = Vec::new();
    let mut p: usize = 0;
    proof {
        assert(line@.skip(0) =~= line@);
        assert(views_of(toks@) + spec_tokens(line@) =~= spec_tokens(line@));
    }
    while p < n
        invariant
            p <= n,
            n == line@.len(),
            spec_tokens(line@) == views_of(toks@) + spec_tokens(line@.skip(p as int)),
        decreases n - p,
    {
        let c = line[p];
        if c == 32 || c == 9 || c == 13 {
            proof {
                let t = line@.skip(p as int);
                assert(t[0] == line@[p as int]);
                assert(t.skip(1) =~= line@.skip(p as int + 1));
                assert(spec_tokens(t) == spec_tokens(line@.skip(p as int + 1)));
            }
            p = p + 1;
        } else {
            let start = p;
            let mut q = p + 1;
            while q < n && !(line[q] == 32 || line[q] == 9 || line[q] == 13)
                invariant
                    start < q <= n,
                    n == line@.len(),
                    !is_ws(line@[start as int]),
                    forall|j: int| start <= j < q ==> !is_ws(#[trigger] line@[j]),
                decreases n - q,
            {
                q = q + 1;
            }
            let tok = slice_to_vec(slice_subrange(line, start, q));
            proof {
                let t = line@.skip(start as int);
                let k = q - start;
                assert forall|j: int| 0 <= j < k implies !ws_stop()(#[trigger] t[j]) by {
                    assert(t[j] == line@[start + j]);
                }
                if q < n {
                    assert(t[k] == line@[q as int]);
                }
                lemma_run_len_is_run(t, ws_stop(), k);
                assert(!is_ws(t[0]));
                assert(t.take(k) =~= line@.subrange(start as int, q as int));
                assert(t.skip(k) =~= line@.skip(q as int));
                assert(spec_tokens(t) == seq![line@.subrange(start as int, q as int)]
                    + spec_tokens(line@.skip(q as int)));
                assert(views_of(toks@.push(tok)) =~= views_of(toks@).push(tok@));
                assert(views_of(toks@).push(tok@) + spec_tokens(line@.skip(q as int)) =~= views_of(
                    toks@,
                ) + spec_tokens(line@.skip(start as int)));
            }
            toks.push(tok);
            p = q;
        }
    }
    proof {
        assert(line@.skip(n as int) =~= Seq::<u8>::empty());
        assert(views_of(toks@) + spec_tokens(Seq::<u8>::empty()) =~= views_of(toks@));
    }
    toks
}

// ---------------------------------------------------------------------------
// Signed 32-bit decimal integers.
// ---------------------------------------------------------------------------

/// An ASCII decimal digit.
pub open spec fn is_digit(c: u8) -> bool {
    48 <= c && c <= 57
}

pub open spec fn all_digits(d: Seq<u8>) -> bool {
    forall|i: int| 0 <= i < d.len() ==> is_digit(#[trigger] d[i])
}

/// The value of a digit string (most significant digit first).
pub open spec fn dec_val(d: Seq<u8>) -> int
    decreases d.len(),
{
    if d.len() == 0 {
        0
    } else {
        dec_val(d.drop_last()) * 10 + (d.last() - 48)
    }
}

/// The token after an optional leading sign.
pub open spec fn spec_digits_part(t: Seq<u8>) -> Seq<u8> {
    if t.len() > 0 && (t[0] == 43 || t[0] == 45) {
        t.skip(1)
    } else {
        t
    }
}

pub open spec fn spec_is_neg(t: Seq<u8>) -> bool {
    t.len() > 0 && t[0] == 45
}

/// The signed value a token denotes (meaningful when its digits are valid).
pub open spec fn spec_signed_val(t: Seq<u8>) -> int {
    if spec_is_neg(t) {
        -dec_val(spec_digits_part(t))
    } else {
        dec_val(spec_digits_part(t))
    }
}

/// The signed 32-bit integer a token denotes: an optional `+` or `-`
/// followed by one or more decimal digits, whose value fits in an `i32` —
/// exactly the tokens that `str::parse::<i32>` accepts.
pub open spec fn spec_parse_i32(t: Seq<u8>) -> Option<i32> {
    let d = spec_digits_part(t);
    if d.len() == 0 || !all_digits(d) {
        None
    } else if spec_signed_val(t) < -0x8000_0000 || spec_signed_val(t) > 0x7fff_ffff {
        None
    } else {
        Some(spec_signed_val(t) as i32)
    }
}

pub proof fn lemma_dec_val_nonneg(d: Seq<u8>)
    requires
        all_digits(d),
    ensures
        dec_val(d) >= 0,
    decreases d.len(),
{
    if d.len() > 0 {
        assert(all_digits(d.drop_last())) by {
            assert(forall|i: int|
                0 <= i < d.len() - 1 ==> #[trigger] d.drop_last()[i] == d[i]);
        }
        lemma_dec_val_nonneg(d.drop_last());
    }
}

/// Parses a token as a signed 32-bit decimal integer.
pub fn parse_i32(t: &[u8]) -> (r: Option<i32>)
    ensures
        r == spec_parse_i32(t@),
{
    let len = t.len();
    if len == 0 {
        return None;
    }
    let c0 = t[0];
    let neg = c0 == 45;
    let start: usize = if c0 == 45 || c0 == 43 {
        1
    } else {
        0
    };
    if start == len {
        return None;
    }
    let ghost d = spec_digits_part(t@);
    proof {
        assert(d =~= t@.skip(start as int));
    }
    let mut i = start;
    let mut acc: u64 = 0;
    let mut over = false;
    proof {
        assert(d.take(0) =~= Seq::<u8>::empty());
    }
    while i < len
        invariant
            start <= i <= len,
            start < len,
            len == t@.len(),
            d == spec_digits_part(t@),
            d =~= t@.skip(start as int),
            d.len() == len - start,
            forall|j: int| 0 <= j < i - start ==> is_digit(#[trigger] d[j]),
            !over ==> acc == dec_val(d.take(i - start)) && acc <= 0x8000_0000,
            over ==> dec_val(d.take(i - start)) > 0x8000_0000,
        decreases len - i,
    {
        let c = t[i];
        proof {
            assert(d[i - start] == t@[i as int]);
        }
        if c < 48 || c > 57 {
            proof {
                assert(!is_digit(d[i - start]));
                assert(!all_digits(d));
            }
            return None;
        }
        proof {
            let k = i - start;
            assert(d.take(k + 1).drop_last() =~= d.take(k));
            assert(d.take(k + 1).last() == d[k]);
            assert(dec_val(d.take(k + 1)) == dec_val(d.take(k)) * 10 + (d[k] - 48));
        }
        if !over {
            acc = acc * 10 + ((c - 48) as u64);
            if acc > 0x8000_0000 {
                over = true;
            }
        }
        i = i + 1;
    }
    proof {
        assert(d.take(len - start) =~= d);
        assert(all_digits(d));
        lemma_dec_val_nonneg(d);
    }
    if over {
        return None;
    }
    if neg {
        Some((-(acc as i64)) as i32)
    } else {
        if acc > 0x7fff_ffff {
            None
        } else {
            Some(acc as i32)
        }
    }
}

// ---------------------------------------------------------------------------
// Lines.
// ---------------------------------------------------------------------------

/// The line-feed predicate, as a function value for `run_len`.
pub open spec fn nl_stop() -> spec_fn(u8) -> bool {
    |c: u8| c == 10
}

/// The length of the first line of `s` (up to a line feed or the end).
pub open spec fn line_len(s: Seq<u8>) -> int {
    run_len(s, nl_stop())
}

/// The lines of `s`: maximal line-feed-free runs, the separating line feeds
/// dropped, a final line without a terminator included.
pub open spec fn spec_lines(s: Seq<u8>) -> Seq<Seq<u8>>
    decreases s.len(),
    via spec_lines_decreases
{
    if s.len() == 0 {
        Seq::empty()
    } else if line_len(s) == s.len() {
        seq![s]
    } else {
        seq![s.take(line_len(s))] + spec_lines(s.skip(line_len(s) + 1))
    }
}

#[via_fn]
proof fn spec_lines_decreases(s: Seq<u8>) {
    lemma_run_len_bounds(s, nl_stop());
}

// ---------------------------------------------------------------------------
// Line classification and per-line errors.
// ---------------------------------------------------------------------------

/// The line begins with `"v "` (byte 118 then a space).
pub open spec fn line_is_vertex(l: Seq<u8>) -> bool {
    l.len() >= 2 && l[0] == 118 && l[1] == 32
}

/// The line begins with `"vn "`, checked as its own prefix so such a line is
/// never taken for a vertex (the second byte differs).
pub open spec fn line_is_normal(l: Seq<u8>) -> bool {
    l.len() >= 3 && l[0] == 118 && l[1] == 110 && l[2] == 32
}

/// The line begins with `"f "` (byte 102 then a space).
pub open spec fn line_is_face(l: Seq<u8>) -> bool {
    l.len() >= 2 && l[0] == 102 && l[1] == 32
}

/// The error a line contributes, if any: record lines need at least four
/// tokens, and face fields must be valid integers. Other lines are ignored
/// and never in error.
pub open spec fn spec_line_error(l: Seq<u8>) -> Option<TextError> {
    if line_is_vertex(l) || line_is_normal(l) {
        if spec_tokens(l).len() < 4 {
            Some(TextError::MissingFields)
        } else {
            None
        }
    } else if line_is_face(l) {
        let ts = spec_tokens(l);
        if ts.len() < 4 {
            Some(TextError::MissingFields)
        } else if spec_parse_i32(ts[1]) is None || spec_parse_i32(ts[2]) is None
            || spec_parse_i32(ts[3]) is None {
            Some(TextError::BadInteger)
        } else {
            None
        }
    } else {
        None
    }
}

/// The error of the first line in error, if any.
pub open spec fn spec_first_error(lines: Seq<Seq<u8>>) -> Option<TextError>
    decreases lines.len(),
{
    if lines.len() == 0 {
        None
    } else if spec_line_error(lines[0]) is Some {
        spec_line_error(lines[0])
    } else {
        spec_first_error(lines.skip(1))
    }
}

/// If the first `i` lines are error-free, the first error is decided at `i`.
pub proof fn lemma_first_error_split(lines: Seq<Seq<u8>>, i: int)
    requires
        0 <= i <= lines.len(),
        forall|j: int| 0 <= j < i ==> spec_line_error(#[trigger] lines[j]) is None,
    ensures
        i == lines.len() ==> spec_first_error(lines) is None,
        i < lines.len() && spec_line_error(lines[i]) is Some ==> spec_first_error(lines)
            == spec_line_error(lines[i]),
    decreases i,
{
    if i == 0 {
    } else {
        assert(spec_line_error(lines[0]) is None);
        assert forall|j: int| 0 <= j < i - 1 implies spec_line_error(
            #[trigger] lines.skip(1)[j],
        ) is None by {
            assert(lines.skip(1)[j] == lines[j + 1]);
        }
        lemma_first_error_split(lines.skip(1), i - 1);
        if i < lines.len() {
            assert(lines.skip(1)[i - 1] == lines[i]);
        }
    }
}

// ---------------------------------------------------------------------------
// Records.
// ---------------------------------------------------------------------------

/// The model of everything a text parse extracts: vertex and normal field
/// tokens (their float conversion is outside this library) and parsed faces,
/// each group in input order.
#[verifier::ext_equal]
pub ghost struct RawRecords {
    pub vertex_tokens: Seq<(Seq<u8>, Seq<u8>, Seq<u8>)>,
    pub normal_tokens: Seq<(Seq<u8>, Seq<u8>, Seq<u8>)>,
    pub faces: Seq<Face>,
}

pub open spec fn empty_records() -> RawRecords {
    RawRecords { vertex_tokens: Seq::empty(), normal_tokens: Seq::empty(), faces: Seq::empty() }
}

/// What one line adds to the records: a well-formed vertex, normal or face
/// line appends its record; every other line (including a malformed record
/// line, which the parser reports instead) adds nothing.
pub open spec fn record_step(r: RawRecords, l: Seq<u8>) -> RawRecords {
    let ts = spec_tokens(l);
    if line_is_vertex(l) && ts.len() >= 4 {
        RawRecords { vertex_tokens: r.vertex_tokens.push((ts[1], ts[2], ts[3])), ..r }
    } else if line_is_normal(l) && ts.len() >= 4 {
        RawRecords { normal_tokens: r.normal_tokens.push((ts[1], ts[2], ts[3])), ..r }
    } else if line_is_face(l) && ts.len() >= 4 && spec_parse_i32(ts[1]) is Some && spec_parse_i32(
        ts[2],
    ) is Some && spec_parse_i32(ts[3]) is Some {
        RawRecords {
            faces: r.faces.push(
                Face {
                    v1: spec_parse_i32(ts[1])->Some_0,
                    v2: spec_parse_i32(ts[2])->Some_0,
                    v3: spec_parse_i32(ts[3])->Some_0,
                },
            ),
            ..r
        }
    } else {
        r
    }
}

/// The records of a sequence of lines, in order.
pub open spec fn spec_records(lines: Seq<Seq<u8>>) -> RawRecords
    decreases lines.len(),
{
    if lines.len() == 0 {
        empty_records()
    } else {
        record_step(spec_records(lines.drop_last()), lines.last())
    }
}

pub proof fn lemma_records_take_step(lines: Seq<Seq<u8>>, i: int)
    requires
        0 <= i < lines.len(),
    ensures
        spec_records(lines.take(i + 1)) == record_step(spec_records(lines.take(i)), lines[i]),
{
    assert(lines.take(i + 1).drop_last() =~= lines.take(i));
    assert(lines.take(i + 1).last() == lines[i]);
}

// ---------------------------------------------------------------------------
// Executable text parser.
// ---------------------------------------------------------------------------

/// Three field tokens of one vertex or normal line, still as text.
pub struct Tok3 {
    pub a: Vec<u8>,
    pub b: Vec<u8>,
    pub c: Vec<u8>,
}

impl View for Tok3 {
    type V = (Seq<u8>, Seq<u8>, Seq<u8>);

    open spec fn view(&self) -> (Seq<u8>, Seq<u8>, Seq<u8>) {
        (self.a@, self.b@, self.c@)
    }
}

/// The views of a sequence of token triples.
pub open spec fn tok3_views(ts: Seq<Tok3>) -> Seq<(Seq<u8>, Seq<u8>, Seq<u8>)> {
    ts.map_values(|t: Tok3| t@)
}

/// Everything a text parse extracts, executable side.
pub struct RawMesh {
    pub vertex_tokens: Vec<Tok3>,
    pub normal_tokens: Vec<Tok3>,
    pub faces: Vec<Face>,
}

/// The records a `RawMesh` holds.
pub open spec fn raw_mesh_records(rm: RawMesh) -> RawRecords {
    RawRecords {
        vertex_tokens: tok3_views(rm.vertex_tokens@),
        normal_tokens: tok3_views(rm.normal_tokens@),
        faces: rm.faces@,
    }
}

/// Parses OBJ-style text: returns the records of its lines in order, or the
/// error of the first malformed record line (which aborts the parse).
pub fn parse_text(input: &[u8]) -> (r: Result<RawMesh, TextError>)
    ensures
        match r {
            Ok(rm) => spec_first_error(spec_lines(input@)) is None && raw_mesh_records(rm)
                == spec_records(spec_lines(input@)),
            Err(e) => spec_first_error(spec_lines(input@)) == Some(e),
        },
{
    let ghost lines = spec_lines(input@);
    let n = input.len();
    let mut vts: Vec<Tok3> = Vec::new();
    let mut nts: Vec<Tok3> = Vec::new();
    let mut fs: Vec<Face> = Vec::new();
    let mut p: usize = 0;
    let ghost li: int = 0;
    proof {
        assert(input@.skip(0) =~= input@);
        assert(lines.take(0) =~= Seq::<Seq<u8>>::empty());
        assert(lines =~= lines.take(0) + spec_lines(input@.skip(0)));
        assert(tok3_views(vts@) =~= Seq::<(Seq<u8>, Seq<u8>, Seq<u8>)>::empty());
        assert(tok3_views(nts@) =~= Seq::<(Seq<u8>, Seq<u8>, Seq<u8>)>::empty());
    }
    while p < n
        invariant
            p <= n,
            n == input@.len(),
            lines == spec_lines(input@),
            0 <= li <= lines.len(),
            lines == lines.take(li) + spec_lines(input@.skip(p as int)),
            forall|j: int| 0 <= j < li ==> spec_line_error(#[trigger] lines[j]) is None,
            tok3_views(vts@) == spec_records(lines.take(li)).vertex_tokens,
            tok3_views(nts@) == spec_records(lines.take(li)).normal_tokens,
            fs@ == spec_records(lines.take(li)).faces,
        decreases n - p,
    {
        // find the end of the current line
        let start = p;
        let mut q = p;
        while q < n && line_byte_is_not_nl(input, q)
            invariant
                start <= q <= n,
                n == input@.len(),
                forall|j: int| start <= j < q ==> input@[j] != 10,
            decreases n - q,
        {
            q = q + 1;
        }
        let ghost t = input@.skip(start as int);
        let ghost line_seq = input@.subrange(start as int, q as int);
        proof {
            let k = q - start;
            assert forall|j: int| 0 <= j < k implies !nl_stop()(#[trigger] t[j]) by {
                assert(t[j] == input@[start + j]);
            }
            if q < n {
                assert(t[k] == input@[q as int]);
            }
            lemma_run_len_is_run(t, nl_stop(), k);
            assert(t.take(k) =~= line_seq);
            if q == n {
                assert(t =~= line_seq);
                assert(spec_lines(t) == seq![line_seq]);
            } else {
                assert(t.skip(k + 1) =~= input@.skip(q as int + 1));
                assert(spec_lines(t) == seq![line_seq] + spec_lines(input@.skip(q as int + 1)));
            }
            // the current line is lines[li]
            assert(lines[li] == line_seq);
            assert(lines.take(li + 1) =~= lines.take(li).push(line_seq));
            lemma_records_take_step(lines, li);
        }
        let line = slice_subrange(input, start, q);
        let llen = q - start;

        let kind: u8 = if llen >= 2 && line[0] == 118 && line[1] == 32 {
            1
        } else if llen >= 3 && line[0] == 118 && line[1] == 110 && line[2] == 32 {
            2
        } else if llen >= 2 && line[0] == 102 && line[1] == 32 {
            3
        } else {
            0
        };

        if kind == 1 || kind == 2 {
            let mut toks = tokenize(line);
            if toks.len() < 4 {
                proof {
                    assert(spec_tokens(line_seq).len() < 4);
                    assert(spec_line_error(lines[li]) == Some(TextError::MissingFields));
                    lemma_first_error_split(lines, li);
                }
                return Err(TextError::MissingFields);
            }
            let t1 = toks.remove(1);
            let t2 = toks.remove(1);
            let t3 = toks.remove(1);
            proof {
                let ts = spec_tokens(line_seq);
                assert(t1@ == ts[1] && t2@ == ts[2] && t3@ == ts[3]);
            }
            let tok = Tok3 { a: t1, b: t2, c: t3 };
            if kind == 1 {
                proof {
                    assert(tok3_views(vts@.push(tok)) =~= tok3_views(vts@).push(tok@));
                }
                vts.push(tok);
            } else {
                proof {
                    assert(tok3_views(nts@.push(tok)) =~= tok3_views(nts@).push(tok@));
                }
                nts.push(tok);
            }
        } else if kind == 3 {
            let toks = tokenize(line);
            if toks.len() < 4 {
                proof {
                    assert(spec_tokens(line_seq).len() < 4);
                    assert(spec_line_error(lines[li]) == Some(TextError::MissingFields));
                    lemma_first_error_split(lines, li);
                }
                return Err(TextError::MissingFields);
            }
            let r1 = parse_i32(vstd::std_specs::vec::vec_index(&toks, 1).as_slice());
            let r2 = parse_i32(vstd::std_specs::vec::vec_index(&toks, 2).as_slice());
            let r3 = parse_i32(vstd::std_specs::vec::vec_index(&toks, 3).as_slice());
            if r1.is_none() || r2.is_none() || r3.is_none() {
                proof {
                    assert(spec_line_error(lines[li]) == Some(TextError::BadInteger));
                    lemma_first_error_split(lines, li);
                }
                return Err(TextError::BadInteger);
            }
            let v1 = match r1 {
                Some(v) => v,
                None => vstd::pervasive::unreached(),
            };
            let v2 = match r2 {
                Some(v) => v,
                None => vstd::pervasive::unreached(),
            };
            let v3 = match r3 {
                Some(v) => v,
                None => vstd::pervasive::unreached(),
            };
            fs.push(Face { v1, v2, v3 });
        } else {
            proof {
                assert(!line_is_vertex(line_seq) && !line_is_normal(line_seq) && !line_is_face(
                    line_seq,
                ));
                assert(spec_line_error(lines[li]) is None);
                assert(record_step(spec_records(lines.take(li)), line_seq) == spec_records(
                    lines.take(li),
                ));
            }
        }

        proof {
            li = li + 1;
        }
        if q == n {
            p = n;
            proof {
                assert(input@.skip(n as int) =~= Seq::<u8>::empty());
                assert(lines =~= lines.take(li) + spec_lines(input@.skip(n as int)));
            }
        } else {
            p = q + 1;
            proof {
                assert(lines =~= lines.take(li) + spec_lines(input@.skip(p as int)));
            }
        }
    }
    proof {
        assert(input@.skip(n as int) =~= Seq::<u8>::empty());
        assert(lines =~= lines.take(li));
        assert(li == lines.len());
        lemma_first_error_split(lines, li);
        assert(lines.take(li) =~= lines);
    }
    Ok(RawMesh { vertex_tokens: vts, normal_tokens: nts, faces: fs })
}

/// True when the byte at `i` is not a line feed.
fn line_byte_is_not_nl(input: &[u8], i: usize) -> (r: bool)
    requires
        i < input@.len(),
    ensures
        r == (input@[i as int] != 10),
{
    *vstd::slice::slice_index_get(input, i) != 10
}

// ---------------------------------------------------------------------------
// Laws of line classification.
// ---------------------------------------------------------------------------

/// Prefix disambiguation: no line is a record line of two kinds at once —
/// for `"v "` against `"vn "` the second byte decides (a space against an
/// `n`) — and a well-formed record line adds exactly one record, of its own
/// kind, leaving the other two groups untouched.
pub proof fn lemma_prefix_disambiguation(r: RawRecords, l: Seq<u8>)
    ensures
        !(line_is_vertex(l) && line_is_normal(l)),
        !(line_is_vertex(l) && line_is_face(l)),
        !(line_is_normal(l) && line_is_face(l)),
        line_is_vertex(l) && spec_tokens(l).len() >= 4 ==> record_step(r, l).vertex_tokens.len()
            == r.vertex_tokens.len() + 1 && record_step(r, l).normal_tokens == r.normal_tokens
            && record_step(r, l).faces == r.faces,
        line_is_normal(l) && spec_tokens(l).len() >= 4 ==> record_step(r, l).normal_tokens.len()
            == r.normal_tokens.len() + 1 && record_step(r, l).vertex_tokens == r.vertex_tokens
            && record_step(r, l).faces == r.faces,
{
}

/// Ignored-line handling: a line that is not a vertex, normal or face line
/// (a comment, a texture coordinate, a blank line) contributes nothing to
/// any group and is never in error.
pub proof fn lemma_ignored_line(r: RawRecords, l: Seq<u8>)
    requires
        !line_is_vertex(l),
        !line_is_normal(l),
        !line_is_face(l),
    ensures
        record_step(r, l) == r,
        spec_line_error(l) is None,
{
}

// ---------------------------------------------------------------------------
// One face line on its own.
// ---------------------------------------------------------------------------

/// The face a line denotes: its 2nd, 3rd and 4th tokens parsed as signed
/// 32-bit integers (whatever the line's first token is).
pub open spec fn spec_face_of_line(l: Seq<u8>) -> Option<Face> {
    let ts = spec_tokens(l);
    if ts.len() >= 4 && spec_parse_i32(ts[1]) is Some && spec_parse_i32(ts[2]) is Some
        && spec_parse_i32(ts[3]) is Some {
        Some(
            Face {
                v1: spec_parse_i32(ts[1])->Some_0,
                v2: spec_parse_i32(ts[2])->Some_0,
                v3: spec_parse_i32(ts[3])->Some_0,
            },
        )
    } else {
        None
    }
}

/// Extracts the face a line denotes. The caller must know the line is a
/// well-formed face line: malformed lines are excluded by the precondition,
/// since this library's verified functions never panic.
pub fn extract_face_from_line(line: &String) -> (f: Face)
    requires
        spec_face_of_line(vstd::utf8::encode_utf8(line@)) is Some,
    ensures
        Some(f) == spec_face_of_line(vstd::utf8::encode_utf8(line@)),
{
    let bytes: &[u8] = line.as_str().as_bytes();
    let toks = tokenize(bytes);
    let r1 = parse_i32(vstd::std_specs::vec::vec_index(&toks, 1).as_slice());
    let r2 = parse_i32(vstd::std_specs::vec::vec_index(&toks, 2).as_slice());
    let r3 = parse_i32(vstd::std_specs::vec::vec_index(&toks, 3).as_slice());
    let v1 = match r1 {
        Some(v) => v,
        None => vstd::pervasive::unreached(),
    };
    let v2 = match r2 {
        Some(v) => v,
        None => vstd::pervasive::unreached(),
    };
    let v3 = match r3 {
        Some(v) => v,
        None => vstd::pervasive::unreached(),
    };
    Face { v1, v2, v3 }
}

} // verus!
