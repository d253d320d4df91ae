//! The text side of the codec, writing direction.
//!
//! One line per vertex (`v <x> <y> <z>`), then one per normal
//! (`vn <x> <y> <z>`), then one per face (`f <v1> <v2> <v3>`), each group in
//! original order, each line terminated by a line feed. Face fields are
//! rendered here as signed decimal integers; vertex and normal fields are
//! taken as ready-made tokens, since float-to-decimal rendering is outside
//! this library.

use vstd::prelude::*;

use crate::mesh::{Face, OBJ};
use crate::text::{
    all_digits, dec_val, is_digit, is_ws, lemma_first_error_split, lemma_run_len_is_run,
    line_is_face, line_is_normal, line_is_vertex, nl_stop, record_step, spec_first_error,
    spec_line_error, spec_lines, spec_parse_i32, spec_records, spec_tokens, tok3_views,
    RawRecords, Tok3, ws_stop,
};

verus! {

// ---------------------------------------------------------------------------
// Rendering signed decimal integers.
// ---------------------------------------------------------------------------

/// The decimal digits of `n`, most significant first, no leading zeros
/// (`0` renders as a single `0`).
pub open spec fn dec_digits(n: nat) -> Seq<u8>
    decreases n,
{
    if n < 10 {
        seq![(48 + n) as u8]
    } else {
        dec_digits(n / 10).push((48 + (n % 10)) as u8)
    }
}

/// The decimal rendering of `v`: a minus sign for negative values, then the
/// digits of the magnitude — exactly what `i32`'s display produces.
pub open spec fn spec_render_i32(v: i32) -> Seq<u8> {
    if v < 0 {
        seq![45u8] + dec_digits((-v) as nat)
    } else {
        dec_digits(v as nat)
    }
}

pub proof fn lemma_dec_digits_props(n: nat)
    ensures
        dec_digits(n).len() >= 1,
        all_digits(dec_digits(n)),
        dec_val(dec_digits(n)) == n,
    decreases n,
{
    if n < 10 {
        let d = dec_digits(n);
        assert(d == seq![(48 + n) as u8]);
        assert(d.last() == (48 + n) as u8);
        assert(d.drop_last() =~= Seq::<u8>::empty());
        assert(dec_val(d) == dec_val(d.drop_last()) * 10 + (d.last() - 48));
        assert(dec_val(Seq::<u8>::empty()) == 0);
        assert(is_digit(d[0]));
    } else {
        lemma_dec_digits_props(n / 10);
        let d = dec_digits(n);
        let prev = dec_digits(n / 10);
        assert(d.drop_last() =~= prev);
        assert(d.last() == (48 + (n % 10)) as u8);
        assert forall|i: int| 0 <= i < d.len() implies is_digit(#[trigger] d[i]) by {
            if i < d.len() - 1 {
                assert(d[i] == prev[i]);
            }
        }
        assert(dec_val(d) == dec_val(prev) * 10 + (n % 10));
        assert((n / 10) * 10 + n % 10 == n);
    }
}

/// Rendering an `i32` and parsing the result gives the value back.
pub proof fn lemma_render_parse_i32(v: i32)
    ensures
        spec_parse_i32(spec_render_i32(v)) == Some(v),
{
    if v < 0 {
        let n = (-v) as nat;
        lemma_dec_digits_props(n);
        let t = seq![45u8] + dec_digits(n);
        assert(t[0] == 45);
        assert(t.skip(1) =~= dec_digits(n));
    } else {
        let n = v as nat;
        lemma_dec_digits_props(n);
        let t = dec_digits(n);
        assert(is_digit(t[0]));
    }
}

/// A usable field token: non-empty, and free of whitespace and line feeds,
/// so that tokenizing a written line recovers it exactly.
pub open spec fn token_ok(t: Seq<u8>) -> bool {
    t.len() > 0 && forall|i: int| 0 <= i < t.len() ==> !is_ws(#[trigger] t[i]) && t[i] != 10
}

pub proof fn lemma_render_i32_token_ok(v: i32)
    ensures
        token_ok(spec_render_i32(v)),
{
    if v < 0 {
        lemma_dec_digits_props((-v) as nat);
        let t = seq![45u8] + dec_digits((-v) as nat);
        assert forall|i: int| 0 <= i < t.len() implies !is_ws(#[trigger] t[i]) && t[i] != 10 by {
            if i > 0 {
                assert(is_digit(dec_digits((-v) as nat)[i - 1]));
            }
        }
    } else {
        lemma_dec_digits_props(v as nat);
        let t = dec_digits(v as nat);
        assert forall|i: int| 0 <= i < t.len() implies !is_ws(#[trigger] t[i]) && t[i] != 10 by {
            assert(is_digit(t[i]));
        }
    }
}

/// Renders `v` in decimal, as its display would.
pub fn render_i32(v: i32) -> (out: Vec<u8>)
    ensures
        out@ == spec_render_i32(v),
{
    let neg = v < 0;
    let mut m: u64 = if v >= 0 {
        v as u64
    } else {
        (-(v as i64)) as u64
    };
    let ghost m0 = m as nat;
    let mut digits: Vec<u8> = Vec::new();
    while m >= 10
        invariant
            m <= m0,
            dec_digits(m0) == dec_digits(m as nat) + digits@,
        decreases m,
    {
        let d = (m % 10) as u8 + 48;
        proof {
            assert(dec_digits(m as nat) == dec_digits((m as nat) / 10).push(d));
            assert(digits@.insert(0, d) =~= seq![d] + digits@);
            assert(dec_digits((m as nat) / 10).push(d) + digits@ =~= dec_digits((m as nat) / 10) + (
            seq![d] + digits@));
            assert((m as nat) / 10 == (m / 10) as nat);
        }
        digits.insert(0, d);
        m = m / 10;
    }
    let d = m as u8 + 48;
    proof {
        assert(dec_digits(m as nat) == seq![d]);
        assert(digits@.insert(0, d) =~= seq![d] + digits@);
    }
    digits.insert(0, d);
    proof {
        assert(digits@ =~= dec_digits(m0));
    }
    if neg {
        let mut out: Vec<u8> = Vec::new();
        out.push(45);
        out.append(&mut digits);
        proof {
            assert(out@ =~= seq![45u8] + dec_digits((-v) as nat));
        }
        out
    } else {
        digits
    }
}

// ---------------------------------------------------------------------------
// Rendering lines.
// ---------------------------------------------------------------------------

/// The content of one vertex line (without its line feed).
pub open spec fn spec_vertex_line(a: Seq<u8>, b: Seq<u8>, c: Seq<u8>) -> Seq<u8> {
    seq![118u8, 32u8] + a + seq![32u8] + b + seq![32u8] + c
}

/// The content of one normal line (without its line feed).
pub open spec fn spec_normal_line(a: Seq<u8>, b: Seq<u8>, c: Seq<u8>) -> Seq<u8> {
    seq![118u8, 110u8, 32u8] + a + seq![32u8] + b + seq![32u8] + c
}

/// The content of one face line (without its line feed).
pub open spec fn spec_face_line(f: Face) -> Seq<u8> {
    seq![102u8, 32u8] + spec_render_i32(f.v1) + seq![32u8] + spec_render_i32(f.v2) + seq![32u8]
        + spec_render_i32(f.v3)
}

/// All lines a write emits: every vertex line, then every normal line, then
/// every face line, each group in order.
pub open spec fn spec_text_lines(
    vt: Seq<(Seq<u8>, Seq<u8>, Seq<u8>)>,
    nt: Seq<(Seq<u8>, Seq<u8>, Seq<u8>)>,
    fs: Seq<Face>,
) -> Seq<Seq<u8>> {
    Seq::new(vt.len(), |i: int| spec_vertex_line(vt[i].0, vt[i].1, vt[i].2)) + Seq::new(
        nt.len(),
        |i: int| spec_normal_line(nt[i].0, nt[i].1, nt[i].2),
    ) + Seq::new(fs.len(), |i: int| spec_face_line(fs[i]))
}

/// Joins lines, terminating every line (the last included) with a line feed.
pub open spec fn unlines(ls: Seq<Seq<u8>>) -> Seq<u8>
    decreases ls.len(),
{
    if ls.len() == 0 {
        Seq::empty()
    } else {
        (ls[0] + seq![10u8]) + unlines(ls.skip(1))
    }
}

/// The full text image of a mesh whose vertex and normal fields are the
/// given tokens.
pub open spec fn spec_write_text(
    vt: Seq<(Seq<u8>, Seq<u8>, Seq<u8>)>,
    nt: Seq<(Seq<u8>, Seq<u8>, Seq<u8>)>,
    fs: Seq<Face>,
) -> Seq<u8> {
    unlines(spec_text_lines(vt, nt, fs))
}

proof fn lemma_unlines_push(ls: Seq<Seq<u8>>, l: Seq<u8>)
    ensures
        unlines(ls.push(l)) == unlines(ls) + l + seq![10u8],
    decreases ls.len(),
{
    if ls.len() == 0 {
        assert(ls.push(l)[0] == l);
        assert(ls.push(l).skip(1) =~= Seq::<Seq<u8>>::empty());
        assert(unlines(Seq::<Seq<u8>>::empty()) == Seq::<u8>::empty());
        assert(unlines(ls.push(l)) == (l + seq![10u8]) + unlines(Seq::<Seq<u8>>::empty()));
        assert(unlines(ls) == Seq::<u8>::empty());
        assert(unlines(ls.push(l)) =~= unlines(ls) + l + seq![10u8]);
    } else {
        assert(ls.push(l)[0] == ls[0]);
        assert(ls.push(l).skip(1) =~= ls.skip(1).push(l));
        lemma_unlines_push(ls.skip(1), l);
        assert(unlines(ls.push(l)) =~= unlines(ls) + l + seq![10u8]);
    }
}

proof fn lemma_unlines_take_step(ls: Seq<Seq<u8>>, i: int)
    requires
        0 <= i < ls.len(),
    ensures
        unlines(ls.take(i + 1)) == unlines(ls.take(i)) + ls[i] + seq![10u8],
{
    assert(ls.take(i + 1) =~= ls.take(i).push(ls[i]));
    lemma_unlines_push(ls.take(i), ls[i]);
}

// ---------------------------------------------------------------------------
// Executable text writer.
// ---------------------------------------------------------------------------

/// Appends every byte of `src`.
fn append_bytes(out: &mut Vec<u8>, src: &[u8])
    ensures
        final(out)@ == old(out)@ + src@,
{
    let n = src.len();
    let mut i: usize = 0;
    proof {
        assert(out@ =~= old(out)@ + src@.take(0));
    }
    while i < n
        invariant
            i <= n,
            n == src@.len(),
            out@ == old(out)@ + src@.take(i as int),
        decreases n - i,
    {
        out.push(*vstd::slice::slice_index_get(src, i));
        proof {
            assert((old(out)@ + src@.take(i as int)).push(src@[i as int]) =~= old(out)@ + src@.take(
            i as int + 1));
        }
        i = i + 1;
    }
    proof {
        assert(src@.take(n as int) =~= src@);
    }
}

impl OBJ {
    /// Emits the text image of this mesh: one line per vertex, then per
    /// normal, then per face, each group in original order. The caller
    /// supplies the already-rendered vertex and normal field tokens, one
    /// triple per item.
    #[allow(non_snake_case)]
    pub fn WriteAsText(&self, vertex_tokens: &Vec<Tok3>, normal_tokens: &Vec<Tok3>) -> (out: Vec<
        u8,
    >)
        requires
            self.wf(),
            vertex_tokens@.len() == self@.vertices.len(),
            normal_tokens@.len() == self@.normals.len(),
        ensures
            out@ == spec_write_text(
                tok3_views(vertex_tokens@),
                tok3_views(normal_tokens@),
                self@.faces,
            ),
    {
        let ghost all_lines = spec_text_lines(
            tok3_views(vertex_tokens@),
            tok3_views(normal_tokens@),
            self@.faces,
        );
        let nv = vertex_tokens.len();
        let nn = normal_tokens.len();
        let nf = self.face_count() as usize;
        proof {
            assert(all_lines.len() == nv + nn + nf);
        }
        let mut out: Vec<u8> = Vec::new();
        proof {
            assert(all_lines.take(0) =~= Seq::<Seq<u8>>::empty());
            assert(out@ =~= unlines(all_lines.take(0)));
        }

        let mut i: usize = 0;
        while i < nv
            invariant
                i <= nv,
                self.wf(),
                nv == vertex_tokens@.len(),
                nn == normal_tokens@.len(),
                nf == self@.faces.len(),
                all_lines == spec_text_lines(
                    tok3_views(vertex_tokens@),
                    tok3_views(normal_tokens@),
                    self@.faces,
                ),
                all_lines.len() == nv + nn + nf,
                out@ == unlines(all_lines.take(i as int)),
            decreases nv - i,
        {
            let t = vstd::std_specs::vec::vec_index(vertex_tokens, i);
            out.push(118);
            out.push(32);
            append_bytes(&mut out, t.a.as_slice());
            out.push(32);
            append_bytes(&mut out, t.b.as_slice());
            out.push(32);
            append_bytes(&mut out, t.c.as_slice());
            out.push(10);
            proof {
                let li = i as int;
                lemma_unlines_take_step(all_lines, li);
                assert(all_lines[li] == spec_vertex_line(t.a@, t.b@, t.c@));
                assert(out@ =~= unlines(all_lines.take(li)) + all_lines[li] + seq![10u8]);
            }
            i = i + 1;
        }

        let mut i: usize = 0;
        while i < nn
            invariant
                i <= nn,
                self.wf(),
                nv == vertex_tokens@.len(),
                nn == normal_tokens@.len(),
                nf == self@.faces.len(),
                all_lines == spec_text_lines(
                    tok3_views(vertex_tokens@),
                    tok3_views(normal_tokens@),
                    self@.faces,
                ),
                all_lines.len() == nv + nn + nf,
                out@ == unlines(all_lines.take(nv + i as int)),
            decreases nn - i,
        {
            let t = vstd::std_specs::vec::vec_index(normal_tokens, i);
            out.push(118);
            out.push(110);
            out.push(32);
            append_bytes(&mut out, t.a.as_slice());
            out.push(32);
            append_bytes(&mut out, t.b.as_slice());
            out.push(32);
            append_bytes(&mut out, t.c.as_slice());
            out.push(10);
            proof {
                let li = nv + i as int;
                lemma_unlines_take_step(all_lines, li);
                assert(all_lines[li] == spec_normal_line(t.a@, t.b@, t.c@));
                assert(out@ =~= unlines(all_lines.take(li)) + all_lines[li] + seq![10u8]);
            }
            i = i + 1;
        }

        let mut i: usize = 0;
        while i < nf
            invariant
                i <= nf,
                self.wf(),
                nv == vertex_tokens@.len(),
                nn == normal_tokens@.len(),
                nf == self@.faces.len(),
                all_lines == spec_text_lines(
                    tok3_views(vertex_tokens@),
                    tok3_views(normal_tokens@),
                    self@.faces,
                ),
                all_lines.len() == nv + nn + nf,
                out@ == unlines(all_lines.take(nv + nn + i as int)),
            decreases nf - i,
        {
            let f = self.face(i);
            out.push(102);
            out.push(32);
            let r1 = render_i32(f.v1);
            append_bytes(&mut out, r1.as_slice());
            out.push(32);
            let r2 = render_i32(f.v2);
            append_bytes(&mut out, r2.as_slice());
            out.push(32);
            let r3 = render_i32(f.v3);
            append_bytes(&mut out, r3.as_slice());
            out.push(10);
            proof {
                let li = nv + nn + i as int;
                lemma_unlines_take_step(all_lines, li);
                assert(all_lines[li] == spec_face_line(self@.faces[i as int]));
                assert(out@ =~= unlines(all_lines.take(li)) + all_lines[li] + seq![10u8]);
            }
            i = i + 1;
        }

        proof {
            assert(all_lines.take(nv + nn + nf as int) =~= all_lines);
        }
        out
    }
}


// ---------------------------------------------------------------------------
// Round-trip law: written text parses back to the same records.
// ---------------------------------------------------------------------------

/// No byte of the line is a line feed.
pub open spec fn line_nl_free(l: Seq<u8>) -> bool {
    forall|i: int| 0 <= i < l.len() ==> #[trigger] l[i] != 10
}

/// Splitting joined line-feed-free lines gives the lines back.
proof fn lemma_lines_of_unlines(ls: Seq<Seq<u8>>)
    requires
        forall|i: int| 0 <= i < ls.len() ==> line_nl_free(#[trigger] ls[i]),
    ensures
        spec_lines(unlines(ls)) == ls,
    decreases ls.len(),
{
    if ls.len() > 0 {
        let l0 = ls[0];
        let s = unlines(ls);
        let rest = unlines(ls.skip(1));
        assert(line_nl_free(l0));
        assert forall|j: int| 0 <= j < l0.len() implies !nl_stop()(#[trigger] s[j]) by {
            assert(s[j] == l0[j]);
        }
        assert(s[l0.len() as int] == 10);
        assert(nl_stop()(s[l0.len() as int]));
        lemma_run_len_is_run(s, nl_stop(), l0.len() as int);
        assert(s.len() == l0.len() + 1 + rest.len());
        assert(s.take(l0.len() as int) =~= l0);
        assert(s.skip(l0.len() as int + 1) =~= rest);
        assert forall|i: int| 0 <= i < ls.skip(1).len() implies line_nl_free(
            #[trigger] ls.skip(1)[i],
        ) by {
            assert(ls.skip(1)[i] == ls[i + 1]);
        }
        lemma_lines_of_unlines(ls.skip(1));
        assert(spec_lines(s) == seq![l0] + spec_lines(rest));
        assert(seq![l0] + ls.skip(1) =~= ls);
    }
}

/// A whitespace-free token followed by whitespace (or nothing) is one token.
proof fn lemma_tokens_cons(t: Seq<u8>, r: Seq<u8>)
    requires
        token_ok(t),
        r.len() == 0 || is_ws(r[0]),
    ensures
        spec_tokens(t + r) == seq![t] + spec_tokens(r),
{
    let s = t + r;
    assert forall|j: int| 0 <= j < t.len() implies !ws_stop()(#[trigger] s[j]) by {
        assert(s[j] == t[j]);
    }
    if r.len() > 0 {
        assert(s[t.len() as int] == r[0]);
        assert(ws_stop()(s[t.len() as int]));
    }
    lemma_run_len_is_run(s, ws_stop(), t.len() as int);
    assert(s[0] == t[0]);
    assert(!is_ws(s[0]));
    assert(s.take(t.len() as int) =~= t);
    assert(s.skip(t.len() as int) =~= r);
    assert(spec_tokens(s) == seq![t] + spec_tokens(r));
}

/// `" a b c"` (space-separated usable tokens) tokenizes to `[a, b, c]`.
proof fn lemma_tokens_three(a: Seq<u8>, b: Seq<u8>, c: Seq<u8>)
    requires
        token_ok(a),
        token_ok(b),
        token_ok(c),
    ensures
        spec_tokens(seq![32u8] + a + seq![32u8] + b + seq![32u8] + c) == seq![a, b, c],
{
    let target = seq![32u8] + a + seq![32u8] + b + seq![32u8] + c;
    let inner3 = seq![32u8] + c;
    let inner2 = seq![32u8] + (b + inner3);
    let inner1 = a + inner2;
    assert(target =~= seq![32u8] + inner1);
    assert((seq![32u8] + inner1)[0] == 32);
    assert((seq![32u8] + inner1).skip(1) =~= inner1);
    assert(spec_tokens(seq![32u8] + inner1) == spec_tokens(inner1));
    assert(inner2[0] == 32);
    lemma_tokens_cons(a, inner2);
    assert(inner2.skip(1) =~= b + inner3);
    assert(spec_tokens(inner2) == spec_tokens(b + inner3));
    assert(inner3[0] == 32);
    lemma_tokens_cons(b, inner3);
    assert(inner3.skip(1) =~= c + Seq::<u8>::empty());
    assert(spec_tokens(inner3) == spec_tokens(c + Seq::<u8>::empty()));
    lemma_tokens_cons(c, Seq::<u8>::empty());
    assert(spec_tokens(Seq::<u8>::empty()) =~= Seq::<Seq<u8>>::empty());
    assert(spec_tokens(target) =~= seq![a, b, c]);
}

/// Shape of a written vertex line: its tokens, classification, and freedom
/// from line feeds.
proof fn lemma_vertex_line_shape(a: Seq<u8>, b: Seq<u8>, c: Seq<u8>)
    requires
        token_ok(a),
        token_ok(b),
        token_ok(c),
    ensures
        spec_tokens(spec_vertex_line(a, b, c)) == seq![seq![118u8], a, b, c],
        line_is_vertex(spec_vertex_line(a, b, c)),
        !line_is_normal(spec_vertex_line(a, b, c)),
        !line_is_face(spec_vertex_line(a, b, c)),
        line_nl_free(spec_vertex_line(a, b, c)),
{
    let l = spec_vertex_line(a, b, c);
    let tail = seq![32u8] + a + seq![32u8] + b + seq![32u8] + c;
    assert(l =~= seq![118u8] + tail);
    lemma_tokens_three(a, b, c);
    assert(token_ok(seq![118u8])) by {
        assert(seq![118u8][0] == 118);
    }
    assert(tail[0] == 32);
    lemma_tokens_cons(seq![118u8], tail);
    assert(spec_tokens(l) =~= seq![seq![118u8], a, b, c]);
    assert(l[0] == 118 && l[1] == 32);
    assert forall|i: int| 0 <= i < l.len() implies #[trigger] l[i] != 10 by {
        if i < 2 {
        } else if i < 2 + a.len() {
            assert(l[i] == a[i - 2]);
        } else if i == 2 + a.len() {
            assert(l[i] == 32);
        } else if i < 3 + a.len() + b.len() {
            assert(l[i] == b[i - 3 - a.len()]);
        } else if i == 3 + a.len() + b.len() {
            assert(l[i] == 32);
        } else {
            assert(l[i] == c[i - 4 - a.len() - b.len()]);
        }
    }
}

/// Shape of a written normal line.
proof fn lemma_normal_line_shape(a: Seq<u8>, b: Seq<u8>, c: Seq<u8>)
    requires
        token_ok(a),
        token_ok(b),
        token_ok(c),
    ensures
        spec_tokens(spec_normal_line(a, b, c)) == seq![seq![118u8, 110u8], a, b, c],
        !line_is_vertex(spec_normal_line(a, b, c)),
        line_is_normal(spec_normal_line(a, b, c)),
        !line_is_face(spec_normal_line(a, b, c)),
        line_nl_free(spec_normal_line(a, b, c)),
{
    let l = spec_normal_line(a, b, c);
    let tail = seq![32u8] + a + seq![32u8] + b + seq![32u8] + c;
    assert(l =~= seq![118u8, 110u8] + tail);
    lemma_tokens_three(a, b, c);
    assert(token_ok(seq![118u8, 110u8])) by {
        assert(seq![118u8, 110u8][0] == 118);
        assert(seq![118u8, 110u8][1] == 110);
    }
    assert(tail[0] == 32);
    lemma_tokens_cons(seq![118u8, 110u8], tail);
    assert(spec_tokens(l) =~= seq![seq![118u8, 110u8], a, b, c]);
    assert(l[0] == 118 && l[1] == 110 && l[2] == 32);
    assert forall|i: int| 0 <= i < l.len() implies #[trigger] l[i] != 10 by {
        if i < 3 {
        } else if i < 3 + a.len() {
            assert(l[i] == a[i - 3]);
        } else if i == 3 + a.len() {
            assert(l[i] == 32);
        } else if i < 4 + a.len() + b.len() {
            assert(l[i] == b[i - 4 - a.len()]);
        } else if i == 4 + a.len() + b.len() {
            assert(l[i] == 32);
        } else {
            assert(l[i] == c[i - 5 - a.len() - b.len()]);
        }
    }
}

/// Shape of a written face line; its fields parse back to the face written.
proof fn lemma_face_line_shape(f: Face)
    ensures
        spec_tokens(spec_face_line(f)) == seq![
            seq![102u8],
            spec_render_i32(f.v1),
            spec_render_i32(f.v2),
            spec_render_i32(f.v3),
        ],
        !line_is_vertex(spec_face_line(f)),
        !line_is_normal(spec_face_line(f)),
        line_is_face(spec_face_line(f)),
        line_nl_free(spec_face_line(f)),
        spec_line_error(spec_face_line(f)) is None,
{
    let a = spec_render_i32(f.v1);
    let b = spec_render_i32(f.v2);
    let c = spec_render_i32(f.v3);
    lemma_render_i32_token_ok(f.v1);
    lemma_render_i32_token_ok(f.v2);
    lemma_render_i32_token_ok(f.v3);
    let l = spec_face_line(f);
    let tail = seq![32u8] + a + seq![32u8] + b + seq![32u8] + c;
    assert(l =~= seq![102u8] + tail);
    lemma_tokens_three(a, b, c);
    assert(token_ok(seq![102u8])) by {
        assert(seq![102u8][0] == 102);
    }
    assert(tail[0] == 32);
    lemma_tokens_cons(seq![102u8], tail);
    assert(spec_tokens(l) =~= seq![seq![102u8], a, b, c]);
    assert(l[0] == 102 && l[1] == 32);
    lemma_render_parse_i32(f.v1);
    lemma_render_parse_i32(f.v2);
    lemma_render_parse_i32(f.v3);
    assert forall|i: int| 0 <= i < l.len() implies #[trigger] l[i] != 10 by {
        if i < 2 {
        } else if i < 2 + a.len() {
            assert(l[i] == a[i - 2]);
        } else if i == 2 + a.len() {
            assert(l[i] == 32);
        } else if i < 3 + a.len() + b.len() {
            assert(l[i] == b[i - 3 - a.len()]);
        } else if i == 3 + a.len() + b.len() {
            assert(l[i] == 32);
        } else {
            assert(l[i] == c[i - 4 - a.len() - b.len()]);
        }
    }
}

/// All field tokens of both groups are usable.
pub open spec fn tokens_all_ok(ts: Seq<(Seq<u8>, Seq<u8>, Seq<u8>)>) -> bool {
    forall|i: int|
        0 <= i < ts.len() ==> token_ok((#[trigger] ts[i]).0) && token_ok(ts[i].1) && token_ok(
            ts[i].2,
        )
}

/// The records of the written lines are exactly what was written.
proof fn lemma_records_of_text_lines(
    vt: Seq<(Seq<u8>, Seq<u8>, Seq<u8>)>,
    nt: Seq<(Seq<u8>, Seq<u8>, Seq<u8>)>,
    fs: Seq<Face>,
)
    requires
        tokens_all_ok(vt),
        tokens_all_ok(nt),
    ensures
        spec_records(spec_text_lines(vt, nt, fs)) == (RawRecords {
            vertex_tokens: vt,
            normal_tokens: nt,
            faces: fs,
        }),
    decreases vt.len() + nt.len() + fs.len(),
{
    let ls = spec_text_lines(vt, nt, fs);
    if fs.len() > 0 {
        let fs2 = fs.drop_last();
        let f = fs.last();
        let ls2 = spec_text_lines(vt, nt, fs2);
        assert(ls.drop_last() =~= ls2);
        assert(ls.last() == spec_face_line(f));
        lemma_records_of_text_lines(vt, nt, fs2);
        lemma_face_line_shape(f);
        lemma_render_parse_i32(f.v1);
        lemma_render_parse_i32(f.v2);
        lemma_render_parse_i32(f.v3);
        assert(spec_records(ls) == record_step(spec_records(ls2), spec_face_line(f)));
        assert(fs2.push(Face { v1: f.v1, v2: f.v2, v3: f.v3 }) =~= fs);
        assert(spec_records(ls) =~= RawRecords { vertex_tokens: vt, normal_tokens: nt, faces: fs });
    } else if nt.len() > 0 {
        let nt2 = nt.drop_last();
        let t = nt.last();
        assert forall|i: int|
            0 <= i < nt2.len() implies token_ok((#[trigger] nt2[i]).0) && token_ok(nt2[i].1)
            && token_ok(nt2[i].2) by {
            assert(nt2[i] == nt[i]);
        }
        let ls2 = spec_text_lines(vt, nt2, fs);
        assert(ls.drop_last() =~= ls2);
        assert(ls.last() == spec_normal_line(t.0, t.1, t.2));
        lemma_records_of_text_lines(vt, nt2, fs);
        assert(token_ok(t.0) && token_ok(t.1) && token_ok(t.2));
        lemma_normal_line_shape(t.0, t.1, t.2);
        assert(spec_records(ls) == record_step(spec_records(ls2), spec_normal_line(t.0, t.1, t.2)));
        assert((t.0, t.1, t.2) == t);
        assert(nt2.push(t) =~= nt);
        assert(spec_records(ls) =~= RawRecords { vertex_tokens: vt, normal_tokens: nt, faces: fs });
    } else if vt.len() > 0 {
        let vt2 = vt.drop_last();
        let t = vt.last();
        assert forall|i: int|
            0 <= i < vt2.len() implies token_ok((#[trigger] vt2[i]).0) && token_ok(vt2[i].1)
            && token_ok(vt2[i].2) by {
            assert(vt2[i] == vt[i]);
        }
        let ls2 = spec_text_lines(vt2, nt, fs);
        assert(ls.drop_last() =~= ls2);
        assert(ls.last() == spec_vertex_line(t.0, t.1, t.2));
        lemma_records_of_text_lines(vt2, nt, fs);
        assert(token_ok(t.0) && token_ok(t.1) && token_ok(t.2));
        lemma_vertex_line_shape(t.0, t.1, t.2);
        assert(spec_records(ls) == record_step(spec_records(ls2), spec_vertex_line(t.0, t.1, t.2)));
        assert((t.0, t.1, t.2) == t);
        assert(vt2.push(t) =~= vt);
        assert(spec_records(ls) =~= RawRecords { vertex_tokens: vt, normal_tokens: nt, faces: fs });
    } else {
        assert(ls =~= Seq::<Seq<u8>>::empty());
        assert(spec_records(ls) =~= RawRecords { vertex_tokens: vt, normal_tokens: nt, faces: fs });
    }
}

/// Round-trip law, text side: writing a mesh as text and parsing the result
/// back recovers exactly the vertex tokens, normal tokens and faces that
/// were written, in their original order, with no parse error. (Vertex and
/// normal fields round-trip as tokens; whether a token re-reads as the same
/// float is a property of the caller's float formatting, outside this law.)
pub proof fn lemma_write_then_parse_text(
    vt: Seq<(Seq<u8>, Seq<u8>, Seq<u8>)>,
    nt: Seq<(Seq<u8>, Seq<u8>, Seq<u8>)>,
    fs: Seq<Face>,
)
    requires
        tokens_all_ok(vt),
        tokens_all_ok(nt),
    ensures
        spec_lines(spec_write_text(vt, nt, fs)) == spec_text_lines(vt, nt, fs),
        spec_first_error(spec_lines(spec_write_text(vt, nt, fs))) is None,
        spec_records(spec_lines(spec_write_text(vt, nt, fs))) == (RawRecords {
            vertex_tokens: vt,
            normal_tokens: nt,
            faces: fs,
        }),
{
    let ls = spec_text_lines(vt, nt, fs);
    assert forall|i: int| 0 <= i < ls.len() implies line_nl_free(#[trigger] ls[i])
        && spec_line_error(ls[i]) is None by {
        if i < vt.len() {
            let t = vt[i];
            assert(token_ok(t.0) && token_ok(t.1) && token_ok(t.2));
            lemma_vertex_line_shape(t.0, t.1, t.2);
            assert(ls[i] == spec_vertex_line(t.0, t.1, t.2));
            assert(spec_tokens(ls[i]).len() == 4);
        } else if i < vt.len() + nt.len() {
            let t = nt[i - vt.len()];
            assert(token_ok(t.0) && token_ok(t.1) && token_ok(t.2));
            lemma_normal_line_shape(t.0, t.1, t.2);
            assert(ls[i] == spec_normal_line(t.0, t.1, t.2));
            assert(spec_tokens(ls[i]).len() == 4);
        } else {
            let f = fs[i - vt.len() - nt.len()];
            lemma_face_line_shape(f);
            assert(ls[i] == spec_face_line(f));
        }
    }
    lemma_lines_of_unlines(ls);
    lemma_first_error_split(ls, ls.len() as int);
    lemma_records_of_text_lines(vt, nt, fs);
}

/// Order preservation across a text round trip: the written mesh's records
/// parse back at their original positions — nothing is reordered or
/// deduplicated.
pub proof fn lemma_text_round_trip_preserves_order(
    vt: Seq<(Seq<u8>, Seq<u8>, Seq<u8>)>,
    nt: Seq<(Seq<u8>, Seq<u8>, Seq<u8>)>,
    fs: Seq<Face>,
    i: int,
)
    requires
        tokens_all_ok(vt),
        tokens_all_ok(nt),
    ensures
        ({
            let r = spec_records(spec_lines(spec_write_text(vt, nt, fs)));
            &&& r.vertex_tokens.len() == vt.len()
            &&& r.normal_tokens.len() == nt.len()
            &&& r.faces.len() == fs.len()
            &&& (0 <= i < vt.len() ==> r.vertex_tokens[i] == vt[i])
            &&& (0 <= i < nt.len() ==> r.normal_tokens[i] == nt[i])
            &&& (0 <= i < fs.len() ==> r.faces[i] == fs[i])
        }),
{
    lemma_write_then_parse_text(vt, nt, fs);
}

} // verus!
