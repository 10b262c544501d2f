//! The reconstructable `.idx` file: parsing, entry projection, entry update,
//! and serialization.
//!
//! Everything that is not a timestamp is kept in filler parts, so a file
//! whose timings have been shifted still carries all of its original
//! meta-information, byte for byte.

use vstd::prelude::*;
use vstd::string::StringSliceAdditionalSpecFns;
use crate::codec::{
    decode_time, decode_timestamp, encode_time, is_colon, is_digit, token_shape_ok, DecodeFault,
};
use crate::lines::{
    after_bom, bom_prefix, concat_lines, get_lines_non_destructive, lemma_lines_concat, line_views,
    lines_of, split_bom,
};
use crate::parts::{
    lemma_render_concat, lemma_times_concat, lemma_times_snoc, lemma_updated_snoc,
    lemma_render_snoc,
    lemma_normalize_filler_cons, lemma_normalize_timestamp_cons, lemma_merge_front_merge,
    merge_front, normalize, no_adjacent_fillers, part_views, render, starts_view,
    time_views, times_of, updated_parts, IdxFilePart, PartModel,
};
use crate::timetypes::{SubtitleEntry, TimeDelta, TimePoint, TimeSpan};

verus! {

/// A parse failure, scoped to the 0-based line it arose on.
#[derive(Debug, Clone, PartialEq)]
pub enum ErrorKind {
    IdxLineParseError { line_num: usize, msg: String },
}

/// Represents a reconstructable `.idx` file.
///
/// All information that carries no timing (labels, comments, spacing,
/// unknown fields) is saved into `IdxFilePart::Filler(...)`, so a
/// timing-altered file still has the same meta-information.
#[derive(Debug, Clone)]
pub struct IdxFile {
    v: Vec<IdxFilePart>,
}

impl View for IdxFile {
    type V = Seq<PartModel>;

    closed spec fn view(&self) -> Seq<PartModel> {
        part_views(self.v@)
    }
}


/// Whitespace inside a line: the one-byte white space characters.
pub open spec fn is_space(b: u8) -> bool {
    b == 32 || b == 9 || b == 10 || b == 11 || b == 12 || b == 13
}

/// The length of the longest whitespace prefix.
pub open spec fn ws_prefix_len(s: Seq<u8>) -> int
    decreases s.len(),
{
    if s.len() == 0 || !is_space(s[0]) {
        0
    } else {
        1 + ws_prefix_len(s.skip(1))
    }
}

/// The length of the longest prefix of digits and colons.
pub open spec fn tok_prefix_len(s: Seq<u8>) -> int
    decreases s.len(),
{
    if s.len() == 0 || !(is_digit(s[0]) || is_colon(s[0])) {
        0
    } else {
        1 + tok_prefix_len(s.skip(1))
    }
}

proof fn lemma_ws_prefix(s: Seq<u8>)
    ensures
        0 <= ws_prefix_len(s) <= s.len(),
        forall|j: int| 0 <= j < ws_prefix_len(s) ==> is_space(s[j]),
        ws_prefix_len(s) < s.len() ==> !is_space(s[ws_prefix_len(s)]),
    decreases s.len(),
{
    if s.len() > 0 && is_space(s[0]) {
        lemma_ws_prefix(s.skip(1));
        let w = ws_prefix_len(s.skip(1));
        assert forall|j: int| 0 <= j < w + 1 implies is_space(s[j]) by {
            if j >= 1 {
                assert(s[j] == s.skip(1)[j - 1]);
            }
        }
        if w + 1 < s.len() {
            assert(s[w + 1] == s.skip(1)[w]);
        }
    }
}

proof fn lemma_tok_prefix(s: Seq<u8>)
    ensures
        0 <= tok_prefix_len(s) <= s.len(),
        forall|j: int| 0 <= j < tok_prefix_len(s) ==> is_digit(s[j]) || is_colon(s[j]),
        tok_prefix_len(s) < s.len() ==> !(is_digit(s[tok_prefix_len(s)]) || is_colon(
            s[tok_prefix_len(s)],
        )),
    decreases s.len(),
{
    if s.len() > 0 && (is_digit(s[0]) || is_colon(s[0])) {
        lemma_tok_prefix(s.skip(1));
        let w = tok_prefix_len(s.skip(1));
        assert forall|j: int| 0 <= j < w + 1 implies is_digit(s[j]) || is_colon(s[j]) by {
            if j >= 1 {
                assert(s[j] == s.skip(1)[j - 1]);
            }
        }
        if w + 1 < s.len() {
            assert(s[w + 1] == s.skip(1)[w]);
        }
    }
}

/// The literal that declares a timestamp line: `timestamp:`.
pub open spec fn marker() -> Seq<u8> {
    seq![116u8, 105u8, 109u8, 101u8, 115u8, 116u8, 97u8, 109u8, 112u8, 58u8]
}

/// A line declares a timestamp when, after its leading whitespace, it starts
/// with the marker.
pub open spec fn is_marker_line(c: Seq<u8>) -> bool {
    ws_prefix_len(c) + 10 <= c.len() && c.subrange(ws_prefix_len(c), ws_prefix_len(c) + 10)
        == marker()
}

/// The leading whitespace of a marker line.
pub open spec fn line_ws1(c: Seq<u8>) -> Seq<u8> {
    c.take(ws_prefix_len(c))
}

pub open spec fn line_after_marker(c: Seq<u8>) -> Seq<u8> {
    c.skip(ws_prefix_len(c) + 10)
}

/// The whitespace between the marker and the timestamp token.
pub open spec fn line_ws2(c: Seq<u8>) -> Seq<u8> {
    line_after_marker(c).take(ws_prefix_len(line_after_marker(c)))
}

pub open spec fn line_rest(c: Seq<u8>) -> Seq<u8> {
    line_after_marker(c).skip(ws_prefix_len(line_after_marker(c)))
}

/// The timestamp token of a marker line: its maximal run of digits and
/// colons after the second whitespace run.
pub open spec fn line_token(c: Seq<u8>) -> Seq<u8> {
    line_rest(c).take(tok_prefix_len(line_rest(c)))
}

/// Whatever follows the token, kept verbatim.
pub open spec fn line_trailing(c: Seq<u8>) -> Seq<u8> {
    line_rest(c).skip(tok_prefix_len(line_rest(c)))
}

/// A line parses when it is not a marker line, or its token decodes.
pub open spec fn line_ok(c: Seq<u8>) -> bool {
    is_marker_line(c) ==> decode_time(line_token(c)) is Some
}

/// The parts a line contributes, its terminator aside: the whole line as one
/// filler, or the marker line's decomposition around its timestamp.
pub open spec fn line_parts(c: Seq<u8>) -> Seq<PartModel> {
    if is_marker_line(c) {
        seq![
            PartModel::Filler(line_ws1(c)),
            PartModel::Filler(marker()),
            PartModel::Filler(line_ws2(c)),
            PartModel::Timestamp(decode_time(line_token(c))->0),
            PartModel::Filler(line_trailing(c)),
        ]
    } else {
        seq![PartModel::Filler(c)]
    }
}

/// The diagnostic for a line whose token does not decode.
pub open spec fn line_error_msg(c: Seq<u8>) -> Seq<char> {
    if !token_shape_ok(line_token(c)) {
        "expected four colon-separated number fields"@
    } else {
        "timestamp value too large"@
    }
}

/// The parts of a sequence of lines: each line's parts followed by its
/// terminator as filler.
pub open spec fn lines_parts(ls: Seq<(Seq<u8>, Seq<u8>)>) -> Seq<PartModel>
    decreases ls.len(),
{
    if ls.len() == 0 {
        Seq::empty()
    } else {
        line_parts(ls[0].0) + seq![PartModel::Filler(ls[0].1)] + lines_parts(ls.skip(1))
    }
}

/// The whole document, before normalization: the byte-order mark as filler,
/// then every line's parts.
pub open spec fn doc_parts(b: Seq<u8>) -> Seq<PartModel> {
    seq![PartModel::Filler(bom_prefix(b))] + lines_parts(lines_of(after_bom(b)))
}

/// The input parses when every line does.
pub open spec fn parse_ok(b: Seq<u8>) -> bool {
    forall|i: int|
        0 <= i < lines_of(after_bom(b)).len() ==> line_ok(
            (#[trigger] lines_of(after_bom(b))[i]).0,
        )
}

/// The 0-based index of the first line that fails to parse, or -1.
pub open spec fn first_bad_line(ls: Seq<(Seq<u8>, Seq<u8>)>) -> int
    decreases ls.len(),
{
    if ls.len() == 0 {
        -1
    } else if !line_ok(ls[0].0) {
        0
    } else {
        let r = first_bad_line(ls.skip(1));
        if r < 0 {
            -1
        } else {
            1 + r
        }
    }
}

proof fn lemma_first_bad_line(ls: Seq<(Seq<u8>, Seq<u8>)>)
    ensures
        first_bad_line(ls) == -1 ==> forall|j: int|
            0 <= j < ls.len() ==> line_ok((#[trigger] ls[j]).0),
        first_bad_line(ls) >= 0 ==> 0 <= first_bad_line(ls) < ls.len() && !line_ok(
            ls[first_bad_line(ls)].0,
        ) && forall|j: int| 0 <= j < first_bad_line(ls) ==> line_ok((#[trigger] ls[j]).0),
    decreases ls.len(),
{
    if ls.len() > 0 && line_ok(ls[0].0) {
        lemma_first_bad_line(ls.skip(1));
        let r = first_bad_line(ls.skip(1));
        if r == -1 {
            assert forall|j: int| 0 <= j < ls.len() implies line_ok((#[trigger] ls[j]).0) by {
                if j >= 1 {
                    assert(ls[j] == ls.skip(1)[j - 1]);
                }
            }
        } else {
            assert(ls[r + 1] == ls.skip(1)[r]);
            assert forall|j: int| 0 <= j < r + 1 implies line_ok((#[trigger] ls[j]).0) by {
                if j >= 1 {
                    assert(ls[j] == ls.skip(1)[j - 1]);
                }
            }
        }
    }
}

proof fn lemma_lines_parts_snoc(ls: Seq<(Seq<u8>, Seq<u8>)>, l: (Seq<u8>, Seq<u8>))
    ensures
        lines_parts(ls.push(l)) == lines_parts(ls) + line_parts(l.0) + seq![
            PartModel::Filler(l.1),
        ],
    decreases ls.len(),
{
    if ls.len() == 0 {
        assert(ls.push(l)[0] == l);
        assert(ls.push(l).skip(1) =~= Seq::<(Seq<u8>, Seq<u8>)>::empty());
        assert(lines_parts(Seq::<(Seq<u8>, Seq<u8>)>::empty()) =~= Seq::<PartModel>::empty());
        assert(lines_parts(ls.push(l)) =~= lines_parts(ls) + line_parts(l.0) + seq![
            PartModel::Filler(l.1),
        ]);
    } else {
        assert(ls.push(l).skip(1) =~= ls.skip(1).push(l));
        assert(ls.push(l)[0] == ls[0]);
        lemma_lines_parts_snoc(ls.skip(1), l);
        assert(lines_parts(ls.push(l)) =~= lines_parts(ls) + line_parts(l.0) + seq![
            PartModel::Filler(l.1),
        ]);
    }
}

fn is_space_byte(b: u8) -> (r: bool)
    ensures
        r == is_space(b),
{
    b == 32 || b == 9 || b == 10 || b == 11 || b == 12 || b == 13
}

fn is_token_byte(b: u8) -> (r: bool)
    ensures
        r == (is_digit(b) || is_colon(b)),
{
    (48 <= b && b <= 57) || b == 58
}

fn has_marker_at(c: &Vec<u8>, i: usize) -> (r: bool)
    requires
        i <= c@.len(),
    ensures
        r == (i + 10 <= c@.len() && c@.subrange(i as int, i + 10) == marker()),
{
    if c.len() - i < 10 {
        return false;
    }
    let r = c[i] == 116 && c[i + 1] == 105 && c[i + 2] == 109 && c[i + 3] == 101 && c[i + 4] == 115
        && c[i + 5] == 116 && c[i + 6] == 97 && c[i + 7] == 109 && c[i + 8] == 112 && c[i + 9]
        == 58;
    proof {
        let sub = c@.subrange(i as int, i + 10);
        if r {
            assert(sub =~= marker());
        } else {
            if sub == marker() {
                assert(c@[i as int] == sub[0]);
                assert(c@[i + 1] == sub[1]);
                assert(c@[i + 2] == sub[2]);
                assert(c@[i + 3] == sub[3]);
                assert(c@[i + 4] == sub[4]);
                assert(c@[i + 5] == sub[5]);
                assert(c@[i + 6] == sub[6]);
                assert(c@[i + 7] == sub[7]);
                assert(c@[i + 8] == sub[8]);
                assert(c@[i + 9] == sub[9]);
            }
        }
    }
    r
}

/// Classifies one line. A line that does not declare a timestamp is one
/// filler part; a marker line becomes leading whitespace, the marker, more
/// whitespace, the decoded timestamp, and the trailing rest, in that order.
fn parse_line(line_num: usize, content: &Vec<u8>) -> (r: Result<Vec<IdxFilePart>, ErrorKind>)
    ensures
        r is Ok <==> line_ok(content@),
        r is Ok ==> part_views(r->Ok_0@) == line_parts(content@),
        r is Err ==> (r->Err_0 matches ErrorKind::IdxLineParseError { line_num: ln, msg }
            && ln == line_num && msg@ == line_error_msg(content@)),
{
    let c = content;
    let n = c.len();
    let mut w1: usize = 0;
    while w1 < n && is_space_byte(c[w1])
        invariant
            0 <= w1 <= n,
            n == c@.len(),
            forall|j: int| 0 <= j < w1 ==> is_space(c@[j]),
        decreases n - w1,
    {
        w1 = w1 + 1;
    }
    proof {
        lemma_ws_prefix(c@);
        assert(ws_prefix_len(c@) == w1);
    }
    if !has_marker_at(c, w1) {
        assert(!is_marker_line(c@));
        let mut parts: Vec<IdxFilePart> = Vec::new();
        parts.push(IdxFilePart::Filler(vstd::slice::slice_to_vec(c.as_slice())));
        assert(part_views(parts@) =~= line_parts(c@));
        return Ok(parts);
    }
    let m_end = w1 + 10;
    let ghost rest1 = line_after_marker(c@);
    proof {
        assert(rest1 =~= c@.skip(m_end as int));
    }
    let mut w2e: usize = m_end;
    while w2e < n && is_space_byte(c[w2e])
        invariant
            m_end <= w2e <= n,
            n == c@.len(),
            forall|j: int| m_end <= j < w2e ==> is_space(c@[j]),
        decreases n - w2e,
    {
        w2e = w2e + 1;
    }
    proof {
        lemma_ws_prefix(rest1);
        assert forall|j: int| 0 <= j < w2e - m_end implies is_space(rest1[j]) by {
            assert(rest1[j] == c@[m_end + j]);
        }
        if w2e < n {
            assert(rest1[w2e - m_end] == c@[w2e as int]);
        }
        assert(ws_prefix_len(rest1) == w2e - m_end);
    }
    let ghost rest2 = line_rest(c@);
    proof {
        assert(rest2 =~= c@.skip(w2e as int));
    }
    let mut te: usize = w2e;
    while te < n && is_token_byte(c[te])
        invariant
            w2e <= te <= n,
            n == c@.len(),
            forall|j: int| w2e <= j < te ==> is_digit(c@[j]) || is_colon(c@[j]),
        decreases n - te,
    {
        te = te + 1;
    }
    proof {
        lemma_tok_prefix(rest2);
        assert forall|j: int| 0 <= j < te - w2e implies is_digit(rest2[j]) || is_colon(
            rest2[j],
        ) by {
            assert(rest2[j] == c@[w2e + j]);
        }
        if te < n {
            assert(rest2[te - w2e] == c@[te as int]);
        }
        assert(tok_prefix_len(rest2) == te - w2e);
    }
    let token = vstd::slice::slice_subrange(c.as_slice(), w2e, te);
    proof {
        assert(token@ =~= line_token(c@));
    }
    match decode_timestamp(token) {
        Ok(tp) => {
            let mut parts: Vec<IdxFilePart> = Vec::new();
            parts.push(
                IdxFilePart::Filler(
                    vstd::slice::slice_to_vec(vstd::slice::slice_subrange(c.as_slice(), 0, w1)),
                ),
            );
            parts.push(
                IdxFilePart::Filler(
                    vstd::slice::slice_to_vec(
                        vstd::slice::slice_subrange(c.as_slice(), w1, m_end),
                    ),
                ),
            );
            parts.push(
                IdxFilePart::Filler(
                    vstd::slice::slice_to_vec(
                        vstd::slice::slice_subrange(c.as_slice(), m_end, w2e),
                    ),
                ),
            );
            parts.push(IdxFilePart::Timestamp(tp));
            parts.push(
                IdxFilePart::Filler(
                    vstd::slice::slice_to_vec(vstd::slice::slice_subrange(c.as_slice(), te, n)),
                ),
            );
            proof {
                assert(c@.subrange(0, w1 as int) =~= line_ws1(c@));
                assert(c@.subrange(w1 as int, m_end as int) == marker());
                assert(c@.subrange(m_end as int, w2e as int) =~= line_ws2(c@));
                assert(c@.subrange(te as int, n as int) =~= line_trailing(c@));
                assert(part_views(parts@) =~= line_parts(c@));
            }
            Ok(parts)
        },
        Err(fault) => {
            let msg: String = match fault {
                DecodeFault::Shape => "expected four colon-separated number fields".to_owned(),
                DecodeFault::Range => "timestamp value too large".to_owned(),
            };
            assert(msg@ == line_error_msg(c@));
            Err(ErrorKind::IdxLineParseError { line_num, msg })
        },
    }
}


/// A marker line is canonical when its token is exactly what the token's
/// value encodes back to.
pub open spec fn line_canonical(c: Seq<u8>) -> bool {
    is_marker_line(c) ==> encode_time(decode_time(line_token(c))->0) == line_token(c)
}

/// Every timestamp token of the input is in canonical `HH:MM:SS:mmm` form.
pub open spec fn canonical_timestamps(b: Seq<u8>) -> bool {
    forall|i: int|
        0 <= i < lines_of(after_bom(b)).len() ==> line_canonical(
            (#[trigger] lines_of(after_bom(b))[i]).0,
        )
}

/// A line that parses renders back to itself, provided its token (if any) is
/// canonical.
proof fn lemma_line_parts_render(c: Seq<u8>)
    requires
        line_ok(c),
        line_canonical(c),
    ensures
        render(line_parts(c)) == c,
{
    let e = Seq::<PartModel>::empty();
    assert(render(e) =~= Seq::<u8>::empty());
    if is_marker_line(c) {
        lemma_ws_prefix(c);
        let w1 = ws_prefix_len(c);
        let rest1 = line_after_marker(c);
        lemma_ws_prefix(rest1);
        let w2 = ws_prefix_len(rest1);
        let rest2 = line_rest(c);
        lemma_tok_prefix(rest2);
        let tl = tok_prefix_len(rest2);
        let ps = line_parts(c);
        let p1 = e.push(PartModel::Filler(line_ws1(c)));
        let p2 = p1.push(PartModel::Filler(marker()));
        let p3 = p2.push(PartModel::Filler(line_ws2(c)));
        let p4 = p3.push(PartModel::Timestamp(decode_time(line_token(c))->0));
        let p5 = p4.push(PartModel::Filler(line_trailing(c)));
        assert(ps =~= p5);
        lemma_render_snoc(e, PartModel::Filler(line_ws1(c)));
        lemma_render_snoc(p1, PartModel::Filler(marker()));
        lemma_render_snoc(p2, PartModel::Filler(line_ws2(c)));
        lemma_render_snoc(p3, PartModel::Timestamp(decode_time(line_token(c))->0));
        lemma_render_snoc(p4, PartModel::Filler(line_trailing(c)));
        assert(render(ps) == line_ws1(c) + marker() + line_ws2(c) + encode_time(
            decode_time(line_token(c))->0,
        ) + line_trailing(c));
        assert(line_ws1(c) + marker() + line_ws2(c) + line_token(c) + line_trailing(c) =~= c) by {
            assert(marker() =~= c.subrange(w1, w1 + 10));
            assert(line_ws2(c) =~= c.subrange(w1 + 10, w1 + 10 + w2));
            assert(line_token(c) =~= c.subrange(w1 + 10 + w2, w1 + 10 + w2 + tl));
            assert(line_trailing(c) =~= c.subrange(w1 + 10 + w2 + tl, c.len() as int));
        }
    } else {
        assert(line_parts(c).skip(1) =~= e);
        assert(render(line_parts(c)) =~= c);
    }
}

proof fn lemma_lines_parts_render(ls: Seq<(Seq<u8>, Seq<u8>)>)
    requires
        forall|i: int|
            0 <= i < ls.len() ==> line_ok((#[trigger] ls[i]).0) && line_canonical(ls[i].0),
    ensures
        render(lines_parts(ls)) == concat_lines(ls),
    decreases ls.len(),
{
    if ls.len() == 0 {
        assert(render(lines_parts(ls)) =~= concat_lines(ls));
    } else {
        assert forall|j: int|
            0 <= j < ls.skip(1).len() implies line_ok((#[trigger] ls.skip(1)[j]).0)
            && line_canonical(ls.skip(1)[j].0) by {
            assert(ls.skip(1)[j] == ls[j + 1]);
        }
        lemma_lines_parts_render(ls.skip(1));
        lemma_line_parts_render(ls[0].0);
        lemma_render_concat(
            line_parts(ls[0].0) + seq![PartModel::Filler(ls[0].1)],
            lines_parts(ls.skip(1)),
        );
        lemma_render_concat(line_parts(ls[0].0), seq![PartModel::Filler(ls[0].1)]);
        assert(seq![PartModel::Filler(ls[0].1)].skip(1) =~= Seq::<PartModel>::empty());
        assert(render(Seq::<PartModel>::empty()) =~= Seq::<u8>::empty());
        assert(render(seq![PartModel::Filler(ls[0].1)]) =~= ls[0].1);
        assert(render(lines_parts(ls)) =~= concat_lines(ls));
    }
}

/// Round-trip identity: an input that parses, all of whose timestamp tokens
/// are canonical, is reproduced byte for byte by serializing the parsed
/// document.
pub proof fn lemma_round_trip(b: Seq<u8>)
    requires
        parse_ok(b),
        canonical_timestamps(b),
    ensures
        render(normalize(doc_parts(b))) == b,
{
    crate::parts::lemma_normalize_render(doc_parts(b));
    let ls = lines_of(after_bom(b));
    lemma_lines_parts_render(ls);
    lemma_lines_concat(after_bom(b));
    lemma_render_concat(seq![PartModel::Filler(bom_prefix(b))], lines_parts(ls));
    assert(seq![PartModel::Filler(bom_prefix(b))].skip(1) =~= Seq::<PartModel>::empty());
    assert(render(Seq::<PartModel>::empty()) =~= Seq::<u8>::empty());
    assert(render(seq![PartModel::Filler(bom_prefix(b))]) =~= bom_prefix(b));
    assert(bom_prefix(b) + after_bom(b) =~= b);
    assert(render(doc_parts(b)) =~= b);
}

proof fn lemma_lines_parts_no_times(ls: Seq<(Seq<u8>, Seq<u8>)>)
    requires
        forall|i: int| 0 <= i < ls.len() ==> !is_marker_line((#[trigger] ls[i]).0),
    ensures
        times_of(lines_parts(ls)) == Seq::<int>::empty(),
    decreases ls.len(),
{
    if ls.len() == 0 {
        assert(times_of(lines_parts(ls)) =~= Seq::<int>::empty());
    } else {
        assert forall|j: int|
            0 <= j < ls.skip(1).len() implies !is_marker_line((#[trigger] ls.skip(1)[j]).0) by {
            assert(ls.skip(1)[j] == ls[j + 1]);
        }
        lemma_lines_parts_no_times(ls.skip(1));
        lemma_times_concat(
            line_parts(ls[0].0) + seq![PartModel::Filler(ls[0].1)],
            lines_parts(ls.skip(1)),
        );
        lemma_times_concat(line_parts(ls[0].0), seq![PartModel::Filler(ls[0].1)]);
        assert(seq![PartModel::Filler(ls[0].1)].skip(1) =~= Seq::<PartModel>::empty());
        assert(times_of(Seq::<PartModel>::empty()) =~= Seq::<int>::empty());
        assert(times_of(seq![PartModel::Filler(ls[0].1)]) =~= Seq::<int>::empty());
        assert(line_parts(ls[0].0).skip(1) =~= Seq::<PartModel>::empty());
        assert(times_of(line_parts(ls[0].0)) =~= Seq::<int>::empty());
        assert(times_of(lines_parts(ls)) =~= Seq::<int>::empty());
    }
}

/// A file with no timestamp lines parses, carries no timestamps, and is
/// still reproduced byte for byte.
pub proof fn lemma_no_timestamp_lines_identity(b: Seq<u8>)
    requires
        forall|i: int|
            0 <= i < lines_of(after_bom(b)).len() ==> !is_marker_line(
                (#[trigger] lines_of(after_bom(b))[i]).0,
            ),
    ensures
        parse_ok(b),
        times_of(normalize(doc_parts(b))).len() == 0,
        render(normalize(doc_parts(b))) == b,
{
    lemma_round_trip(b);
    crate::parts::lemma_normalize_times(doc_parts(b));
    let ls = lines_of(after_bom(b));
    lemma_lines_parts_no_times(ls);
    lemma_times_concat(seq![PartModel::Filler(bom_prefix(b))], lines_parts(ls));
    assert(seq![PartModel::Filler(bom_prefix(b))].skip(1) =~= Seq::<PartModel>::empty());
    assert(times_of(Seq::<PartModel>::empty()) =~= Seq::<int>::empty());
    assert(times_of(seq![PartModel::Filler(bom_prefix(b))]) =~= Seq::<int>::empty());
    assert(times_of(doc_parts(b)) =~= Seq::<int>::empty());
}

/// What parsing returns is normalized: no two adjacent parts are both
/// filler.
pub proof fn lemma_parse_no_adjacent_fillers(b: Seq<u8>)
    ensures
        no_adjacent_fillers(normalize(doc_parts(b))),
{
    crate::parts::lemma_normalize_no_adjacent_fillers(doc_parts(b));
}

/// The pending filler run of the normalization pass.
spec fn pending_state(have: bool, pending: Seq<u8>) -> Seq<PartModel> {
    if have {
        seq![PartModel::Filler(pending)]
    } else {
        Seq::empty()
    }
}

impl IdxFile {

    /// Parses `.idx` subtitle text. On success the document holds every byte
    /// of the input, normalized so that no two adjacent parts are both
    /// filler; the first malformed line aborts the parse with its 0-based
    /// index and a diagnostic.
    pub fn parse(s: &str) -> (r: Result<IdxFile, ErrorKind>)
        ensures
            r is Ok <==> parse_ok(s.spec_bytes()),
            r is Ok ==> r->Ok_0@ == normalize(doc_parts(s.spec_bytes())),
            r is Err ==> ({
                let ls = lines_of(after_bom(s.spec_bytes()));
                (r->Err_0 matches ErrorKind::IdxLineParseError { line_num, msg } && line_num
                    == first_bad_line(ls) && msg@ == line_error_msg(ls[first_bad_line(ls)].0))
            }),
    {
        let b = s.as_bytes();
        let ghost bs = s.spec_bytes();
        let (bom_vec, rest) = split_bom(b);
        let lines = get_lines_non_destructive(rest);
        let ghost ls = lines_of(after_bom(bs));
        let mut result: Vec<IdxFilePart> = Vec::new();
        result.push(IdxFilePart::Filler(bom_vec));
        proof {
            assert(ls.take(0) =~= Seq::<(Seq<u8>, Seq<u8>)>::empty());
            assert(lines_parts(Seq::<(Seq<u8>, Seq<u8>)>::empty()) =~= Seq::<PartModel>::empty());
            assert(part_views(result@) =~= seq![PartModel::Filler(bom_prefix(bs))] + lines_parts(
                ls.take(0),
            ));
        }
        let mut i: usize = 0;
        while i < lines.len()
            invariant
                0 <= i <= lines@.len(),
                bs == s.spec_bytes(),
                ls == lines_of(after_bom(bs)),
                line_views(lines@) == ls,
                part_views(result@) == seq![PartModel::Filler(bom_prefix(bs))] + lines_parts(
                    ls.take(i as int),
                ),
                forall|j: int| 0 <= j < i ==> line_ok((#[trigger] ls[j]).0),
            decreases lines@.len() - i,
        {
            let pair = &lines[i];
            let ghost l = ls[i as int];
            proof {
                assert(l == (pair.0@, pair.1@));
            }
            match parse_line(i, &pair.0) {
                Ok(mut parts) => {
                    let ghost mid = result@;
                    let ghost pviews = parts@;
                    result.append(&mut parts);
                    assert(part_views(result@) =~= part_views(mid) + part_views(pviews));
                    let ghost mid2 = result@;
                    let termv = vstd::slice::slice_to_vec(pair.1.as_slice());
                    result.push(IdxFilePart::Filler(termv));
                    proof {
                        assert(part_views(result@) =~= part_views(mid2) + seq![
                            PartModel::Filler(l.1),
                        ]);
                        assert(ls.take(i + 1) =~= ls.take(i as int).push(l));
                        lemma_lines_parts_snoc(ls.take(i as int), l);
                        assert(part_views(result@) =~= seq![PartModel::Filler(bom_prefix(bs))]
                            + lines_parts(ls.take(i + 1)));
                    }
                },
                Err(e) => {
                    proof {
                        lemma_first_bad_line(ls);
                        assert(first_bad_line(ls) == i as int);
                        assert(!line_ok((ls[i as int]).0));
                        assert(!parse_ok(bs));
                    }
                    return Err(e);
                },
            }
            i = i + 1;
        }
        proof {
            assert(ls.take(ls.len() as int) =~= ls);
            assert(parse_ok(bs));
        }
        Ok(IdxFile::new(result))
    }

    /// The parts of the document, in order.
    pub fn parts(&self) -> (r: &Vec<IdxFilePart>)
        ensures
            part_views(r@) == self@,
    {
        &self.v
    }

    /// Builds a document from raw parts, merging every run of consecutive
    /// fillers into one.
    fn new(v: Vec<IdxFilePart>) -> (r: IdxFile)
        ensures
            r@ == normalize(part_views(v@)),
    {
        let mut out: Vec<IdxFilePart> = Vec::new();
        let mut pending: Vec<u8> = Vec::new();
        let mut have: bool = false;
        let mut i: usize = 0;
        proof {
            assert(part_views(v@).skip(0) =~= part_views(v@));
            assert(pending_state(false, pending@) + part_views(v@) =~= part_views(v@));
        }
        while i < v.len()
            invariant
                0 <= i <= v@.len(),
                !have ==> pending@ == Seq::<u8>::empty(),
                normalize(part_views(v@)) == part_views(out@) + normalize(
                    pending_state(have, pending@) + part_views(v@).skip(i as int),
                ),
            decreases v@.len() - i,
        {
            let ghost pv = part_views(v@);
            let ghost st = pending_state(have, pending@);
            let ghost rem = pv.skip(i as int);
            let ghost rem2 = pv.skip(i + 1);
            proof {
                assert(rem =~= seq![pv[i as int]] + rem2);
            }
            match &v[i] {
                IdxFilePart::Filler(f) => {
                    let ghost fv = f@;
                    proof {
                        lemma_normalize_filler_cons(fv, rem2);
                        if have {
                            assert(st + rem =~= seq![PartModel::Filler(pending@)] + (seq![
                                PartModel::Filler(fv),
                            ] + rem2));
                            lemma_normalize_filler_cons(
                                pending@,
                                seq![PartModel::Filler(fv)] + rem2,
                            );
                            lemma_merge_front_merge(pending@, fv, normalize(rem2));
                            lemma_normalize_filler_cons(pending@ + fv, rem2);
                            assert(normalize(st + rem) == normalize(
                                seq![PartModel::Filler(pending@ + fv)] + rem2,
                            ));
                        } else {
                            assert(st + rem =~= seq![PartModel::Filler(fv)] + rem2);
                            assert(pending@ + fv =~= fv);
                        }
                        assert(pending_state(true, pending@ + fv) + rem2 =~= seq![
                            PartModel::Filler(pending@ + fv),
                        ] + rem2);
                        assert(normalize(st + rem) == normalize(
                            pending_state(true, pending@ + fv) + rem2,
                        ));
                    }
                    let mut fcopy = vstd::slice::slice_to_vec(f.as_slice());
                    pending.append(&mut fcopy);
                    have = true;
                    assert(normalize(part_views(v@)) == part_views(out@) + normalize(
                        pending_state(have, pending@) + rem2,
                    ));
                },
                IdxFilePart::Timestamp(t) => {
                    let ghost tv = t@;
                    let ghost norm_tail = (seq![PartModel::Filler(st[0]->Filler_0),
                        PartModel::Timestamp(tv)] + normalize(rem2));
                    proof {
                        lemma_normalize_timestamp_cons(tv, rem2);
                        if have {
                            assert(st + rem =~= seq![PartModel::Filler(pending@)] + (seq![
                                PartModel::Timestamp(tv),
                            ] + rem2));
                            lemma_normalize_filler_cons(
                                pending@,
                                seq![PartModel::Timestamp(tv)] + rem2,
                            );
                            assert(normalize(seq![PartModel::Timestamp(tv)] + rem2)[0]
                                == PartModel::Timestamp(tv));
                            assert(merge_front(
                                pending@,
                                normalize(seq![PartModel::Timestamp(tv)] + rem2),
                            ) =~= norm_tail);
                            assert(normalize(st + rem) == norm_tail);
                        } else {
                            assert(st + rem =~= seq![PartModel::Timestamp(tv)] + rem2);
                            assert(normalize(st + rem) == seq![PartModel::Timestamp(tv)]
                                + normalize(rem2));
                        }
                        assert(pending_state(false, Seq::<u8>::empty()) + rem2 =~= rem2);
                    }
                    let ghost prev_out = out@;
                    if have {
                        out.push(IdxFilePart::Filler(pending));
                        pending = Vec::new();
                        have = false;
                        assert(part_views(out@) =~= part_views(prev_out) + seq![
                            PartModel::Filler(st[0]->Filler_0),
                        ]);
                    }
                    let ghost mid_out = out@;
                    out.push(IdxFilePart::Timestamp(*t));
                    proof {
                        assert(part_views(out@) =~= part_views(mid_out) + seq![
                            PartModel::Timestamp(tv),
                        ]);
                        assert(part_views(out@) + normalize(rem2) =~= part_views(prev_out)
                            + normalize(st + rem));
                        assert(normalize(pending_state(have, pending@) + rem2) == normalize(rem2));
                        assert(normalize(part_views(v@)) == part_views(out@) + normalize(
                            pending_state(have, pending@) + rem2,
                        ));
                    }
                },
            }
            i = i + 1;
        }
        proof {
            assert(part_views(v@).skip(v@.len() as int) =~= Seq::<PartModel>::empty());
        }
        if have {
            let ghost st = pending_state(have, pending@);
            proof {
                assert(st + Seq::<PartModel>::empty() =~= seq![PartModel::Filler(pending@)]);
                lemma_normalize_filler_cons(pending@, Seq::<PartModel>::empty());
                assert(normalize(Seq::<PartModel>::empty()) =~= Seq::<PartModel>::empty());
                assert(merge_front(pending@, Seq::<PartModel>::empty()) =~= seq![
                    PartModel::Filler(pending@),
                ]);
                assert(seq![PartModel::Filler(pending@)] + Seq::<PartModel>::empty() =~= seq![
                    PartModel::Filler(pending@),
                ]);
            }
            let ghost prev_out = out@;
            out.push(IdxFilePart::Filler(pending));
            assert(part_views(out@) =~= part_views(prev_out) + seq![
                PartModel::Filler(st[0]->Filler_0),
            ]);
            assert(part_views(out@) =~= normalize(part_views(v@)));
        } else {
            proof {
                assert(pending_state(false, pending@) + Seq::<PartModel>::empty() =~= Seq::<
                    PartModel,
                >::empty());
                assert(normalize(Seq::<PartModel>::empty()) =~= Seq::<PartModel>::empty());
                assert(part_views(out@) =~= normalize(part_views(v@)));
            }
        }
        IdxFile { v: out }
    }

    /// Serializes the document: filler bytes verbatim, each timestamp through
    /// the codec, nothing in between.
    pub fn to_data(&self) -> (r: Vec<u8>)
        ensures
            r@ == render(self@),
    {
        let mut r: Vec<u8> = Vec::new();
        let mut i: usize = 0;
        proof {
            assert(part_views(self.v@).take(0) =~= Seq::<PartModel>::empty());
            assert(render(Seq::<PartModel>::empty()) =~= Seq::<u8>::empty());
        }
        while i < self.v.len()
            invariant
                0 <= i <= self.v@.len(),
                r@ == render(part_views(self.v@).take(i as int)),
            decreases self.v@.len() - i,
        {
            let ghost pv = part_views(self.v@);
            proof {
                assert(pv.take(i + 1) =~= pv.take(i as int).push(pv[i as int]));
                lemma_render_snoc(pv.take(i as int), pv[i as int]);
            }
            match &self.v[i] {
                IdxFilePart::Filler(f) => {
                    let mut fcopy = vstd::slice::slice_to_vec(f.as_slice());
                    r.append(&mut fcopy);
                },
                IdxFilePart::Timestamp(t) => {
                    let mut enc = crate::codec::encode_timestamp(*t);
                    r.append(&mut enc);
                },
            }
            assert(r@ =~= render(pv.take(i + 1)));
            i = i + 1;
        }
        proof {
            assert(part_views(self.v@).take(self.v@.len() as int) =~= part_views(self.v@));
        }
        r
    }

    /// One display interval per timestamp, in document order: each starts at
    /// its timestamp and ends at the next one; the last is shown for one
    /// minute. The requirement on the last timestamp only keeps that minute
    /// representable.
    pub fn get_subtitle_entries(&self) -> (r: Vec<SubtitleEntry>)
        requires
            times_of(self@).len() > 0 ==> times_of(self@).last() + 60000 <= i64::MAX,
        ensures
            r@.len() == times_of(self@).len(),
            forall|i: int|
                0 <= i < r@.len() ==> (#[trigger] r@[i]).timespan.start@ == times_of(self@)[i],
            forall|i: int|
                0 <= i < r@.len() - 1 ==> (#[trigger] r@[i]).timespan.end@ == times_of(self@)[i
                    + 1],
            r@.len() > 0 ==> r@.last().timespan.end@ == times_of(self@).last() + 60000,
    {
        let ghost pv = part_views(self.v@);
        let mut times: Vec<TimePoint> = Vec::new();
        let mut i: usize = 0;
        proof {
            assert(pv.take(0) =~= Seq::<PartModel>::empty());
            assert(times_of(Seq::<PartModel>::empty()) =~= Seq::<int>::empty());
            assert(time_views(times@) =~= times_of(pv.take(0)));
        }
        while i < self.v.len()
            invariant
                0 <= i <= self.v@.len(),
                pv == part_views(self.v@),
                time_views(times@) == times_of(pv.take(i as int)),
            decreases self.v@.len() - i,
        {
            proof {
                assert(pv.take(i + 1) =~= pv.take(i as int).push(pv[i as int]));
                lemma_times_snoc(pv.take(i as int), pv[i as int]);
            }
            match &self.v[i] {
                IdxFilePart::Filler(_) => {
                    assert(time_views(times@) =~= times_of(pv.take(i + 1)));
                },
                IdxFilePart::Timestamp(t) => {
                    times.push(*t);
                    assert(time_views(times@) =~= times_of(pv.take(i + 1)));
                },
            }
            i = i + 1;
        }
        proof {
            assert(pv.take(self.v@.len() as int) =~= pv);
        }
        let n = times.len();
        let mut r: Vec<SubtitleEntry> = Vec::new();
        let mut k: usize = 0;
        while k < n
            invariant
                0 <= k <= n,
                n == times@.len(),
                time_views(times@) == times_of(self@),
                times_of(self@).len() > 0 ==> times_of(self@).last() + 60000 <= i64::MAX,
                r@.len() == k,
                forall|j: int|
                    0 <= j < k ==> (#[trigger] r@[j]).timespan.start@ == times_of(self@)[j],
                forall|j: int|
                    0 <= j < k && j < n - 1 ==> (#[trigger] r@[j]).timespan.end@ == times_of(
                        self@,
                    )[j + 1],
                k == n && n > 0 ==> r@.last().timespan.end@ == times_of(self@).last() + 60000,
            decreases n - k,
        {
            let start = times[k];
            let end: TimePoint;
            if k + 1 < n {
                end = times[k + 1];
            } else {
                proof {
                    crate::timetypes::lemma_time_point_bounds(times@[k as int]);
                }
                end = times[k].plus(TimeDelta::from_mins(1));
            }
            r.push(SubtitleEntry::from_span(TimeSpan::new(start, end)));
            k = k + 1;
        }
        r
    }

    /// Overwrites each timestamp, in document order, with the start of the
    /// corresponding entry; fillers are untouched. The caller must supply
    /// exactly one entry per timestamp.
    pub fn update_subtitle_entries(&mut self, ts: &[SubtitleEntry])
        requires
            ts@.len() == times_of(old(self)@).len(),
        ensures
            final(self)@ == updated_parts(old(self)@, starts_view(ts@)),
            times_of(final(self)@) == starts_view(ts@),
    {
        proof {
            crate::parts::lemma_updated_times(part_views(self.v@), starts_view(ts@));
        }
        let ghost pv = part_views(self.v@);
        let ghost starts = starts_view(ts@);
        let n = self.v.len();
        let mut out: Vec<IdxFilePart> = Vec::new();
        let mut count: usize = 0;
        let mut i: usize = 0;
        proof {
            assert(pv.take(0) =~= Seq::<PartModel>::empty());
            assert(times_of(Seq::<PartModel>::empty()) =~= Seq::<int>::empty());
            assert(updated_parts(Seq::<PartModel>::empty(), starts) =~= Seq::<PartModel>::empty());
            assert(part_views(out@) =~= updated_parts(pv.take(0), starts));
        }
        while i < n
            invariant
                0 <= i <= self.v@.len(),
                n == self.v@.len(),
                self.v@ == old(self).v@,
                pv == part_views(self.v@),
                starts == starts_view(ts@),
                starts.len() == times_of(pv).len(),
                count == times_of(pv.take(i as int)).len(),
                count <= starts.len(),
                part_views(out@) == updated_parts(pv.take(i as int), starts),
            decreases n - i,
        {
            proof {
                assert(pv.take(i + 1) =~= pv.take(i as int).push(pv[i as int]));
                lemma_times_snoc(pv.take(i as int), pv[i as int]);
                assert(pv =~= pv.take(i + 1) + pv.skip(i + 1));
                lemma_times_concat(pv.take(i + 1), pv.skip(i + 1));
                lemma_updated_snoc(pv.take(i as int), pv[i as int], starts);
            }
            let ghost prev_out = out@;
            match &self.v[i] {
                IdxFilePart::Filler(f) => {
                    out.push(IdxFilePart::Filler(vstd::slice::slice_to_vec(f.as_slice())));
                    assert(part_views(out@) =~= part_views(prev_out) + seq![pv[i as int]]);
                    assert(part_views(out@) =~= updated_parts(pv.take(i + 1), starts));
                },
                IdxFilePart::Timestamp(_) => {
                    out.push(IdxFilePart::Timestamp(ts[count].timespan.start));
                    count = count + 1;
                    assert(part_views(out@) =~= part_views(prev_out) + seq![
                        PartModel::Timestamp(starts[count - 1]),
                    ]);
                    assert(part_views(out@) =~= updated_parts(pv.take(i + 1), starts));
                },
            }
            i = i + 1;
        }
        proof {
            assert(pv.take(self.v@.len() as int) =~= pv);
        }
        self.v = out;
    }
}

} // verus!
