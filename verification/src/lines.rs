//! Non-destructive line splitting: the input is divided into a possibly
//! empty byte-order-mark prefix and a sequence of (content, terminator)
//! pairs. The terminator of each line is kept (`\n`, `\r\n`, or empty for a
//! final line that ends without one), so that concatenating every content and
//! terminator, in order, reproduces the input exactly.

use vstd::prelude::*;

verus! {

/// The UTF-8 byte-order mark.
pub open spec fn bom() -> Seq<u8> {
    seq![239u8, 187u8, 191u8]
}

pub open spec fn has_bom(b: Seq<u8>) -> bool {
    b.len() >= 3 && b.subrange(0, 3) == bom()
}

/// The byte-order-mark prefix of the input: the mark itself, or empty.
pub open spec fn bom_prefix(b: Seq<u8>) -> Seq<u8> {
    if has_bom(b) {
        bom()
    } else {
        Seq::empty()
    }
}

/// The input with its byte-order mark, if any, removed.
pub open spec fn after_bom(b: Seq<u8>) -> Seq<u8> {
    if has_bom(b) {
        b.skip(3)
    } else {
        b
    }
}

/// The position of the first line feed, or -1 when there is none.
pub open spec fn find_nl(s: Seq<u8>) -> int
    decreases s.len(),
{
    if s.len() == 0 {
        -1
    } else if s[0] == 10 {
        0
    } else {
        let r = find_nl(s.skip(1));
        if r < 0 {
            -1
        } else {
            r + 1
        }
    }
}

pub proof fn lemma_find_nl(s: Seq<u8>)
    ensures
        find_nl(s) == -1 ==> forall|j: int| 0 <= j < s.len() ==> s[j] != 10,
        find_nl(s) >= 0 ==> 0 <= find_nl(s) < s.len() && s[find_nl(s)] == 10 && forall|j: int|
            0 <= j < find_nl(s) ==> s[j] != 10,
    decreases s.len(),
{
    if s.len() > 0 && s[0] != 10 {
        lemma_find_nl(s.skip(1));
        let r = find_nl(s.skip(1));
        if r == -1 {
            assert forall|j: int| 0 <= j < s.len() implies s[j] != 10 by {
                if j >= 1 {
                    assert(s[j] == s.skip(1)[j - 1]);
                }
            }
        } else {
            assert(s[r + 1] == s.skip(1)[r]);
            assert forall|j: int| 0 <= j < r + 1 implies s[j] != 10 by {
                if j >= 1 {
                    assert(s[j] == s.skip(1)[j - 1]);
                }
            }
        }
    }
}

/// The lines of the input: (content, terminator) pairs, in order, where the
/// terminator is the line's own ending bytes.
pub open spec fn lines_of(s: Seq<u8>) -> Seq<(Seq<u8>, Seq<u8>)>
    decreases s.len(),
{
    if s.len() == 0 {
        Seq::empty()
    } else {
        let k = find_nl(s);
        if 0 <= k < s.len() {
            if k > 0 && s[k - 1] == 13 {
                seq![(s.take(k - 1), seq![13u8, 10u8])] + lines_of(s.skip(k + 1))
            } else {
                seq![(s.take(k), seq![10u8])] + lines_of(s.skip(k + 1))
            }
        } else {
            seq![(s, Seq::<u8>::empty())]
        }
    }
}

/// The concatenation of every line's content and terminator, in order.
pub open spec fn concat_lines(ls: Seq<(Seq<u8>, Seq<u8>)>) -> Seq<u8>
    decreases ls.len(),
{
    if ls.len() == 0 {
        Seq::empty()
    } else {
        ls[0].0 + ls[0].1 + concat_lines(ls.skip(1))
    }
}

/// Line splitting loses nothing: the lines concatenate back to the input.
pub proof fn lemma_lines_concat(s: Seq<u8>)
    ensures
        concat_lines(lines_of(s)) == s,
    decreases s.len(),
{
    if s.len() > 0 {
        let k = find_nl(s);
        lemma_find_nl(s);
        if 0 <= k < s.len() {
            lemma_lines_concat(s.skip(k + 1));
            if k > 0 && s[k - 1] == 13 {
                let line = (s.take(k - 1), seq![13u8, 10u8]);
                assert((seq![line] + lines_of(s.skip(k + 1))).skip(1) =~= lines_of(s.skip(k + 1)));
                assert(s.take(k - 1) + seq![13u8, 10u8] + s.skip(k + 1) =~= s);
                assert(concat_lines(lines_of(s)) =~= s);
            } else {
                let line = (s.take(k), seq![10u8]);
                assert((seq![line] + lines_of(s.skip(k + 1))).skip(1) =~= lines_of(s.skip(k + 1)));
                assert(s.take(k) + seq![10u8] + s.skip(k + 1) =~= s);
                assert(concat_lines(lines_of(s)) =~= s);
            }
        } else {
            assert(seq![(s, Seq::<u8>::empty())].skip(1) =~= Seq::<(Seq<u8>, Seq<u8>)>::empty());
            assert(concat_lines(Seq::<(Seq<u8>, Seq<u8>)>::empty()) =~= Seq::<u8>::empty());
            assert(concat_lines(lines_of(s)) =~= s);
        }
    }
}

/// The (content, terminator) views of split lines.
pub open spec fn line_views(v: Seq<(Vec<u8>, Vec<u8>)>) -> Seq<(Seq<u8>, Seq<u8>)> {
    Seq::new(v.len(), |i: int| (v[i].0@, v[i].1@))
}

/// Splits off the byte-order mark, keeping its bytes.
pub fn split_bom<'a>(s: &'a [u8]) -> (r: (Vec<u8>, &'a [u8]))
    ensures
        r.0@ == bom_prefix(s@),
        r.1@ == after_bom(s@),
{
    if s.len() >= 3 && s[0] == 239 && s[1] == 187 && s[2] == 191 {
        proof {
            assert(s@.subrange(0, 3) =~= bom());
        }
        let head = vstd::slice::slice_to_vec(vstd::slice::slice_subrange(s, 0, 3));
        let rest = vstd::slice::slice_subrange(s, 3, s.len());
        assert(rest@ =~= s@.skip(3));
        (head, rest)
    } else {
        proof {
            if has_bom(s@) {
                assert(s@[0] == s@.subrange(0, 3)[0]);
                assert(s@[1] == s@.subrange(0, 3)[1]);
                assert(s@[2] == s@.subrange(0, 3)[2]);
            }
        }
        (Vec::new(), s)
    }
}

/// Splits the input into (content, terminator) lines without discarding any
/// byte; terminators are `\n`, `\r\n`, or empty for an unterminated final
/// line.
pub fn get_lines_non_destructive(s: &[u8]) -> (r: Vec<(Vec<u8>, Vec<u8>)>)
    ensures
        line_views(r@) == lines_of(s@),
{
    let mut out: Vec<(Vec<u8>, Vec<u8>)> = Vec::new();
    let mut pos: usize = 0;
    proof {
        assert(s@.skip(0) =~= s@);
        assert(line_views(out@) + lines_of(s@) =~= lines_of(s@));
    }
    while pos < s.len()
        invariant
            0 <= pos <= s@.len(),
            line_views(out@) + lines_of(s@.skip(pos as int)) == lines_of(s@),
        decreases s@.len() - pos,
    {
        let ghost opos = pos as int;
        let ghost rem = s@.skip(pos as int);
        let mut j: usize = pos;
        while j < s.len() && s[j] != 10
            invariant
                pos <= j <= s@.len(),
                forall|p: int| pos <= p < j ==> s@[p] != 10,
            decreases s@.len() - j,
        {
            j = j + 1;
        }
        proof {
            lemma_find_nl(rem);
            assert forall|p: int| 0 <= p < j - pos implies rem[p] != 10 by {
                assert(rem[p] == s@[pos + p]);
            }
            if j < s@.len() {
                assert(rem[j - pos] == s@[j as int]);
                assert(find_nl(rem) == j - pos);
            } else {
                assert(find_nl(rem) == -1) by {
                    if find_nl(rem) >= 0 {
                        assert(rem[find_nl(rem)] == 10);
                    }
                }
            }
        }
        let ghost prev_out = out@;
        if j >= s.len() {
            let content = vstd::slice::slice_to_vec(vstd::slice::slice_subrange(s, pos, s.len()));
            let term: Vec<u8> = Vec::new();
            assert(content@ =~= rem);
            out.push((content, term));
            proof {
                assert(lines_of(rem) =~= seq![(rem, Seq::<u8>::empty())]);
                assert(line_views(out@) =~= line_views(prev_out) + seq![
                    (rem, Seq::<u8>::empty()),
                ]);
                assert(s@.skip(s@.len() as int) =~= Seq::<u8>::empty());
                assert(line_views(out@) + lines_of(s@.skip(s@.len() as int)) =~= lines_of(s@));
            }
            pos = s.len();
        } else {
            let k: usize = j;
            let line: (Vec<u8>, Vec<u8>);
            if k > pos && s[k - 1] == 13 {
                let content = vstd::slice::slice_to_vec(
                    vstd::slice::slice_subrange(s, pos, k - 1),
                );
                let mut term: Vec<u8> = Vec::new();
                term.push(13);
                term.push(10);
                assert(content@ =~= rem.take(k - pos - 1));
                assert(term@ =~= seq![13u8, 10u8]);
                line = (content, term);
                proof {
                    assert(rem[k - pos - 1] == s@[k - 1]);
                    assert(lines_of(rem) == seq![(rem.take(k - pos - 1), seq![13u8, 10u8])]
                        + lines_of(rem.skip(k - pos + 1)));
                }
            } else {
                let content = vstd::slice::slice_to_vec(vstd::slice::slice_subrange(s, pos, k));
                let mut term: Vec<u8> = Vec::new();
                term.push(10);
                assert(content@ =~= rem.take(k - pos as int));
                assert(term@ =~= seq![10u8]);
                line = (content, term);
                proof {
                    if k - pos > 0 {
                        assert(rem[k - pos - 1] == s@[k - 1]);
                    }
                    assert(lines_of(rem) == seq![(rem.take(k - pos as int), seq![10u8])]
                        + lines_of(rem.skip(k - pos + 1)));
                }
            }
            out.push(line);
            pos = k + 1;
            proof {
                assert(rem.skip(k - opos + 1) =~= s@.skip(pos as int));
                assert(line_views(out@) =~= line_views(prev_out) + seq![
                    (line.0@, line.1@),
                ]);
                assert(line_views(out@) + lines_of(s@.skip(pos as int)) =~= lines_of(s@));
            }
        }
    }
    proof {
        assert(s@.skip(pos as int) =~= Seq::<u8>::empty());
        assert(line_views(out@) =~= lines_of(s@));
    }
    out
}

} // verus!
