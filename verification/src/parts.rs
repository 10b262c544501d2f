//! The document model: an ordered sequence of parts, each either opaque
//! filler text (kept byte for byte) or one parsed timestamp. The model of a
//! part keeps the filler bytes, or the timestamp's millisecond value.

use vstd::prelude::*;
use crate::codec::encode_time;
use crate::timetypes::TimePoint;

verus! {

/// One part of a parsed file.
#[derive(Debug, Clone, PartialEq)]
pub enum IdxFilePart {
    /// Spaces, field labels, comments, unimportant fields: anything that is
    /// reproduced verbatim.
    Filler(Vec<u8>),
    /// One parsed timestamp, such as `00:42:20:204`.
    Timestamp(TimePoint),
}

/// The mathematical model of one part.
pub enum PartModel {
    Filler(Seq<u8>),
    Timestamp(int),
}

impl View for IdxFilePart {
    type V = PartModel;

    open spec fn view(&self) -> PartModel {
        match self {
            IdxFilePart::Filler(f) => PartModel::Filler(f@),
            IdxFilePart::Timestamp(t) => PartModel::Timestamp(t@),
        }
    }
}

/// The models of a sequence of parts.
pub open spec fn part_views(v: Seq<IdxFilePart>) -> Seq<PartModel> {
    Seq::new(v.len(), |i: int| v[i]@)
}

/// The bytes one part serializes to.
pub open spec fn render_part(p: PartModel) -> Seq<u8> {
    match p {
        PartModel::Filler(f) => f,
        PartModel::Timestamp(t) => encode_time(t),
    }
}

/// The bytes a sequence of parts serializes to: each part's rendering, in
/// order, with nothing in between.
pub open spec fn render(ps: Seq<PartModel>) -> Seq<u8>
    decreases ps.len(),
{
    if ps.len() == 0 {
        Seq::empty()
    } else {
        render_part(ps[0]) + render(ps.skip(1))
    }
}

/// The timestamp values of a sequence of parts, in order.
pub open spec fn times_of(ps: Seq<PartModel>) -> Seq<int>
    decreases ps.len(),
{
    if ps.len() == 0 {
        Seq::empty()
    } else {
        match ps[0] {
            PartModel::Timestamp(t) => seq![t] + times_of(ps.skip(1)),
            PartModel::Filler(_) => times_of(ps.skip(1)),
        }
    }
}

/// The normalization invariant: no two adjacent parts are both filler.
pub open spec fn no_adjacent_fillers(ps: Seq<PartModel>) -> bool {
    forall|i: int|
        0 <= i && i + 1 < ps.len() ==> !((#[trigger] ps[i]) is Filler && ps[i + 1] is Filler)
}

/// Puts filler bytes in front of a part sequence, merging them into its
/// first part when that part is itself filler.
pub open spec fn merge_front(f: Seq<u8>, qs: Seq<PartModel>) -> Seq<PartModel> {
    if qs.len() > 0 && qs[0] is Filler {
        seq![PartModel::Filler(f + qs[0]->Filler_0)] + qs.skip(1)
    } else {
        seq![PartModel::Filler(f)] + qs
    }
}

/// Merges every run of consecutive filler parts into a single filler,
/// concatenating their bytes in order; timestamps are untouched.
pub open spec fn normalize(ps: Seq<PartModel>) -> Seq<PartModel>
    decreases ps.len(),
{
    if ps.len() == 0 {
        Seq::empty()
    } else {
        let rest = normalize(ps.skip(1));
        match ps[0] {
            PartModel::Timestamp(t) => seq![ps[0]] + rest,
            PartModel::Filler(f) => merge_front(f, rest),
        }
    }
}

pub proof fn lemma_render_concat(a: Seq<PartModel>, b: Seq<PartModel>)
    ensures
        render(a + b) == render(a) + render(b),
    decreases a.len(),
{
    if a.len() == 0 {
        assert(a + b =~= b);
        assert(render(a) + render(b) =~= render(b));
    } else {
        lemma_render_concat(a.skip(1), b);
        assert((a + b).skip(1) =~= a.skip(1) + b);
        assert(render(a + b) =~= render(a) + render(b));
    }
}

pub proof fn lemma_times_concat(a: Seq<PartModel>, b: Seq<PartModel>)
    ensures
        times_of(a + b) == times_of(a) + times_of(b),
    decreases a.len(),
{
    if a.len() == 0 {
        assert(a + b =~= b);
        assert(times_of(a) + times_of(b) =~= times_of(b));
    } else {
        lemma_times_concat(a.skip(1), b);
        assert((a + b).skip(1) =~= a.skip(1) + b);
        match a[0] {
            PartModel::Timestamp(t) => {
                assert(times_of(a + b) =~= times_of(a) + times_of(b));
            },
            PartModel::Filler(_) => {
                assert(times_of(a + b) =~= times_of(a) + times_of(b));
            },
        }
    }
}

/// Normalization does not change what a document serializes to.
pub proof fn lemma_normalize_render(ps: Seq<PartModel>)
    ensures
        render(normalize(ps)) == render(ps),
    decreases ps.len(),
{
    if ps.len() > 0 {
        lemma_normalize_render(ps.skip(1));
        let rest = normalize(ps.skip(1));
        match ps[0] {
            PartModel::Timestamp(t) => {
                assert((seq![ps[0]] + rest).skip(1) =~= rest);
                assert(render(normalize(ps)) =~= render(ps));
            },
            PartModel::Filler(f) => {
                if rest.len() > 0 && rest[0] is Filler {
                    let merged = seq![PartModel::Filler(f + rest[0]->Filler_0)] + rest.skip(1);
                    assert(merged.skip(1) =~= rest.skip(1));
                    assert(render(merged) == render_part(merged[0]) + render(rest.skip(1)));
                    assert(render(rest) == render_part(rest[0]) + render(rest.skip(1)));
                    assert(render(normalize(ps)) =~= render(ps));
                } else {
                    assert((seq![PartModel::Filler(f)] + rest).skip(1) =~= rest);
                    assert(render(normalize(ps)) =~= render(ps));
                }
            },
        }
    }
}

/// Normalization does not change the timestamps of a document.
pub proof fn lemma_normalize_times(ps: Seq<PartModel>)
    ensures
        times_of(normalize(ps)) == times_of(ps),
    decreases ps.len(),
{
    if ps.len() > 0 {
        lemma_normalize_times(ps.skip(1));
        let rest = normalize(ps.skip(1));
        match ps[0] {
            PartModel::Timestamp(t) => {
                assert((seq![ps[0]] + rest).skip(1) =~= rest);
                assert(times_of(normalize(ps)) =~= times_of(ps));
            },
            PartModel::Filler(f) => {
                if rest.len() > 0 && rest[0] is Filler {
                    let merged = seq![PartModel::Filler(f + rest[0]->Filler_0)] + rest.skip(1);
                    assert(merged.skip(1) =~= rest.skip(1));
                    assert(times_of(rest) == times_of(rest.skip(1)));
                    assert(times_of(normalize(ps)) =~= times_of(ps));
                } else {
                    assert((seq![PartModel::Filler(f)] + rest).skip(1) =~= rest);
                    assert(times_of(normalize(ps)) =~= times_of(ps));
                }
            },
        }
    }
}

/// After normalization no two adjacent parts are both filler.
pub proof fn lemma_normalize_no_adjacent_fillers(ps: Seq<PartModel>)
    ensures
        no_adjacent_fillers(normalize(ps)),
    decreases ps.len(),
{
    if ps.len() > 0 {
        lemma_normalize_no_adjacent_fillers(ps.skip(1));
        let rest = normalize(ps.skip(1));
        match ps[0] {
            PartModel::Timestamp(t) => {
                let out = seq![ps[0]] + rest;
                assert forall|i: int| 0 <= i && i + 1 < out.len() implies !((#[trigger] out[i]) is Filler
                    && out[i + 1] is Filler) by {
                    if i >= 1 {
                        assert(out[i] == rest[i - 1] && out[i + 1] == rest[i]);
                    }
                }
            },
            PartModel::Filler(f) => {
                if rest.len() > 0 && rest[0] is Filler {
                    let out = seq![PartModel::Filler(f + rest[0]->Filler_0)] + rest.skip(1);
                    assert forall|i: int|
                        0 <= i && i + 1 < out.len() implies !((#[trigger] out[i]) is Filler && out[i
                        + 1] is Filler) by {
                        if i == 0 {
                            assert(out[1] == rest.skip(1)[0]);
                            assert(rest.skip(1)[0] == rest[1]);
                            assert(!(rest[0] is Filler && rest[1] is Filler));
                        } else {
                            assert(out[i] == rest.skip(1)[i - 1]);
                            assert(rest.skip(1)[i - 1] == rest[i]);
                            assert(out[i + 1] == rest.skip(1)[i]);
                            assert(rest.skip(1)[i] == rest[i + 1]);
                        }
                    }
                } else {
                    let out = seq![PartModel::Filler(f)] + rest;
                    assert forall|i: int|
                        0 <= i && i + 1 < out.len() implies !((#[trigger] out[i]) is Filler && out[i
                        + 1] is Filler) by {
                        if i >= 1 {
                            assert(out[i] == rest[i - 1] && out[i + 1] == rest[i]);
                        } else {
                            assert(out[1] == rest[0]);
                        }
                    }
                }
            },
        }
    }
}

pub proof fn lemma_normalize_filler_cons(f: Seq<u8>, ps: Seq<PartModel>)
    ensures
        normalize(seq![PartModel::Filler(f)] + ps) == merge_front(f, normalize(ps)),
{
    let c = seq![PartModel::Filler(f)] + ps;
    assert(c.skip(1) =~= ps);
}

pub proof fn lemma_normalize_timestamp_cons(t: int, ps: Seq<PartModel>)
    ensures
        normalize(seq![PartModel::Timestamp(t)] + ps) == seq![PartModel::Timestamp(t)] + normalize(
            ps,
        ),
{
    let c = seq![PartModel::Timestamp(t)] + ps;
    assert(c.skip(1) =~= ps);
}

/// Merging two filler prefixes one after the other is merging their
/// concatenation.
pub proof fn lemma_merge_front_merge(a: Seq<u8>, b: Seq<u8>, qs: Seq<PartModel>)
    ensures
        merge_front(a, merge_front(b, qs)) == merge_front(a + b, qs),
{
    if qs.len() > 0 && qs[0] is Filler {
        let inner = merge_front(b, qs);
        assert(inner[0] == PartModel::Filler(b + qs[0]->Filler_0));
        assert(a + (b + qs[0]->Filler_0) =~= (a + b) + qs[0]->Filler_0);
        assert(inner.skip(1) =~= qs.skip(1));
        assert(merge_front(a, inner) =~= merge_front(a + b, qs));
    } else {
        let inner = seq![PartModel::Filler(b)] + qs;
        assert(inner[0] == PartModel::Filler(b));
        assert(inner.skip(1) =~= qs);
        assert(merge_front(a, inner) =~= merge_front(a + b, qs));
    }
}

pub proof fn lemma_times_snoc(ps: Seq<PartModel>, p: PartModel)
    ensures
        p is Timestamp ==> times_of(ps.push(p)) == times_of(ps) + seq![p->Timestamp_0],
        p is Filler ==> times_of(ps.push(p)) == times_of(ps),
{
    assert(ps.push(p) =~= ps + seq![p]);
    lemma_times_concat(ps, seq![p]);
    assert(seq![p].skip(1) =~= Seq::<PartModel>::empty());
    assert(times_of(Seq::<PartModel>::empty()) =~= Seq::<int>::empty());
    match p {
        PartModel::Timestamp(t) => {
            assert(times_of(seq![p]) =~= seq![t]);
            assert(times_of(ps.push(p)) =~= times_of(ps) + seq![t]);
        },
        PartModel::Filler(_) => {
            assert(times_of(seq![p]) =~= Seq::<int>::empty());
            assert(times_of(ps.push(p)) =~= times_of(ps));
        },
    }
}

pub proof fn lemma_render_snoc(ps: Seq<PartModel>, p: PartModel)
    ensures
        render(ps.push(p)) == render(ps) + render_part(p),
{
    assert(ps.push(p) =~= ps + seq![p]);
    lemma_render_concat(ps, seq![p]);
    assert(seq![p].skip(1) =~= Seq::<PartModel>::empty());
    assert(render(Seq::<PartModel>::empty()) =~= Seq::<u8>::empty());
    assert(render(seq![p]) =~= render_part(p));
}

/// The starting instants of a list of entries, in order.
pub open spec fn starts_view(es: Seq<crate::timetypes::SubtitleEntry>) -> Seq<int> {
    Seq::new(es.len(), |i: int| es[i].timespan.start@)
}

/// The millisecond values of a list of time points, in order.
pub open spec fn time_views(v: Seq<TimePoint>) -> Seq<int> {
    Seq::new(v.len(), |i: int| v[i]@)
}

/// A part sequence with each timestamp overwritten, in order, by the next
/// value of `starts`; filler parts are untouched.
pub open spec fn updated_parts(ps: Seq<PartModel>, starts: Seq<int>) -> Seq<PartModel>
    decreases ps.len(),
{
    if ps.len() == 0 {
        Seq::empty()
    } else {
        match ps[0] {
            PartModel::Filler(_) => seq![ps[0]] + updated_parts(ps.skip(1), starts),
            PartModel::Timestamp(_) => seq![PartModel::Timestamp(starts[0])] + updated_parts(
                ps.skip(1),
                starts.skip(1),
            ),
        }
    }
}

pub proof fn lemma_updated_snoc(ps: Seq<PartModel>, p: PartModel, starts: Seq<int>)
    requires
        p is Timestamp ==> times_of(ps).len() < starts.len(),
    ensures
        p is Filler ==> updated_parts(ps.push(p), starts) == updated_parts(ps, starts) + seq![p],
        p is Timestamp ==> updated_parts(ps.push(p), starts) == updated_parts(ps, starts) + seq![
            PartModel::Timestamp(starts[times_of(ps).len() as int]),
        ],
    decreases ps.len(),
{
    if ps.len() == 0 {
        assert(ps.push(p).skip(1) =~= Seq::<PartModel>::empty());
        assert(ps.push(p)[0] == p);
        assert(updated_parts(Seq::<PartModel>::empty(), starts) =~= Seq::<PartModel>::empty());
        assert(updated_parts(Seq::<PartModel>::empty(), starts.skip(1)) =~= Seq::<
            PartModel,
        >::empty());
        if p is Filler {
            assert(updated_parts(ps.push(p), starts) =~= updated_parts(ps, starts) + seq![p]);
        } else {
            assert(times_of(ps).len() == 0);
            assert(updated_parts(ps.push(p), starts) =~= updated_parts(ps, starts) + seq![
                PartModel::Timestamp(starts[0]),
            ]);
        }
    } else {
        assert(ps.push(p).skip(1) =~= ps.skip(1).push(p));
        assert(ps.push(p)[0] == ps[0]);
        match ps[0] {
            PartModel::Filler(_) => {
                lemma_updated_snoc(ps.skip(1), p, starts);
                assert(times_of(ps).len() == times_of(ps.skip(1)).len());
                assert(updated_parts(ps.push(p), starts) == seq![ps[0]] + updated_parts(
                    ps.skip(1).push(p),
                    starts,
                ));
                assert(updated_parts(ps, starts) == seq![ps[0]] + updated_parts(
                    ps.skip(1),
                    starts,
                ));
                if p is Filler {
                    assert(updated_parts(ps.push(p), starts) =~= updated_parts(ps, starts) + seq![
                        p,
                    ]);
                } else {
                    assert(updated_parts(ps.push(p), starts) =~= updated_parts(ps, starts) + seq![
                        PartModel::Timestamp(starts[times_of(ps).len() as int]),
                    ]);
                }
            },
            PartModel::Timestamp(_) => {
                lemma_updated_snoc(ps.skip(1), p, starts.skip(1));
                assert(times_of(ps) == seq![ps[0]->Timestamp_0] + times_of(ps.skip(1)));
                assert(times_of(ps).len() == 1 + times_of(ps.skip(1)).len());
                assert(updated_parts(ps.push(p), starts) == seq![PartModel::Timestamp(starts[0])]
                    + updated_parts(ps.skip(1).push(p), starts.skip(1)));
                assert(updated_parts(ps, starts) == seq![PartModel::Timestamp(starts[0])]
                    + updated_parts(ps.skip(1), starts.skip(1)));
                if p is Filler {
                    assert(updated_parts(ps.push(p), starts) =~= updated_parts(ps, starts) + seq![
                        p,
                    ]);
                } else {
                    assert(starts.skip(1)[times_of(ps.skip(1)).len() as int] == starts[times_of(
                        ps,
                    ).len() as int]);
                    assert(updated_parts(ps.push(p), starts) =~= updated_parts(ps, starts) + seq![
                        PartModel::Timestamp(starts[times_of(ps).len() as int]),
                    ]);
                }
            },
        }
    }
}

/// Updating writes exactly the given start values: the timestamps of the
/// updated sequence are `starts`.
pub proof fn lemma_updated_times(ps: Seq<PartModel>, starts: Seq<int>)
    requires
        starts.len() == times_of(ps).len(),
    ensures
        times_of(updated_parts(ps, starts)) == starts,
    decreases ps.len(),
{
    if ps.len() == 0 {
        assert(times_of(updated_parts(ps, starts)) =~= starts);
    } else {
        match ps[0] {
            PartModel::Filler(_) => {
                lemma_updated_times(ps.skip(1), starts);
                let u = updated_parts(ps, starts);
                assert(u.skip(1) =~= updated_parts(ps.skip(1), starts));
                assert(times_of(u) =~= starts);
            },
            PartModel::Timestamp(_) => {
                assert(times_of(ps) == seq![ps[0]->Timestamp_0] + times_of(ps.skip(1)));
                lemma_updated_times(ps.skip(1), starts.skip(1));
                let u = updated_parts(ps, starts);
                assert(u.skip(1) =~= updated_parts(ps.skip(1), starts.skip(1)));
                assert(times_of(u) == seq![starts[0]] + times_of(u.skip(1)));
                assert(times_of(u) =~= starts);
            },
        }
    }
}

} // verus!
