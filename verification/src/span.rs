//! Byte spans of source code and the arithmetic the analyses do on
//! them: sizes, overlap tests, trimming, merging overlapping spans, and
//! subtracting child spans from an enclosing one.

use vstd::prelude::*;

verus! {

/// The byte bounds of one region of source code.
#[derive(Clone, Copy, Debug, PartialEq, Eq, Hash, Structural)]
pub struct SpanData {
    pub lo: u32,
    pub hi: u32,
}

/// Extension trait for sized regions.
pub trait SpanDataExt {
    /// The region's bounds, low and high.
    spec fn span_bounds(&self) -> (int, int);

    /// The region's length in bytes.
    fn size(&self) -> (r: u32)
        requires
            self.span_bounds().0 <= self.span_bounds().1,
        ensures
            r == self.span_bounds().1 - self.span_bounds().0,
    ;
}

impl SpanDataExt for SpanData {
    open spec fn span_bounds(&self) -> (int, int) {
        (self.lo as int, self.hi as int)
    }

    fn size(&self) -> (r: u32)
    {
        self.hi - self.lo
    }
}

/// A span's low end does not pass its high end.
pub open spec fn span_wf(s: SpanData) -> bool {
    s.lo <= s.hi
}

/// The two spans share at least one point, boundaries included.
pub open spec fn spec_overlaps(a: SpanData, b: SpanData) -> bool {
    a.lo <= b.hi && b.lo <= a.hi
}

/// Some span of `spans` contains the point `p`, boundaries included.
pub open spec fn covered(spans: Seq<SpanData>, p: int) -> bool {
    exists|i: int| 0 <= i < spans.len() && (#[trigger] spans[i]).lo <= p <= spans[i].hi
}

/// The spans are ordered and strictly apart: each ends before the next
/// begins.
pub open spec fn sorted_disjoint(spans: Seq<SpanData>) -> bool {
    &&& forall|i: int| 0 <= i < spans.len() ==> span_wf(#[trigger] spans[i])
    &&& forall|i: int| 0 <= i < spans.len() - 1 ==> #[trigger] spans[i].hi < spans[i + 1].lo
}

impl SpanData {
    /// True if `self` overlaps with `other`, including boundaries.
    pub fn overlaps_inclusive(self, other: SpanData) -> (r: bool)
        ensures
            r == spec_overlaps(self, other),
    {
        self.lo <= other.hi && other.lo <= self.hi
    }

    /// A span whose end is no later than the start of `other`, or
    /// nothing if that span would be empty.
    pub fn trim_end(self, other: SpanData) -> (r: Option<SpanData>)
        ensures
            r == (if self.lo < other.lo {
                Some(
                    (SpanData {
                        lo: self.lo,
                        hi: if self.hi < other.lo {
                            self.hi
                        } else {
                            other.lo
                        },
                    }),
                )
            } else {
                None
            }),
    {
        if self.lo < other.lo {
            let hi = if self.hi < other.lo {
                self.hi
            } else {
                other.lo
            };
            Some(SpanData { lo: self.lo, hi })
        } else {
            None
        }
    }

    /// A span from the end of `other` to the end of `self`, or nothing
    /// if that span would be empty.
    pub fn trim_start(self, other: SpanData) -> (r: Option<SpanData>)
        ensures
            r == (if self.hi > other.hi {
                Some(
                    (SpanData {
                        lo: if self.lo > other.hi {
                            self.lo
                        } else {
                            other.hi
                        },
                        hi: self.hi,
                    }),
                )
            } else {
                None
            }),
    {
        if self.hi > other.hi {
            let lo = if self.lo > other.hi {
                self.lo
            } else {
                other.hi
            };
            Some(SpanData { lo, hi: self.hi })
        } else {
            None
        }
    }

    /// The span between the end of `self` and the start of `other`.
    pub fn between(self, other: SpanData) -> (r: SpanData)
        ensures
            r == (SpanData { lo: self.hi, hi: other.lo }),
    {
        SpanData { lo: self.hi, hi: other.lo }
    }

    /// The smallest span containing both `self` and `other`.
    pub fn to(self, other: SpanData) -> (r: SpanData)
        ensures
            r.lo == (if self.lo < other.lo {
                self.lo
            } else {
                other.lo
            }),
            r.hi == (if self.hi > other.hi {
                self.hi
            } else {
                other.hi
            }),
    {
        SpanData {
            lo: if self.lo < other.lo {
                self.lo
            } else {
                other.lo
            },
            hi: if self.hi > other.hi {
                self.hi
            } else {
                other.hi
            },
        }
    }
}

/// `a` comes no later than `b` in the merge order: by start, then end.
pub open spec fn span_le(a: SpanData, b: SpanData) -> bool {
    a.lo < b.lo || (a.lo == b.lo && a.hi <= b.hi)
}

/// Inserting a span into a sequence covers exactly the old points and
/// the new span's points.
proof fn lemma_covered_insert(spans: Seq<SpanData>, j: int, x: SpanData, p: int)
    requires
        0 <= j <= spans.len(),
    ensures
        covered(spans.insert(j, x), p) == (covered(spans, p) || (x.lo <= p <= x.hi)),
{
    let q = spans.insert(j, x);
    if covered(q, p) {
        let i = choose|i: int| 0 <= i < q.len() && (#[trigger] q[i]).lo <= p <= q[i].hi;
        if i == j {
        } else if i < j {
            assert(spans[i].lo <= p <= spans[i].hi);
        } else {
            assert(spans[i - 1].lo <= p <= spans[i - 1].hi);
        }
    }
    if covered(spans, p) {
        let i = choose|i: int| 0 <= i < spans.len() && (#[trigger] spans[i]).lo <= p <= spans[i].hi;
        if i < j {
            assert(q[i].lo <= p <= q[i].hi);
        } else {
            assert(q[i + 1].lo <= p <= q[i + 1].hi);
        }
    }
    if x.lo <= p <= x.hi {
        assert(q[j].lo <= p <= q[j].hi);
    }
}

/// Appending a span covers exactly the old points and its points.
proof fn lemma_covered_push(spans: Seq<SpanData>, x: SpanData, p: int)
    ensures
        covered(spans.push(x), p) == (covered(spans, p) || (x.lo <= p <= x.hi)),
{
    assert(spans.push(x) =~= spans.insert(spans.len() as int, x));
    lemma_covered_insert(spans, spans.len() as int, x, p);
}

/// Sorts spans by their start (then end), preserving coverage.
#[verifier::loop_isolation(false)]
fn sort_spans(spans: &Vec<SpanData>) -> (r: Vec<SpanData>)
    requires
        forall|i: int| 0 <= i < spans@.len() ==> span_wf(#[trigger] spans@[i]),
    ensures
        r@.len() == spans@.len(),
        forall|a: int, b: int| 0 <= a < b < r@.len() ==> span_le(#[trigger] r@[a], #[trigger] r@[b]),
        forall|p: int| #[trigger] covered(r@, p) == covered(spans@, p),
        forall|k: int| 0 <= k < r@.len() ==> span_wf(#[trigger] r@[k]),
{
    let n = spans.len();
    let mut out: Vec<SpanData> = Vec::new();
    let mut i: usize = 0;
    proof {
        assert(spans@.subrange(0, 0) =~= Seq::<SpanData>::empty());
        assert forall|p: int| #[trigger] covered(out@, p) == covered(
            spans@.subrange(0, 0),
            p,
        ) by {}
    }
    while i < n
        invariant
            0 <= i <= n,
            out@.len() == i,
            forall|a: int, b: int|
                0 <= a < b < out@.len() ==> span_le(#[trigger] out@[a], #[trigger] out@[b]),
            forall|p: int| #[trigger] covered(out@, p) == covered(spans@.subrange(0, i as int), p),
            forall|k: int| 0 <= k < out@.len() ==> span_wf(#[trigger] out@[k]),
        decreases n - i,
    {
        let x = spans[i];
        let m = out.len();
        let mut j: usize = 0;
        while j < m
            invariant
                0 <= j <= m,
                m == out@.len(),
                forall|a: int| 0 <= a < j ==> span_le(#[trigger] out@[a], x),
            decreases m - j,
        {
            let y = out[j];
            if x.lo < y.lo || (x.lo == y.lo && x.hi < y.hi) {
                break;
            }
            j += 1;
        }
        let ghost before = out@;
        out.insert(j, x);
        proof {
            assert forall|a: int, b: int|
                0 <= a < b < out@.len() implies span_le(#[trigger] out@[a], #[trigger] out@[b]) by {
                if b < j {
                } else if a < j && b == j {
                } else if a < j && b > j {
                    assert(out@[b] == before[b - 1]);
                } else if a == j {
                    assert(out@[b] == before[b - 1]);
                    assert(span_le(x, before[b - 1]));
                } else {
                    assert(out@[a] == before[a - 1]);
                    assert(out@[b] == before[b - 1]);
                }
            }
            assert forall|p: int| #[trigger] covered(out@, p) == covered(
                spans@.subrange(0, i + 1int),
                p,
            ) by {
                lemma_covered_insert(before, j as int, x, p);
                assert(spans@.subrange(0, i + 1int) =~= spans@.subrange(0, i as int).push(x));
                lemma_covered_push(spans@.subrange(0, i as int), x, p);
            }
            assert forall|k: int| 0 <= k < out@.len() implies span_wf(#[trigger] out@[k]) by {
                if k == j {
                    assert(out@[k] == spans@[i as int]);
                } else if k < j {
                    assert(out@[k] == before[k]);
                } else {
                    assert(out@[k] == before[k - 1]);
                }
            }
        }
        i += 1;
    }
    proof {
        assert(spans@.subrange(0, n as int) =~= spans@);
    }
    out
}

impl SpanData {
    /// Merges all overlapping (or touching) spans into single spans.
    /// The result is ordered, strictly separated, and covers exactly
    /// the points the input covered.
    #[verifier::loop_isolation(false)]
    pub fn merge_overlaps(spans: Vec<SpanData>) -> (r: Vec<SpanData>)
        requires
            forall|i: int| 0 <= i < spans@.len() ==> span_wf(#[trigger] spans@[i]),
        ensures
            sorted_disjoint(r@),
            forall|p: int| #[trigger] covered(r@, p) == covered(spans@, p),
    {
        let sorted = sort_spans(&spans);
        let n = sorted.len();
        let mut out: Vec<SpanData> = Vec::new();
        let mut i: usize = 0;
        while i < n
            invariant
                0 <= i <= n,
                sorted_disjoint(out@),
                forall|p: int|
                    #[trigger] covered(out@, p) == covered(sorted@.subrange(0, i as int), p),
                out@.len() == 0 ==> i == 0,
                out@.len() > 0 ==> i > 0 && (forall|k: int|
                    i <= k < n ==> out@.last().lo <= #[trigger] sorted@[k].lo),
            decreases n - i,
        {
            let x = sorted[i];
            proof {
                assert(span_wf(x));
                assert(sorted@.subrange(0, i + 1int) =~= sorted@.subrange(0, i as int).push(x));
            }
            let m = out.len();
            if m > 0 && x.lo <= out[m - 1].hi {
                let last = out[m - 1];
                let merged = SpanData {
                    lo: last.lo,
                    hi: if last.hi > x.hi {
                        last.hi
                    } else {
                        x.hi
                    },
                };
                let ghost before = out@;
                let popped = out.pop();
                out.push(merged);
                proof {
                    assert(out@ =~= before.update(m - 1, merged));
                    assert forall|p: int| #[trigger] covered(out@, p) == covered(
                        sorted@.subrange(0, i + 1int),
                        p,
                    ) by {
                        lemma_covered_push(sorted@.subrange(0, i as int), x, p);
                        if covered(out@, p) {
                            let k = choose|k: int|
                                0 <= k < out@.len() && (#[trigger] out@[k]).lo <= p <= out@[k].hi;
                            if k < m - 1 {
                                assert(before[k].lo <= p <= before[k].hi);
                                assert(covered(before, p));
                            } else {
                                if p <= last.hi {
                                    assert(before[m - 1].lo <= p <= before[m - 1].hi);
                                    assert(covered(before, p));
                                } else {
                                    assert(x.lo <= p <= x.hi);
                                }
                            }
                        }
                        if covered(before, p) {
                            let k = choose|k: int|
                                0 <= k < before.len() && (#[trigger] before[k]).lo <= p <= before[k].hi;
                            assert(out@[k].lo <= p <= out@[k].hi);
                        }
                        if x.lo <= p <= x.hi {
                            assert(out@[m - 1].lo <= p <= out@[m - 1].hi);
                        }
                    }
                    assert forall|a: int|
                        0 <= a < out@.len() - 1 implies #[trigger] out@[a].hi < out@[a + 1].lo by {
                        assert(out@[a] == before[a]);
                    }
                }
            } else {
                let ghost before = out@;
                out.push(x);
                proof {
                    assert forall|p: int| #[trigger] covered(out@, p) == covered(
                        sorted@.subrange(0, i + 1int),
                        p,
                    ) by {
                        lemma_covered_push(before, x, p);
                        lemma_covered_push(sorted@.subrange(0, i as int), x, p);
                    }
                    assert forall|a: int|
                        0 <= a < out@.len() - 1 implies #[trigger] out@[a].hi < out@[a + 1].lo by {
                        if a < out@.len() - 2 {
                            assert(before[a].hi < before[a + 1].lo);
                        }
                    }
                }
            }
            i += 1;
        }
        proof {
            assert(sorted@.subrange(0, n as int) =~= sorted@);
        }
        out
    }
}

/// One of the first `bound` children both overlaps `outer` and covers
/// the point `p`.
pub open spec fn child_covers(
    children: Seq<SpanData>,
    outer: SpanData,
    bound: int,
    p: int,
) -> bool {
    exists|j: int|
        0 <= j < bound && spec_overlaps(#[trigger] children[j], outer) && children[j].lo <= p
            <= children[j].hi
}

/// The uncovered stretches of `outer` around a separated sequence of
/// child spans: the lead before the first child, the region between
/// each pair of neighbours, and the tail after the last; `outer` itself
/// when there are no children.
pub open spec fn spec_gaps(outer: SpanData, merged: Seq<SpanData>) -> Seq<SpanData> {
    if merged.len() == 0 {
        seq![outer]
    } else {
        let head: Seq<SpanData> = if outer.lo < merged[0].lo {
            seq![
                (SpanData {
                    lo: outer.lo,
                    hi: if outer.hi < merged[0].lo {
                        outer.hi
                    } else {
                        merged[0].lo
                    },
                }),
            ]
        } else {
            Seq::empty()
        };
        let mids = Seq::new(
            (merged.len() - 1) as nat,
            |i: int| SpanData { lo: merged[i].hi, hi: merged[i + 1].lo },
        );
        let tail: Seq<SpanData> = if outer.hi > merged.last().hi {
            seq![
                (SpanData {
                    lo: if outer.lo > merged.last().hi {
                        outer.lo
                    } else {
                        merged.last().hi
                    },
                    hi: outer.hi,
                }),
            ]
        } else {
            Seq::empty()
        };
        head + mids + tail
    }
}

impl SpanData {
    /// The regions of `self` not covered by `child_spans`: children
    /// that overlap `self` are merged into separated spans, and the
    /// result lists the stretch of `self` before the first of them, the
    /// region between each pair of neighbours, and the stretch after
    /// the last — or `self` alone if no child overlaps it.
    #[verifier::loop_isolation(false)]
    pub fn subtract(self, child_spans: Vec<SpanData>) -> (r: Vec<SpanData>)
        requires
            span_wf(self),
            forall|i: int| 0 <= i < child_spans@.len() ==> span_wf(#[trigger] child_spans@[i]),
        ensures
            exists|merged: Seq<SpanData>|
                {
                    &&& #[trigger] sorted_disjoint(merged)
                    &&& forall|p: int| #[trigger] covered(merged, p) == child_covers(
                        child_spans@,
                        self,
                        child_spans@.len() as int,
                        p,
                    )
                    &&& r@ == spec_gaps(self, merged)
                },
    {
        let n = child_spans.len();
        let mut retained: Vec<SpanData> = Vec::new();
        let mut i: usize = 0;
        proof {
            assert forall|p: int| #[trigger] covered(retained@, p) == child_covers(
                child_spans@,
                self,
                0,
                p,
            ) by {}
        }
        while i < n
            invariant
                0 <= i <= n,
                forall|k: int| 0 <= k < retained@.len() ==> span_wf(#[trigger] retained@[k]),
                forall|p: int| #[trigger] covered(retained@, p) == child_covers(
                    child_spans@,
                    self,
                    i as int,
                    p,
                ),
            decreases n - i,
        {
            let x = child_spans[i];
            let ghost before = retained@;
            if x.overlaps_inclusive(self) {
                retained.push(x);
            }
            proof {
                assert forall|p: int| #[trigger] covered(retained@, p) == child_covers(
                    child_spans@,
                    self,
                    i + 1int,
                    p,
                ) by {
                    lemma_covered_push(before, x, p);
                    if child_covers(child_spans@, self, i + 1int, p) {
                        let j = choose|j: int|
                            0 <= j < i + 1 && spec_overlaps(#[trigger] child_spans@[j], self)
                                && child_spans@[j].lo <= p <= child_spans@[j].hi;
                        if j < i {
                            assert(child_covers(child_spans@, self, i as int, p));
                        }
                    }
                    if child_covers(child_spans@, self, i as int, p) {
                        assert(child_covers(child_spans@, self, i + 1int, p));
                    }
                }
            }
            i += 1;
        }
        let merged = SpanData::merge_overlaps(retained);
        let ghost ms = merged@;
        let m = merged.len();
        let mut out: Vec<SpanData> = Vec::new();
        if m == 0 {
            out.push(self);
            proof {
                assert(out@ =~= spec_gaps(self, ms));
            }
            return out;
        }
        let ghost mids = Seq::new(
            (ms.len() - 1) as nat,
            |k: int| SpanData { lo: ms[k].hi, hi: ms[k + 1].lo },
        );
        match self.trim_end(merged[0]) {
            Some(s) => {
                out.push(s);
            },
            None => {},
        }
        proof {
            if self.lo < ms[0].lo {
                assert(out@ =~= seq![
                    (SpanData {
                        lo: self.lo,
                        hi: if self.hi < ms[0].lo {
                            self.hi
                        } else {
                            ms[0].lo
                        },
                    }),
                ]);
            } else {
                assert(out@ =~= Seq::<SpanData>::empty());
            }
        }
        let ghost lead = out@;
        let mut k: usize = 0;
        while k + 1 < m
            invariant
                0 <= k < m,
                m == ms.len(),
                out@ =~= lead + mids.subrange(0, k as int),
            decreases m - k,
        {
            out.push(merged[k].between(merged[k + 1]));
            proof {
                assert(mids[k as int] == (SpanData { lo: ms[k as int].hi, hi: ms[k + 1int].lo }));
                assert(mids.subrange(0, k + 1int) =~= mids.subrange(0, k as int).push(
                    mids[k as int],
                ));
                assert(out@ =~= lead + mids.subrange(0, k + 1int));
            }
            k += 1;
        }
        proof {
            assert(mids.subrange(0, ms.len() - 1) =~= mids);
        }
        match self.trim_start(merged[m - 1]) {
            Some(e) => {
                out.push(e);
            },
            None => {},
        }
        proof {
            assert(ms.last() == ms[ms.len() - 1]);
            assert(out@ =~= spec_gaps(self, ms));
        }
        out
    }
}

} // verus!
