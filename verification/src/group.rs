//! Streaming prefix-grouping aggregator: consumes records sorted so that
//! records sharing a parent directory arrive consecutively, buffers each
//! run, and flushes either one summarized record (when the run is long
//! enough) or every buffered record unchanged.
use vstd::prelude::*;
use crate::paths::dirname_spec;
use crate::paths::parent_of;

verus! {

/// One record handed to the aggregator: a path, an optional owner tag
/// already rendered for display, and a size in bytes.
pub struct GroupRecord {
    pub path: String,
    pub owner: Option<String>,
    pub size: u64,
}

/// The mathematical shadow of a `GroupRecord`.
pub struct GroupRecordModel {
    pub path: Seq<char>,
    pub owner: Option<Seq<char>>,
    pub size: u64,
}

impl View for GroupRecord {
    type V = GroupRecordModel;

    open spec fn view(&self) -> GroupRecordModel {
        GroupRecordModel {
            path: self.path@,
            owner: match self.owner {
                Option::Some(o) => Option::Some(o@),
                Option::None => Option::None,
            },
            size: self.size,
        }
    }
}

/// One record emitted by the aggregator. `grouped` marks a summarized
/// run: its path is then the run's shared parent directory and its size
/// the run's total.
pub struct OutRecord {
    pub path: String,
    pub owner: Option<String>,
    pub size: u64,
    pub grouped: bool,
}

/// The mathematical shadow of an `OutRecord`.
pub struct OutRecordModel {
    pub path: Seq<char>,
    pub owner: Option<Seq<char>>,
    pub size: u64,
    pub grouped: bool,
}

impl View for OutRecord {
    type V = OutRecordModel;

    open spec fn view(&self) -> OutRecordModel {
        OutRecordModel {
            path: self.path@,
            owner: match self.owner {
                Option::Some(o) => Option::Some(o@),
                Option::None => Option::None,
            },
            size: self.size,
            grouped: self.grouped,
        }
    }
}

/// The views of a sequence of buffered records.
pub open spec fn group_records_view(s: Seq<GroupRecord>) -> Seq<GroupRecordModel> {
    s.map_values(|r: GroupRecord| r@)
}

/// The views of a sequence of emitted records.
pub open spec fn out_records_view(s: Seq<OutRecord>) -> Seq<OutRecordModel> {
    s.map_values(|r: OutRecord| r@)
}

/// A buffered record emitted as itself, unsummarized.
pub open spec fn individual_out(r: GroupRecordModel) -> OutRecordModel {
    OutRecordModel { path: r.path, owner: r.owner, size: r.size, grouped: false }
}

/// Total size of a run of buffered records, summed left to right with
/// saturation at the largest representable size.
pub open spec fn sum_sizes(buf: Seq<GroupRecordModel>) -> u64
    decreases buf.len(),
{
    if buf.len() == 0 {
        0u64
    } else {
        sum_sizes(buf.drop_last()).saturating_add(buf.last().size)
    }
}

/// The state of the aggregator: the parent directory shared by the
/// buffered run, the run itself in arrival order, and the configured
/// grouping threshold (0 disables grouping).
pub struct BufferModel {
    pub parent: Seq<char>,
    pub buffer: Seq<GroupRecordModel>,
    pub group: usize,
}

/// What a flush emits: one summarized record for the run's parent when
/// grouping is enabled and the run reached the threshold, otherwise
/// every buffered record unchanged, in arrival order. The owner tag of a
/// summarized record is the one supplied to the flush, not one from the
/// buffer.
pub open spec fn flush_out(m: BufferModel, owner: Option<Seq<char>>) -> Seq<OutRecordModel> {
    if 1 <= m.group <= m.buffer.len() {
        seq![
            OutRecordModel {
                path: m.parent,
                owner,
                size: sum_sizes(m.buffer),
                grouped: true,
            },
        ]
    } else {
        m.buffer.map_values(|r: GroupRecordModel| individual_out(r))
    }
}

/// The state after a flush: an empty buffer with no parent.
pub open spec fn flushed(m: BufferModel) -> BufferModel {
    BufferModel { parent: Seq::empty(), buffer: Seq::empty(), group: m.group }
}

/// One step of the aggregator: what `push` does to the state and what it
/// emits. With grouping disabled the record is emitted at once; an empty
/// buffer is seeded with the record; a record under the buffered parent
/// is appended; and a record under a different parent first flushes the
/// finished run (with the incoming owner tag), then seeds a new run with
/// the record.
pub open spec fn push_step(m: BufferModel, r: GroupRecordModel) -> (BufferModel, Seq<
    OutRecordModel,
>) {
    if m.group == 0 {
        (m, seq![individual_out(r)])
    } else if m.buffer.len() == 0 {
        (BufferModel { parent: dirname_spec(r.path), buffer: seq![r], group: m.group }, Seq::empty())
    } else if dirname_spec(r.path) == m.parent {
        (BufferModel { parent: m.parent, buffer: m.buffer.push(r), group: m.group }, Seq::empty())
    } else {
        (
            BufferModel { parent: dirname_spec(r.path), buffer: seq![r], group: m.group },
            flush_out(m, r.owner),
        )
    }
}

/// Buffers runs of records sharing a parent directory and emits each run
/// either summarized or record by record, never reordering output across
/// run boundaries.
pub struct ParentPrintBuffer {
    parent: String,
    buffer: Vec<GroupRecord>,
    group: usize,
}

impl ParentPrintBuffer {
    /// The state of the aggregator as a mathematical value.
    pub closed spec fn model(&self) -> BufferModel {
        BufferModel {
            parent: self.parent@,
            buffer: group_records_view(self.buffer@),
            group: self.group,
        }
    }

    /// A fresh aggregator with the given grouping threshold and an empty
    /// buffer.
    pub fn new(group: usize) -> (s: Self)
        ensures
            s.model() == (BufferModel {
                parent: Seq::<char>::empty(),
                buffer: Seq::<GroupRecordModel>::empty(),
                group,
            }),
    {
        let s = ParentPrintBuffer { parent: String::new(), buffer: Vec::new(), group };
        proof {
            assert(group_records_view(s.buffer@) =~= Seq::<GroupRecordModel>::empty());
        }
        s
    }

    /// Accepts one record and appends whatever the step emits to `out`.
    pub fn push(
        &mut self,
        path: String,
        username: Option<String>,
        size: u64,
        out: &mut Vec<OutRecord>,
    )
        ensures
            final(self).model() == push_step(
                old(self).model(),
                GroupRecordModel {
                    path: path@,
                    owner: match username {
                        Option::Some(u) => Option::Some(u@),
                        Option::None => Option::None,
                    },
                    size,
                },
            ).0,
            out_records_view(final(out)@) == out_records_view(old(out)@) + push_step(
                old(self).model(),
                GroupRecordModel {
                    path: path@,
                    owner: match username {
                        Option::Some(u) => Option::Some(u@),
                        Option::None => Option::None,
                    },
                    size,
                },
            ).1,
    {
        if self.group == 0 {
            let rec = OutRecord { path, owner: username, size, grouped: false };
            out.push(rec);
            proof {
                assert(out_records_view(out@) =~= out_records_view(old(out)@) + push_step(
                    old(self).model(),
                    GroupRecordModel {
                        path: path@,
                        owner: match username {
                            Option::Some(u) => Option::Some(u@),
                            Option::None => Option::None,
                        },
                        size,
                    },
                ).1);
            }
            return ;
        }
        let given_parent = parent_of(path.as_str()).to_owned();
        if self.buffer.len() == 0 {
            self.parent = given_parent;
            self.buffer.push(GroupRecord { path, owner: username, size });
            proof {
                assert(group_records_view(self.buffer@) =~= seq![
                    GroupRecordModel {
                        path: path@,
                        owner: match username {
                            Option::Some(u) => Option::Some(u@),
                            Option::None => Option::None,
                        },
                        size,
                    },
                ]);
                assert(out_records_view(out@) =~= out_records_view(out@)
                    + Seq::<OutRecordModel>::empty());
            }
            return ;
        }
        if self.parent.eq(&given_parent) {
            self.buffer.push(GroupRecord { path, owner: username, size });
            proof {
                assert(group_records_view(self.buffer@) =~= group_records_view(
                    old(self).buffer@,
                ).push(
                    GroupRecordModel {
                        path: path@,
                        owner: match username {
                            Option::Some(u) => Option::Some(u@),
                            Option::None => Option::None,
                        },
                        size,
                    },
                ));
                assert(out_records_view(out@) =~= out_records_view(out@)
                    + Seq::<OutRecordModel>::empty());
            }
        } else {
            let owner_for_flush = match &username {
                Option::Some(u) => Option::Some(u.clone()),
                Option::None => Option::None,
            };
            self.flush(owner_for_flush, out);
            self.parent = given_parent;
            self.buffer.push(GroupRecord { path, owner: username, size });
            proof {
                assert(group_records_view(self.buffer@) =~= seq![
                    GroupRecordModel {
                        path: path@,
                        owner: match username {
                            Option::Some(u) => Option::Some(u@),
                            Option::None => Option::None,
                        },
                        size,
                    },
                ]);
            }
        }
    }

    /// Ends the current run: appends its records to `out`, summarized
    /// into one record carrying the supplied owner tag when grouping is
    /// enabled and the run reached the threshold, otherwise record by
    /// record in arrival order; the buffer is empty afterwards.
    pub fn flush(&mut self, username: Option<String>, out: &mut Vec<OutRecord>)
        ensures
            final(self).model() == flushed(old(self).model()),
            out_records_view(final(out)@) == out_records_view(old(out)@) + flush_out(
                old(self).model(),
                match username {
                    Option::Some(u) => Option::Some(u@),
                    Option::None => Option::None,
                },
            ),
    {
        if self.group != 0 && self.buffer.len() >= self.group {
            let total = self.total_size();
            let parent = self.parent.clone();
            self.parent = String::new();
            self.buffer.clear();
            let rec = OutRecord { path: parent, owner: username, size: total, grouped: true };
            out.push(rec);
            proof {
                assert(group_records_view(self.buffer@) =~= Seq::<
                    GroupRecordModel,
                >::empty());
                assert(out_records_view(out@) =~= out_records_view(old(out)@) + flush_out(
                    old(self).model(),
                    match username {
                        Option::Some(u) => Option::Some(u@),
                        Option::None => Option::None,
                    },
                ));
            }
        } else {
            self.parent = String::new();
            let ghost orig = group_records_view(old(self).buffer@);
            let ghost done: int = 0;
            proof {
                assert(orig.skip(0) =~= orig);
                assert(orig.take(0).map_values(|r: GroupRecordModel| individual_out(r)) =~= Seq::<
                    OutRecordModel,
                >::empty());
                assert(out_records_view(out@) =~= out_records_view(old(out)@) + orig.take(
                    0,
                ).map_values(|r: GroupRecordModel| individual_out(r)));
            }
            while self.buffer.len() > 0
                invariant
                    0 <= done <= orig.len(),
                    self.parent@ == Seq::<char>::empty(),
                    self.group == old(self).group,
                    group_records_view(self.buffer@) == orig.skip(done),
                    out_records_view(out@) == out_records_view(old(out)@) + orig.take(
                        done,
                    ).map_values(|r: GroupRecordModel| individual_out(r)),
                decreases self.buffer@.len(),
            {
                let ghost prev = self.buffer@;
                let ghost prev_out = out@;
                let r = self.buffer.remove(0);
                out.push(OutRecord { path: r.path, owner: r.owner, size: r.size, grouped: false });
                proof {
                    assert(out@ =~= prev_out.push(out@.last()));
                    assert(out@.last()@ == individual_out(r@));
                    assert(out_records_view(out@) =~= out_records_view(prev_out).push(
                        individual_out(r@),
                    ));
                    assert(group_records_view(prev).len() == prev.len());
                    assert(prev.len() > 0);
                    assert(orig.skip(done).len() == orig.len() - done);
                    assert(done < orig.len());
                    assert(group_records_view(prev)[0] == prev[0]@);
                    assert(orig.skip(done)[0] == orig[done]);
                    assert(orig[done] == r@);
                    assert(self.buffer@ =~= prev.drop_first());
                    assert forall|j: int| 0 <= j < self.buffer@.len() implies group_records_view(
                        self.buffer@,
                    )[j] == orig.skip(done + 1)[j] by {
                        assert(group_records_view(self.buffer@)[j] == self.buffer@[j]@);
                        assert(group_records_view(prev)[j + 1] == prev[j + 1]@);
                        assert(orig.skip(done)[j + 1] == orig[done + 1 + j]);
                        assert(orig.skip(done + 1)[j] == orig[done + 1 + j]);
                    }
                    assert(group_records_view(self.buffer@) =~= orig.skip(done + 1));
                    assert(orig.take(done + 1) =~= orig.take(done).push(orig[done]));
                    assert(orig.take(done + 1).map_values(
                        |r: GroupRecordModel| individual_out(r),
                    ) =~= orig.take(done).map_values(|r: GroupRecordModel| individual_out(r)).push(
                        individual_out(orig[done]),
                    ));
                    assert(out_records_view(out@) =~= out_records_view(old(out)@) + orig.take(
                        done + 1,
                    ).map_values(|r: GroupRecordModel| individual_out(r)));
                    done = done + 1;
                }
            }
            proof {
                assert(orig.take(orig.len() as int) =~= orig);
                assert(group_records_view(self.buffer@) =~= Seq::<
                    GroupRecordModel,
                >::empty());
                assert(flush_out(
                    old(self).model(),
                    match username {
                        Option::Some(u) => Option::Some(u@),
                        Option::None => Option::None,
                    },
                ) =~= orig.map_values(|r: GroupRecordModel| individual_out(r)));
            }
        }
    }

    /// The saturating sum of the buffered sizes, in arrival order.
    fn total_size(&self) -> (t: u64)
        ensures
            t == sum_sizes(group_records_view(self.buffer@)),
    {
        let ghost bv = group_records_view(self.buffer@);
        let mut t: u64 = 0;
        let mut i: usize = 0;
        proof {
            assert(bv.take(0) =~= Seq::<GroupRecordModel>::empty());
        }
        while i < self.buffer.len()
            invariant
                0 <= i <= self.buffer@.len(),
                bv == group_records_view(self.buffer@),
                t == sum_sizes(bv.take(i as int)),
            decreases self.buffer@.len() - i,
        {
            proof {
                assert(bv.take(i + 1).drop_last() =~= bv.take(i as int));
                assert(bv.take(i + 1).last() == bv[i as int]);
            }
            t = t.saturating_add(self.buffer[i].size);
            i = i + 1;
        }
        proof {
            assert(bv.take(bv.len() as int) =~= bv);
        }
        t
    }
}


/// The state and cumulative output after pushing a whole sequence of
/// records, in order.
pub open spec fn push_all(m: BufferModel, recs: Seq<GroupRecordModel>) -> (BufferModel, Seq<
    OutRecordModel,
>)
    decreases recs.len(),
{
    if recs.len() == 0 {
        (m, Seq::empty())
    } else {
        let first = push_step(m, recs[0]);
        let rest = push_all(first.0, recs.drop_first());
        (rest.0, first.1 + rest.1)
    }
}

/// Records under the buffered parent only extend the run; nothing is
/// emitted.
proof fn lemma_same_parent_run_appends(m: BufferModel, recs: Seq<GroupRecordModel>, d: Seq<char>)
    requires
        m.group >= 1,
        m.parent == d,
        m.buffer.len() >= 1,
        forall|i: int| 0 <= i < recs.len() ==> dirname_spec(#[trigger] recs[i].path) == d,
    ensures
        push_all(m, recs).0 == (BufferModel { parent: d, buffer: m.buffer + recs, group: m.group }),
        push_all(m, recs).1 == Seq::<OutRecordModel>::empty(),
    decreases recs.len(),
{
    if recs.len() == 0 {
        assert(m.buffer + recs =~= m.buffer);
    } else {
        assert(dirname_spec(recs[0].path) == d);
        let m1 = push_step(m, recs[0]).0;
        assert(m1 == (BufferModel { parent: d, buffer: m.buffer.push(recs[0]), group: m.group }));
        assert(forall|i: int| 0 <= i < recs.drop_first().len()
            ==> dirname_spec(#[trigger] recs.drop_first()[i].path) == d);
        lemma_same_parent_run_appends(m1, recs.drop_first(), d);
        assert(m.buffer.push(recs[0]) + recs.drop_first() =~= m.buffer + recs);
        assert(push_all(m, recs).1 =~= Seq::<OutRecordModel>::empty());
    }
}

/// Pushing a run of records sharing one parent directory into an empty
/// aggregator buffers the whole run, in order, and emits nothing.
pub proof fn lemma_run_buffers(g: usize, recs: Seq<GroupRecordModel>, d: Seq<char>)
    requires
        g >= 1,
        recs.len() >= 1,
        forall|i: int| 0 <= i < recs.len() ==> dirname_spec(#[trigger] recs[i].path) == d,
    ensures
        ({
            let m0 = BufferModel {
                parent: Seq::<char>::empty(),
                buffer: Seq::<GroupRecordModel>::empty(),
                group: g,
            };
            push_all(m0, recs).0 == (BufferModel { parent: d, buffer: recs, group: g })
                && push_all(m0, recs).1 == Seq::<OutRecordModel>::empty()
        }),
{
    let m0 = BufferModel {
        parent: Seq::<char>::empty(),
        buffer: Seq::<GroupRecordModel>::empty(),
        group: g,
    };
    let m1 = push_step(m0, recs[0]).0;
    assert(dirname_spec(recs[0].path) == d);
    assert(m1 == (BufferModel { parent: d, buffer: seq![recs[0]], group: g }));
    assert(forall|i: int| 0 <= i < recs.drop_first().len()
        ==> dirname_spec(#[trigger] recs.drop_first()[i].path) == d);
    lemma_same_parent_run_appends(m1, recs.drop_first(), d);
    assert(seq![recs[0]] + recs.drop_first() =~= recs);
    assert(push_all(m0, recs).1 =~= Seq::<OutRecordModel>::empty());
}

/// Pushing at least the grouping threshold of records sharing one parent
/// directory, then one record under a different parent, emits exactly
/// one summarized record for the finished run — carrying the run's
/// parent and total size — before anything is emitted for the new run:
/// the boundary record is only buffered.
pub proof fn lemma_long_run_emits_one_summary(
    g: usize,
    recs: Seq<GroupRecordModel>,
    next: GroupRecordModel,
    d: Seq<char>,
)
    requires
        g >= 1,
        recs.len() >= g,
        forall|i: int| 0 <= i < recs.len() ==> dirname_spec(#[trigger] recs[i].path) == d,
        dirname_spec(next.path) != d,
    ensures
        ({
            let m0 = BufferModel {
                parent: Seq::<char>::empty(),
                buffer: Seq::<GroupRecordModel>::empty(),
                group: g,
            };
            let run = push_all(m0, recs);
            let boundary = push_step(run.0, next);
            run.1 == Seq::<OutRecordModel>::empty() && boundary.1 == seq![
                OutRecordModel { path: d, owner: next.owner, size: sum_sizes(recs), grouped: true },
            ] && boundary.0.buffer == seq![next]
        }),
{
    lemma_run_buffers(g, recs, d);
}

/// Pushing fewer than the grouping threshold of records sharing one
/// parent directory and then flushing emits every record individually,
/// unsummarized, in the original order.
pub proof fn lemma_short_run_emits_individually(
    g: usize,
    recs: Seq<GroupRecordModel>,
    d: Seq<char>,
    owner: Option<Seq<char>>,
)
    requires
        g >= 1,
        1 <= recs.len() < g,
        forall|i: int| 0 <= i < recs.len() ==> dirname_spec(#[trigger] recs[i].path) == d,
    ensures
        ({
            let m0 = BufferModel {
                parent: Seq::<char>::empty(),
                buffer: Seq::<GroupRecordModel>::empty(),
                group: g,
            };
            let run = push_all(m0, recs);
            run.1 == Seq::<OutRecordModel>::empty() && flush_out(run.0, owner)
                == recs.map_values(|r: GroupRecordModel| individual_out(r))
        }),
{
    lemma_run_buffers(g, recs, d);
}

} // verus!
