//! Copying a datom with a work list rather than by recursion, so that no
//! depth of nesting exhausts the stack.

use vstd::prelude::*;

use crate::anatomy::{datom_size, datoms_view, lemma_datoms_push, lemma_datoms_view, sizes_upto, Datom, SpecDatom};

verus! {

/// The kind of node that gathers copies: a struct, a vector or a map.
#[derive(Clone, Copy, PartialEq, Eq, Structural)]
pub enum Gathering {
    Struct,
    Vector,
    Mapping,
}

/// The node of a kind over its children.
pub open spec fn gathered_node(k: Gathering, ds: Seq<SpecDatom>) -> SpecDatom {
    match k {
        Gathering::Struct => SpecDatom::Struct(ds),
        Gathering::Vector => SpecDatom::Vector(ds),
        Gathering::Mapping => SpecDatom::Mapping(ds),
    }
}

/// A step of the copy: visit a datom, or build a node from copies already made.
enum CopyJob<'a> {
    /// Copy this datom.
    Visit(&'a Datom),
    /// Put the last copy under this head.
    Wrap(String),
    /// Gather this many last copies into a node of a kind.
    Gather(Gathering, usize),
}

/// The mathematical step.
pub enum SpecJob {
    Visit(SpecDatom),
    Wrap(Seq<char>),
    Gather(Gathering, nat),
}

spec fn job_view(j: CopyJob) -> SpecJob {
    match j {
        CopyJob::Visit(d) => SpecJob::Visit(d@),
        CopyJob::Wrap(h) => SpecJob::Wrap(h@),
        CopyJob::Gather(s, n) => SpecJob::Gather(s, n as nat),
    }
}

spec fn jobs_view(js: Seq<CopyJob>) -> Seq<SpecJob> {
    js.map_values(|j: CopyJob| job_view(j))
}

/// The copies after one step, when the step can be taken.
pub open spec fn step(j: SpecJob, vals: Seq<SpecDatom>) -> Option<Seq<SpecDatom>> {
    match j {
        SpecJob::Visit(d) => Some(vals.push(d)),
        SpecJob::Wrap(h) => if vals.len() >= 1 {
            Some(vals.drop_last().push(SpecDatom::Variant(h, Box::new(vals.last()))))
        } else {
            None
        },
        SpecJob::Gather(s, n) => if n <= vals.len() {
            let cut = vals.len() - n;
            let gathered = vals.subrange(cut, vals.len() as int);
            Some(vals.subrange(0, cut).push(gathered_node(s, gathered)))
        } else {
            None
        },
    }
}

/// The copies once every job is done, the last job first.
pub open spec fn eval(js: Seq<SpecJob>, vals: Seq<SpecDatom>) -> Option<Seq<SpecDatom>>
    decreases js.len(),
{
    if js.len() == 0 {
        Some(vals)
    } else {
        match step(js.last(), vals) {
            None => None,
            Some(next) => eval(js.drop_last(), next),
        }
    }
}

/// The work left: twice the nodes of each datom to visit, one for each other job.
pub open spec fn work_left(js: Seq<SpecJob>) -> nat
    decreases js.len(),
{
    if js.len() == 0 {
        0
    } else {
        work_left(js.drop_last()) + match js.last() {
            SpecJob::Visit(d) => 2 * datom_size(d),
            _ => 1nat,
        }
    }
}

/// The visits of the datoms from the `k`-th on, the `k`-th last.
pub open spec fn visits_from(ds: Seq<SpecDatom>, k: int) -> Seq<SpecJob>
    decreases ds.len() - k,
{
    if k < 0 || k >= ds.len() {
        Seq::empty()
    } else {
        visits_from(ds, k + 1).push(SpecJob::Visit(ds[k]))
    }
}

/// Visiting datoms from the `k`-th on copies them in order, and costs twice their nodes.
proof fn lemma_visits(base: Seq<SpecJob>, ds: Seq<SpecDatom>, k: int, vals: Seq<SpecDatom>)
    requires
        0 <= k <= ds.len(),
    ensures
        eval(base + visits_from(ds, k), vals) == eval(base, vals + ds.subrange(k, ds.len() as int)),
        work_left(base + visits_from(ds, k)) == work_left(base) + 2 * (sizes_upto(
            ds,
            ds.len() as int,
        ) - sizes_upto(ds, k)),
        sizes_upto(ds, k) <= sizes_upto(ds, ds.len() as int),
    decreases ds.len() - k,
{
    if k == ds.len() {
        assert(base + visits_from(ds, k) =~= base);
        assert(vals + ds.subrange(k, ds.len() as int) =~= vals);
    } else {
        lemma_visits(base, ds, k + 1, vals.push(ds[k]));
        let js = base + visits_from(ds, k);
        assert(js.drop_last() =~= base + visits_from(ds, k + 1));
        assert(js.last() == SpecJob::Visit(ds[k]));
        assert(vals.push(ds[k]) + ds.subrange(k + 1, ds.len() as int) =~= vals + ds.subrange(
            k,
            ds.len() as int,
        ));
        lemma_sizes_monotone(ds, k + 1);
        assert(sizes_upto(ds, k + 1) == sizes_upto(ds, k) + datom_size(ds[k]));
    }
}

/// The nodes of a prefix are at most those of the whole.
proof fn lemma_sizes_monotone(ds: Seq<SpecDatom>, k: int)
    requires
        0 <= k <= ds.len(),
    ensures
        sizes_upto(ds, k) <= sizes_upto(ds, ds.len() as int),
    decreases ds.len() - k,
{
    if k < ds.len() {
        lemma_sizes_monotone(ds, k + 1);
    }
}

/// Puts the visits of the children on the work list, the first child last.
fn push_visits<'a>(work: &mut Vec<CopyJob<'a>>, cs: &'a Vec<Datom>)
    ensures
        jobs_view(final(work)@) == jobs_view(old(work)@) + visits_from(datoms_view(cs@), 0),
{
    let ghost w0 = jobs_view(work@);
    let ghost dv = datoms_view(cs@);
    proof {
        lemma_datoms_view(cs@);
        assert(w0 + visits_from(dv, cs.len() as int) =~= w0);
    }
    let mut k: usize = cs.len();
    while k > 0
        invariant
            0 <= k <= cs.len(),
            dv == datoms_view(cs@),
            dv.len() == cs.len(),
            forall|j: int| 0 <= j < cs.len() ==> #[trigger] dv[j] == cs@[j]@,
            jobs_view(work@) == w0 + visits_from(dv, k as int),
        decreases k,
    {
        k = k - 1;
        let ghost before = work@;
        work.push(CopyJob::Visit(&cs[k]));
        proof {
            assert(work@ == before.push(CopyJob::Visit(&cs[k as int])));
            assert(jobs_view(work@) =~= jobs_view(before).push(SpecJob::Visit(dv[k as int])));
            assert(w0 + visits_from(dv, k as int) =~= (w0 + visits_from(dv, k + 1)).push(
                SpecJob::Visit(dv[k as int]),
            ));
        }
    }
}

/// A copy of a datom: the same datom. The copy is made with a work list
/// rather than by recursion, so that no depth of nesting exhausts the stack.
pub fn copy_datom(d: &Datom) -> (c: Datom)
    ensures
        c@ == d@,
{
    let mut work: Vec<CopyJob> = Vec::new();
    let mut values: Vec<Datom> = Vec::new();
    work.push(CopyJob::Visit(d));
    proof {
        lemma_datoms_view(values@);
        let js = jobs_view(work@);
        assert(js.len() == 1 && js[0] == SpecJob::Visit(d@));
        assert(js.drop_last() =~= Seq::<SpecJob>::empty());
        assert(datoms_view(values@) =~= Seq::<SpecDatom>::empty());
        assert(Seq::<SpecDatom>::empty().push(d@) =~= seq![d@]);
        assert(js.last() == SpecJob::Visit(d@));
        assert(eval(js.drop_last(), seq![d@]) == Some(seq![d@]));
    }
    while work.len() > 0
        invariant
            eval(jobs_view(work@), datoms_view(values@)) == Some(seq![d@]),
        decreases work_left(jobs_view(work@)),
    {
        let ghost before = jobs_view(work@);
        let ghost vals = datoms_view(values@);
        let ghost oldv = values@;
        let job = work.pop().unwrap();
        let ghost rest = jobs_view(work@);
        let ghost w1 = work@;
        proof {
            assert(before.drop_last() =~= rest);
            assert(before.last() == job_view(job));
            lemma_datoms_view(values@);
            assert(work_left(before) == work_left(rest) + match job_view(job) {
                SpecJob::Visit(dd) => 2 * datom_size(dd),
                _ => 1nat,
            });
            assert(eval(before, vals) == match step(job_view(job), vals) {
                None => None,
                Some(next) => eval(rest, next),
            });
        }
        match job {
            CopyJob::Visit(x) => {
                match x {
                    Datom::Variant(h, b) => {
                        let head = h.clone();
                        let ghost hv = head@;
                        work.push(CopyJob::Wrap(head));
                        let ghost w2 = work@;
                        work.push(CopyJob::Visit(&**b));
                        proof {
                            assert(jobs_view(w2) =~= rest.push(SpecJob::Wrap(hv)));
                            assert(jobs_view(work@) =~= jobs_view(w2).push(SpecJob::Visit((**b)@)));
                            assert(jobs_view(work@).drop_last() =~= jobs_view(w2));
                            assert(jobs_view(w2).drop_last() =~= rest);
                            assert(x@ == SpecDatom::Variant(h@, Box::new((**b)@)));
                            assert(vals.push((**b)@).drop_last() =~= vals);
                            assert(vals.push((**b)@).last() == (**b)@);
                            let nw = jobs_view(work@);
                            assert(nw.last() == SpecJob::Visit((**b)@));
                            assert(jobs_view(w2).last() == SpecJob::Wrap(hv));
                            assert(eval(nw, vals) == eval(jobs_view(w2), vals.push((**b)@)));
                            assert(eval(jobs_view(w2), vals.push((**b)@)) == eval(
                                rest,
                                vals.push(SpecDatom::Variant(hv, Box::new((**b)@))),
                            ));
                            assert(work_left(nw) == work_left(jobs_view(w2)) + 2 * datom_size((**b)@));
                            assert(work_left(jobs_view(w2)) == work_left(rest) + 1);
                        }
                    },
                    Datom::Struct(cs) => {
                        work.push(CopyJob::Gather(Gathering::Struct, cs.len()));
                        let ghost w2 = work@;
                        push_visits(&mut work, cs);
                        proof {
                            let dv = datoms_view(cs@);
                            lemma_datoms_view(cs@);
                            assert(jobs_view(w2) =~= rest.push(SpecJob::Gather(Gathering::Struct, cs.len() as nat)));
                            lemma_visits(jobs_view(w2), dv, 0, vals);
                            assert(jobs_view(w2).last() == SpecJob::Gather(Gathering::Struct, cs.len() as nat));
                            assert(jobs_view(w2).drop_last() =~= rest);
                            assert(work_left(jobs_view(w2)) == work_left(rest) + 1);
                            assert(dv.subrange(0, dv.len() as int) =~= dv);
                            assert(jobs_view(w2).drop_last() =~= rest);
                            assert((vals + dv).subrange(0, vals.len() as int) =~= vals);
                            assert((vals + dv).subrange(vals.len() as int, (vals + dv).len() as int)
                                =~= dv);
                            assert(x@ == SpecDatom::Struct(dv));
                            assert(datom_size(x@) == 1 + sizes_upto(dv, dv.len() as int));
                        }
                    },
                    Datom::Vector(cs) => {
                        work.push(CopyJob::Gather(Gathering::Vector, cs.len()));
                        let ghost w2 = work@;
                        push_visits(&mut work, cs);
                        proof {
                            let dv = datoms_view(cs@);
                            lemma_datoms_view(cs@);
                            assert(jobs_view(w2) =~= rest.push(SpecJob::Gather(Gathering::Vector, cs.len() as nat)));
                            lemma_visits(jobs_view(w2), dv, 0, vals);
                            assert(jobs_view(w2).last() == SpecJob::Gather(Gathering::Vector, cs.len() as nat));
                            assert(jobs_view(w2).drop_last() =~= rest);
                            assert(work_left(jobs_view(w2)) == work_left(rest) + 1);
                            assert(dv.subrange(0, dv.len() as int) =~= dv);
                            assert(jobs_view(w2).drop_last() =~= rest);
                            assert((vals + dv).subrange(0, vals.len() as int) =~= vals);
                            assert((vals + dv).subrange(vals.len() as int, (vals + dv).len() as int)
                                =~= dv);
                            assert(x@ == SpecDatom::Vector(dv));
                            assert(datom_size(x@) == 1 + sizes_upto(dv, dv.len() as int));
                        }
                    },
                    Datom::Mapping(cs) => {
                        work.push(CopyJob::Gather(Gathering::Mapping, cs.len()));
                        let ghost w2 = work@;
                        push_visits(&mut work, cs);
                        proof {
                            let dv = datoms_view(cs@);
                            lemma_datoms_view(cs@);
                            assert(jobs_view(w2) =~= rest.push(SpecJob::Gather(Gathering::Mapping, cs.len() as nat)));
                            lemma_visits(jobs_view(w2), dv, 0, vals);
                            assert(jobs_view(w2).last() == SpecJob::Gather(Gathering::Mapping, cs.len() as nat));
                            assert(jobs_view(w2).drop_last() =~= rest);
                            assert(work_left(jobs_view(w2)) == work_left(rest) + 1);
                            assert(dv.subrange(0, dv.len() as int) =~= dv);
                            assert(jobs_view(w2).drop_last() =~= rest);
                            assert((vals + dv).subrange(0, vals.len() as int) =~= vals);
                            assert((vals + dv).subrange(vals.len() as int, (vals + dv).len() as int)
                                =~= dv);
                            assert(x@ == SpecDatom::Mapping(dv));
                            assert(datom_size(x@) == 1 + sizes_upto(dv, dv.len() as int));
                        }
                    },
                    Datom::Text(t) => {
                        let c = Datom::Text(t.clone());
                        proof {
                            lemma_datoms_push(values@, c);
                        }
                        values.push(c);
                    },
                    Datom::Meaning(t) => {
                        let c = Datom::Meaning(t.clone());
                        proof {
                            lemma_datoms_push(values@, c);
                        }
                        values.push(c);
                    },
                    Datom::Word(w) => {
                        let c = Datom::Word(w.clone());
                        proof {
                            lemma_datoms_push(values@, c);
                        }
                        values.push(c);
                    },
                }
            },
            CopyJob::Wrap(h) => {
                proof {
                    assert(step(before.last(), vals) is Some);
                }
                let v = values.pop().unwrap();
                proof {
                    assert(values@.push(v) =~= oldv);
                    lemma_datoms_push(values@, v);
                    assert(datoms_view(values@) =~= vals.drop_last());
                }
                let c = Datom::Variant(h, Box::new(v));
                proof {
                    lemma_datoms_push(values@, c);
                }
                values.push(c);
            },
            CopyJob::Gather(kind, n) => {
                proof {
                    assert(step(before.last(), vals) is Some);
                    lemma_datoms_view(oldv);
                }
                let cut = values.len() - n;
                let tail = values.split_off(cut);
                proof {
                    lemma_datoms_view(values@);
                    lemma_datoms_view(tail@);
                    assert(datoms_view(values@) =~= vals.subrange(0, cut as int));
                    assert(datoms_view(tail@) =~= vals.subrange(cut as int, vals.len() as int));
                }
                let c = match kind {
                    Gathering::Struct => Datom::Struct(tail),
                    Gathering::Vector => Datom::Vector(tail),
                    Gathering::Mapping => Datom::Mapping(tail),
                };
                proof {
                    lemma_datoms_push(values@, c);
                }
                values.push(c);
            },
        }
    }
    proof {
        assert(jobs_view(work@) =~= Seq::<SpecJob>::empty());
        lemma_datoms_view(values@);
    }
    values.pop().unwrap()
}

} // verus!
