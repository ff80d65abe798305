use vstd::prelude::*;
use vstd::multiset::Multiset;
use crate::aggregator::AggregatorWorker;
use crate::freq_table::{merge_models, FrequencyTable};
use crate::reader::ReaderWorker;
use crate::shared_buffer::SharedBuffer;

verus! {

/// Number of readers actually used: the requested number, at most one per file.
pub open spec fn reader_count(file_count: int, readers: int) -> int {
    if readers < file_count {
        readers
    } else {
        file_count
    }
}

/// The partition plan as ranges of file positions: `p` ranges of `n / p` files
/// each, where `p` is the reader count, then one more range with the
/// remaining files, if any.
pub open spec fn plan_range(file_count: int, readers: int, i: int) -> (int, int) {
    let p = reader_count(file_count, readers);
    let b = file_count / p;
    if i < p {
        (i * b, (i + 1) * b)
    } else {
        (p * b, file_count)
    }
}

/// Number of ranges in the partition plan.
pub open spec fn plan_len(file_count: int, readers: int) -> int {
    let p = reader_count(file_count, readers);
    if file_count == 0 {
        0
    } else if file_count % p == 0 {
        p
    } else {
        p + 1
    }
}

/// Divides `file_count` files, by position, into contiguous ranges for the
/// readers: as many equal ranges as readers (at most one per file), and one
/// extra range for the remainder.
pub fn partition_plan(file_count: usize, readers: usize) -> (r: Vec<(usize, usize)>)
    requires
        readers > 0,
    ensures
        r@.len() == plan_len(file_count as int, readers as int),
        forall|i: int|
            0 <= i < r@.len() ==> (#[trigger] r@[i]).0 == plan_range(
                file_count as int,
                readers as int,
                i,
            ).0 && r@[i].1 == plan_range(file_count as int, readers as int, i).1,
        forall|i: int| 0 <= i < r@.len() ==> (#[trigger] r@[i]).0 < r@[i].1,
        forall|i: int| 0 < i < r@.len() ==> (#[trigger] r@[i]).0 == r@[i - 1].1,
        r@.len() > 0 ==> r@[0].0 == 0 && r@[r@.len() - 1].1 == file_count,
{
    let mut plan: Vec<(usize, usize)> = Vec::new();
    if file_count == 0 {
        return plan;
    }
    let p = if readers < file_count {
        readers
    } else {
        file_count
    };
    let b = file_count / p;
    proof {
        assert(b >= 1) by (nonlinear_arith)
            requires
                b == file_count / p,
                0 < p <= file_count,
        ;
        assert(p * b <= file_count) by (nonlinear_arith)
            requires
                b == file_count / p,
                0 < p,
        ;
        assert(file_count % p == 0 <==> p * b == file_count) by (nonlinear_arith)
            requires
                b == file_count / p,
                0 < p,
        ;
    }
    let mut i: usize = 0;
    while i < p
        invariant
            0 < p <= file_count,
            p == reader_count(file_count as int, readers as int),
            b == file_count / p,
            b >= 1,
            p * b <= file_count,
            i <= p,
            plan@.len() == i,
            forall|j: int|
                0 <= j < i ==> (#[trigger] plan@[j]).0 == j * b && plan@[j].1 == (j + 1) * b,
        decreases p - i,
    {
        proof {
            assert((i + 1) * b <= p * b) by (nonlinear_arith)
                requires
                    i < p,
                    b >= 1,
            ;
            assert(i * b <= (i + 1) * b) by (nonlinear_arith)
                requires
                    b >= 1,
            ;
        }
        plan.push((i * b, (i + 1) * b));
        i += 1;
    }
    if p * b < file_count {
        plan.push((p * b, file_count));
    }
    proof {
        assert forall|j: int| 0 < j < plan@.len() implies (#[trigger] plan@[j]).0 == plan@[j
            - 1].1 by {
            if j < p {
                assert(j * b == (j - 1 + 1) * b);
            }
        }
        assert(plan@[0].0 == 0 * b);
        assert(file_count % p == 0 <==> p * b == file_count);
        assert forall|j: int| 0 <= j < plan@.len() implies (#[trigger] plan@[j]).0 < plan@[j].1 by {
            if j < p {
                assert(j * b < (j + 1) * b) by (nonlinear_arith)
                    requires
                        b >= 1,
                ;
            }
        }
    }
    plan
}

/// One reader per range of the partition plan over `files`. Every file goes to
/// exactly one reader, in order.
pub fn build_readers(files: &Vec<String>, readers: usize) -> (r: Vec<ReaderWorker>)
    requires
        readers > 0,
    ensures
        r@.len() == plan_len(files@.len() as int, readers as int),
        forall|i: int|
            #![trigger r@[i]]
            0 <= i < r@.len() ==> r@[i].files()@ == files@.subrange(
                plan_range(files@.len() as int, readers as int, i).0,
                plan_range(files@.len() as int, readers as int, i).1,
            ) && r@[i].cursor().file_index == 0 && r@[i].cursor().byte_offset == 0,
{
    let plan = partition_plan(files.len(), readers);
    let mut out: Vec<ReaderWorker> = Vec::new();
    let mut i: usize = 0;
    while i < plan.len()
        invariant
            readers > 0,
            plan@.len() == plan_len(files@.len() as int, readers as int),
            forall|j: int|
                0 <= j < plan@.len() ==> (#[trigger] plan@[j]).0 == plan_range(
                    files@.len() as int,
                    readers as int,
                    j,
                ).0 && plan@[j].1 == plan_range(files@.len() as int, readers as int, j).1,
            forall|j: int| 0 <= j < plan@.len() ==> (#[trigger] plan@[j]).0 < plan@[j].1,
            forall|j: int| 0 < j < plan@.len() ==> (#[trigger] plan@[j]).0 == plan@[j - 1].1,
            plan@.len() > 0 ==> plan@[0].0 == 0 && plan@[plan@.len() - 1].1 == files@.len(),
            i <= plan@.len(),
            out@.len() == i,
            forall|j: int|
                #![trigger out@[j]]
                0 <= j < i ==> out@[j].files()@ == files@.subrange(
                    plan_range(files@.len() as int, readers as int, j).0,
                    plan_range(files@.len() as int, readers as int, j).1,
                ) && out@[j].cursor().file_index == 0 && out@[j].cursor().byte_offset == 0,
        decreases plan@.len() - i,
    {
        let (lo, hi) = plan[i];
        proof {
            plan_ranges_within(plan@, files@.len() as int, i as int);
        }
        let mut part: Vec<String> = Vec::new();
        let mut k: usize = lo;
        while k < hi
            invariant
                lo <= k <= hi <= files@.len(),
                part@ == files@.subrange(lo as int, k as int),
            decreases hi - k,
        {
            part.push(files[k].clone());
            proof {
                assert(part@ == files@.subrange(lo as int, k + 1));
            }
            k += 1;
        }
        out.push(ReaderWorker::new(part));
        i += 1;
    }
    out
}

proof fn plan_ranges_within(plan: Seq<(usize, usize)>, n: int, i: int)
    requires
        0 <= i < plan.len(),
        forall|j: int| 0 <= j < plan.len() ==> (#[trigger] plan[j]).0 < plan[j].1,
        forall|j: int| 0 < j < plan.len() ==> (#[trigger] plan[j]).0 == plan[j - 1].1,
        plan[plan.len() - 1].1 == n,
    ensures
        plan[i].1 <= n,
    decreases plan.len() - i,
{
    if i < plan.len() - 1 {
        plan_ranges_within(plan, n, i + 1);
        assert(plan[i + 1].0 == plan[i].1);
    }
}

/// Every batch in the private queues of `ws`, counted with multiplicity.
pub open spec fn queued(ws: Seq<AggregatorWorker>) -> Multiset<String>
    decreases ws.len(),
{
    if ws.len() == 0 {
        Multiset::empty()
    } else {
        queued(ws.drop_last()).add(ws.last().queue().to_multiset())
    }
}

proof fn lemma_queued_push(ws: Seq<AggregatorWorker>, i: int, w: AggregatorWorker, x: String)
    requires
        0 <= i < ws.len(),
        w.queue() == ws[i].queue().push(x),
    ensures
        queued(ws.update(i, w)) == queued(ws).insert(x),
    decreases ws.len(),
{
    broadcast use vstd::seq_lib::to_multiset_build, vstd::multiset::group_multiset_axioms;

    if i < ws.len() - 1 {
        lemma_queued_push(ws.drop_last(), i, w, x);
        assert(ws.update(i, w).drop_last() == ws.drop_last().update(i, w));
        assert(queued(ws.update(i, w)) =~= queued(ws).insert(x));
    } else {
        assert(ws.update(i, w).drop_last() == ws.drop_last());
        assert(queued(ws.update(i, w)) =~= queued(ws).insert(x));
    }
}

/// Distribute-mode hand-off: takes turns over the workers, each moving one
/// batch from `shared` to its private queue, until `shared` is empty.
pub fn distribute(shared: &mut SharedBuffer<String>, workers: &mut Vec<AggregatorWorker>)
    requires
        old(workers)@.len() > 0,
    ensures
        final(shared)@.len() == 0,
        final(workers)@.len() == old(workers)@.len(),
        queued(final(workers)@) == queued(old(workers)@).add(old(shared)@.to_multiset()),
        forall|i: int|
            #![trigger final(workers)@[i]]
            0 <= i < final(workers)@.len() ==> {
                let (w0, w1) = (old(workers)@[i], final(workers)@[i]);
                &&& w1.wf() == w0.wf()
                &&& w1.pattern() == w0.pattern()
                &&& w1.current() == w0.current()
                &&& w1.table() == w0.table()
                &&& w1.active() == w0.active()
                &&& w0.queue().is_prefix_of(w1.queue())
            },
{
    let n = workers.len();
    let ghost ws0 = workers@;
    let ghost total = queued(workers@).add(shared@.to_multiset());
    let mut i: usize = 0;
    while !shared.is_empty()
        invariant
            n == workers@.len(),
            n == ws0.len(),
            n > 0,
            i < n,
            queued(workers@).add(shared@.to_multiset()) == total,
            forall|j: int|
                #![trigger workers@[j]]
                0 <= j < n ==> {
                    let (w0, w1) = (ws0[j], workers@[j]);
                    &&& w1.wf() == w0.wf()
                    &&& w1.pattern() == w0.pattern()
                    &&& w1.current() == w0.current()
                    &&& w1.table() == w0.table()
                    &&& w1.active() == w0.active()
                    &&& w0.queue().is_prefix_of(w1.queue())
                },
        decreases shared@.len(),
    {
        let ghost before = workers@;
        let ghost sh = shared@;
        let mut w = workers.remove(i);
        proof {
            assert(w == before[i as int]);
        }
        w.take_one(shared);
        let ghost w1 = w;
        workers.insert(i, w);
        proof {
            broadcast use vstd::seq_lib::to_multiset_build, vstd::multiset::group_multiset_axioms;

            assert(workers@ == before.update(i as int, w1));
            lemma_queued_push(before, i as int, w1, sh.last());
            assert(sh == sh.drop_last().push(sh.last()));
            assert(sh.to_multiset() == sh.drop_last().to_multiset().insert(sh.last()));
            assert(queued(workers@).add(shared@.to_multiset()) =~= queued(before).add(
                sh.to_multiset(),
            ));
            assert forall|j: int| #![trigger workers@[j]] 0 <= j < n implies {
                let (w0, w1) = (ws0[j], workers@[j]);
                &&& w1.wf() == w0.wf()
                &&& w1.pattern() == w0.pattern()
                &&& w1.current() == w0.current()
                &&& w1.table() == w0.table()
                &&& w1.active() == w0.active()
                &&& w0.queue().is_prefix_of(w1.queue())
            } by {
                assert(before[j] == before[j]);
                if j == i {
                    let q0 = ws0[j].queue();
                    let q1 = before[j].queue();
                    assert(q0.is_prefix_of(q1));
                    assert forall|x: int| 0 <= x < q0.len() implies q0[x] == workers@[j].queue()[x] by {
                        assert(q1[x] == q0[x]);
                    }
                }
            }
        }
        i = if i + 1 == n {
            0
        } else {
            i + 1
        };
    }
    proof {
        broadcast use vstd::seq_lib::to_multiset_len, vstd::multiset::lemma_multiset_empty_len,
            vstd::multiset::group_multiset_axioms;

        assert(shared@.to_multiset().len() == 0);
        assert(queued(workers@).add(shared@.to_multiset()) =~= queued(workers@));
    }
}

/// The merge of the tables of `ws` into `m`, first worker first.
pub open spec fn merge_workers(m: Map<Seq<char>, u64>, ws: Seq<AggregatorWorker>) -> Map<
    Seq<char>,
    u64,
>
    decreases ws.len(),
{
    if ws.len() == 0 {
        m
    } else {
        merge_models(merge_workers(m, ws.drop_last()), ws.last().table())
    }
}

/// Collects every worker's private table into `result`, leaving the private
/// tables empty.
pub fn collect_all(workers: &mut Vec<AggregatorWorker>, result: &mut FrequencyTable)
    requires
        old(result).wf(),
        forall|i: int| 0 <= i < old(workers)@.len() ==> (#[trigger] old(workers)@[i]).wf(),
    ensures
        final(result).wf(),
        final(result)@ == merge_workers(old(result)@, old(workers)@),
        final(workers)@.len() == old(workers)@.len(),
        forall|i: int|
            #![trigger final(workers)@[i]]
            0 <= i < final(workers)@.len() ==> {
                let (w0, w1) = (old(workers)@[i], final(workers)@[i]);
                &&& w1.wf()
                &&& w1.table() == Map::<Seq<char>, u64>::empty()
                &&& w1.pattern() == w0.pattern()
                &&& w1.current() == w0.current()
                &&& w1.active() == w0.active()
                &&& w1.queue() == w0.queue()
            },
{
    let n = workers.len();
    let ghost ws0 = workers@;
    let ghost r0 = result@;
    let mut i: usize = 0;
    while i < n
        invariant
            n == workers@.len(),
            n == ws0.len(),
            i <= n,
            result.wf(),
            result@ == merge_workers(r0, ws0.take(i as int)),
            forall|j: int| i <= j < n ==> #[trigger] workers@[j] == ws0[j],
            forall|j: int| 0 <= j < n ==> (#[trigger] ws0[j]).wf(),
            forall|j: int|
                #![trigger workers@[j]]
                0 <= j < i ==> {
                    let (w0, w1) = (ws0[j], workers@[j]);
                    &&& w1.wf()
                    &&& w1.table() == Map::<Seq<char>, u64>::empty()
                    &&& w1.pattern() == w0.pattern()
                    &&& w1.current() == w0.current()
                    &&& w1.active() == w0.active()
                    &&& w1.queue() == w0.queue()
                },
        decreases n - i,
    {
        let ghost before = workers@;
        let mut w = workers.remove(i);
        proof {
            assert(w == before[i as int]);
            assert(w == ws0[i as int]);
        }
        w.collect(result);
        workers.insert(i, w);
        proof {
            assert(ws0.take(i + 1).drop_last() == ws0.take(i as int));
            assert forall|j: int| i + 1 <= j < n implies #[trigger] workers@[j] == ws0[j] by {
                assert(workers@[j] == before[j]);
            }
            assert forall|j: int| #![trigger workers@[j]] 0 <= j < i implies {
                let (w0, w1) = (ws0[j], workers@[j]);
                &&& w1.wf()
                &&& w1.table() == Map::<Seq<char>, u64>::empty()
                &&& w1.pattern() == w0.pattern()
                &&& w1.current() == w0.current()
                &&& w1.active() == w0.active()
                &&& w1.queue() == w0.queue()
            } by {
                assert(workers@[j] == before[j]);
            }
        }
        i += 1;
    }
    proof {
        assert(ws0.take(n as int) == ws0);
    }
}

} // verus!
