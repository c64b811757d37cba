//! The worker dispatch protocol: per-message tasks carrying a batch index,
//! results keyed by that index, and the reassembly that restores submission
//! order no matter in which order the workers answered.

use vstd::prelude::*;
use vstd::pervasive::VecAdditionalExecFns;

use crate::execution::{msgs_view, PipelineError};
use crate::opts::{Message, MessageInner, SpecMessage};

verus! {

/// Model of a task.
#[verifier::ext_equal]
pub struct SpecTask {
    pub idx: int,
    pub data: SpecMessage,
    pub module: Seq<char>,
    pub exported_name: Seq<char>,
}

/// One unit of work for a script worker: the message, its position in the
/// batch being dispatched, the producing module's name and the export to
/// invoke.
#[derive(Debug)]
pub struct TaskData {
    pub idx: usize,
    pub data: Message,
    pub module: String,
    pub exported_name: String,
}

impl View for TaskData {
    type V = SpecTask;

    open spec fn view(&self) -> SpecTask {
        SpecTask {
            idx: self.idx as int,
            data: self.data@,
            module: self.module@,
            exported_name: self.exported_name@,
        }
    }
}

/// Model of a result.
#[verifier::ext_equal]
pub struct SpecRet {
    pub idx: int,
    pub data: SpecMessage,
    pub module: Seq<char>,
}

/// A worker's answer: the transformed message under the same batch index.
#[derive(Debug)]
pub struct RetData {
    pub idx: usize,
    pub data: Message,
    pub module: String,
}

impl View for RetData {
    type V = SpecRet;

    open spec fn view(&self) -> SpecRet {
        SpecRet { idx: self.idx as int, data: self.data@, module: self.module@ }
    }
}

/// View of a result list.
pub open spec fn rets_view(rs: Seq<RetData>) -> Seq<SpecRet> {
    Seq::new(rs.len(), |i: int| rs[i]@)
}

/// The script evaluation collaborator: invokes a named export on a
/// message's content and returns the replacement mediation map and payload,
/// or nothing when the script run fails. No further behaviour is assumed of
/// an implementation.
pub trait ScriptEngine {
    /// Evaluate `exported_name` against the message's content.
    fn invoke(&mut self, exported_name: &String, msg: &Message) -> Option<MessageInner>;
}

/// The tasks for one batch: task `i` carries message `i`.
pub fn make_tasks(batch: Vec<Message>, module: &String, exported_name: &String) -> (r: Vec<
    TaskData,
>)
    ensures
        r@.len() == batch@.len(),
        forall|i: int|
            0 <= i < r@.len() ==> r@[i]@ == (SpecTask {
                idx: i,
                data: batch@[i]@,
                module: module@,
                exported_name: exported_name@,
            }),
{
    let ghost full = batch@;
    let mut rest = batch;
    let mut tasks: Vec<TaskData> = Vec::new();
    while rest.len() > 0
        invariant
            tasks@.len() + rest@.len() == full.len(),
            rest@ == full.skip(tasks@.len() as int),
            forall|i: int|
                0 <= i < tasks@.len() ==> tasks@[i]@ == (SpecTask {
                    idx: i,
                    data: full[i]@,
                    module: module@,
                    exported_name: exported_name@,
                }),
        decreases rest@.len(),
    {
        let idx = tasks.len();
        let data = rest.remove(0);
        proof {
            assert(data == full[idx as int]);
        }
        tasks.push(
            TaskData { idx, data, module: module.clone(), exported_name: exported_name.clone() },
        );
        proof {
            assert(rest@ =~= full.skip(tasks@.len() as int));
        }
    }
    tasks
}

/// Hand one task to a worker; the result keeps the task's index, module
/// name and date tag, whatever the script produced.
pub fn dispatch_one<E: ScriptEngine>(engine: &mut E, task: TaskData) -> (r: Option<RetData>)
    ensures
        match r {
            Some(ret) => ret@.idx == task@.idx && ret@.module == task@.module && ret@.data.date
                == task@.data.date,
            None => true,
        },
{
    match engine.invoke(&task.exported_name, &task.data) {
        Some(inner) => Some(
            RetData {
                idx: task.idx,
                data: Message { inner, date: task.data.date },
                module: task.module,
            },
        ),
        None => None,
    }
}

/// Some result in `rs` carries the index `k`.
pub open spec fn has_idx(rs: Seq<SpecRet>, k: int) -> bool {
    exists|j: int| 0 <= j < rs.len() && #[trigger] rs[j].idx == k
}

/// The results of a batch of size `n` are reassemblable when they carry
/// each index below `n` exactly once.
pub open spec fn results_valid(rs: Seq<SpecRet>, n: int) -> bool {
    &&& rs.len() == n
    &&& forall|j: int| 0 <= j < n ==> 0 <= #[trigger] rs[j].idx < n
    &&& forall|j1: int, j2: int| 0 <= j1 < j2 < n ==> rs[j1].idx != rs[j2].idx
    &&& forall|k: int| 0 <= k < n ==> #[trigger] has_idx(rs, k)
}

/// Reinsert each result at its submission index. Succeeds exactly when the
/// results carry each index of the batch once; the message that was
/// submitted as `i` comes back at position `i`.
pub fn collect_results(results: Vec<RetData>, n: usize) -> (r: Option<Vec<Message>>)
    ensures
        match r {
            Some(out) => results_valid(rets_view(results@), n as int) && out@.len() == n
                && forall|j: int|
                0 <= j < n ==> msgs_view(out@)[#[trigger] rets_view(results@)[j].idx]
                    == rets_view(results@)[j].data,
            None => !results_valid(rets_view(results@), n as int),
        },
{
    let ghost rv = rets_view(results@);
    if results.len() != n {
        return None;
    }
    let mut slots: Vec<Option<Message>> = Vec::new();
    let mut k: usize = 0;
    while k < n
        invariant
            k <= n,
            slots@.len() == k,
            forall|i: int| 0 <= i < k ==> slots@[i] is None,
        decreases n - k,
    {
        slots.push(None);
        k += 1;
    }
    let mut rest = results;
    let mut j: usize = 0;
    while rest.len() > 0
        invariant
            rv == rets_view(results@),
            results@.len() == n,
            j + rest@.len() == n,
            rest@ == results@.skip(j as int),
            slots@.len() == n,
            forall|i: int|
                0 <= i < j ==> 0 <= #[trigger] rv[i].idx < n && slots@[rv[i].idx] == Some(
                    results@[i].data,
                ),
            forall|i1: int, i2: int| 0 <= i1 < i2 < j ==> rv[i1].idx != rv[i2].idx,
            forall|k2: int|
                0 <= k2 < n ==> (#[trigger] slots@[k2] is Some <==> exists|i: int|
                    0 <= i < j && #[trigger] rv[i].idx == k2),
        decreases rest@.len(),
    {
        let ret = rest.remove(0);
        proof {
            assert(ret == results@[j as int]);
            assert(rest@ =~= results@.skip(j + 1));
        }
        if ret.idx >= n {
            proof {
                assert(rv[j as int].idx == ret.idx as int);
                assert(!results_valid(rv, n as int));
            }
            return None;
        }
        let filled = match &slots[ret.idx] {
            Some(_) => true,
            None => false,
        };
        if filled {
            proof {
                let k2 = rv[j as int].idx;
                let i0 = choose|i: int| 0 <= i < j && #[trigger] rv[i].idx == k2;
                assert(rv[i0].idx == rv[j as int].idx);
                assert(!results_valid(rv, n as int));
            }
            return None;
        }
        let idx = ret.idx;
        let data = ret.data;
        slots.set(idx, Some(data));
        j += 1;
        proof {
            assert forall|i1: int, i2: int| 0 <= i1 < i2 < j implies rv[i1].idx != rv[i2].idx by {
                if i2 == j - 1 && rv[i1].idx == rv[i2].idx {
                    assert(exists|i: int| 0 <= i < j - 1 && #[trigger] rv[i].idx == idx as int);
                }
            }
            assert forall|k2: int| 0 <= k2 < n implies (#[trigger] slots@[k2] is Some
                <==> exists|i: int| 0 <= i < j && #[trigger] rv[i].idx == k2) by {
                if k2 == idx as int {
                    assert(rv[j - 1].idx == k2);
                } else {
                    if slots@[k2] is Some {
                        let i0 = choose|i: int| 0 <= i < j - 1 && #[trigger] rv[i].idx == k2;
                        assert(rv[i0].idx == k2);
                    }
                    if exists|i: int| 0 <= i < j && #[trigger] rv[i].idx == k2 {
                        let i0 = choose|i: int| 0 <= i < j && #[trigger] rv[i].idx == k2;
                        assert(i0 < j - 1);
                    }
                }
            }
        }
    }
    // every slot must be filled: each result claimed one distinct slot
    let mut out: Vec<Message> = Vec::new();
    let mut k: usize = 0;
    while k < n
        invariant
            k <= n,
            slots@.len() == n,
            rv == rets_view(results@),
            results@.len() == n,
            forall|i: int|
                0 <= i < n ==> 0 <= #[trigger] rv[i].idx < n && slots@[rv[i].idx] == Some(
                    results@[i].data,
                ),
            forall|i1: int, i2: int| 0 <= i1 < i2 < n ==> rv[i1].idx != rv[i2].idx,
            forall|k2: int|
                0 <= k2 < n ==> (#[trigger] slots@[k2] is Some <==> exists|i: int|
                    0 <= i < n && #[trigger] rv[i].idx == k2),
            out@.len() == k,
            forall|k2: int|
                0 <= k2 < k ==> ((#[trigger] slots@[k2]) matches Some(m) && out@[k2]@ == m@),
        decreases n - k,
    {
        match &slots[k] {
            Some(m) => {
                let d = m.duplicate();
                out.push(d);
            },
            None => {
                proof {
                    assert(!(slots@[k as int] is Some));
                    assert(!has_idx(rv, k as int));
                    assert(!results_valid(rv, n as int));
                }
                return None;
            },
        }
        k += 1;
    }
    proof {
        assert forall|k2: int| 0 <= k2 < n implies #[trigger] has_idx(rv, k2) by {
            assert(slots@[k2] is Some);
            let i0 = choose|i: int| 0 <= i < n && #[trigger] rv[i].idx == k2;
            assert(0 <= i0 < rv.len() && rv[i0].idx == k2);
        }
        assert forall|j2: int| 0 <= j2 < n implies msgs_view(out@)[#[trigger] rv[j2].idx]
            == rv[j2].data by {
            let idx = rv[j2].idx;
            assert(slots@[idx] == Some(results@[j2].data));
            assert((#[trigger] slots@[idx]) matches Some(m) && out@[idx]@ == m@);
            assert(out@[idx]@ == results@[j2].data@);
            assert(msgs_view(out@)[idx] == out@[idx]@);
        }
    }
    Some(out)
}

/// Dispatch a whole batch through the protocol: one task per message, all
/// results collected, submission order restored. `r[i]` derives from
/// `batch[i]`: it keeps its date tag, and carries whatever mediation map
/// and payload the script produced for that message.
pub fn dispatch_batch<E: ScriptEngine>(
    engine: &mut E,
    batch: Vec<Message>,
    module: &String,
    exported_name: &String,
) -> (r: Result<Vec<Message>, PipelineError>)
    ensures
        match r {
            Ok(out) => out@.len() == batch@.len() && forall|i: int|
                0 <= i < out@.len() ==> msgs_view(out@)[i].date == batch@[i]@.date,
            Err(e) => e == PipelineError::ScriptFailure,
        },
        batch@.len() == 0 ==> r is Ok,
{
    let ghost full = batch@;
    let n = batch.len();
    let tasks = make_tasks(batch, module, exported_name);
    let ghost tasks_v = tasks@;
    let mut rest = tasks;
    let mut results: Vec<RetData> = Vec::new();
    while rest.len() > 0
        invariant
            full == batch@,
            full.len() == n,
            tasks_v.len() == n,
            results@.len() + rest@.len() == n,
            rest@ == tasks_v.skip(results@.len() as int),
            forall|i: int|
                0 <= i < n ==> (#[trigger] tasks_v[i]@).idx == i && tasks_v[i]@.data.date
                    == full[i]@.date,
            forall|j: int|
                0 <= j < results@.len() ==> (#[trigger] rets_view(results@)[j]).idx == j
                    && rets_view(results@)[j].data.date == full[j]@.date,
        decreases rest@.len(),
    {
        let ghost done = results@.len() as int;
        let task = rest.remove(0);
        proof {
            assert(task == tasks_v[done]);
        }
        match dispatch_one(engine, task) {
            Some(ret) => {
                let ghost res0 = results@;
                let ghost retv = ret@;
                results.push(ret);
                proof {
                    assert(rest@ =~= tasks_v.skip(results@.len() as int));
                    assert forall|j: int| 0 <= j < results@.len() implies (#[trigger] rets_view(
                        results@,
                    )[j]).idx == j && rets_view(results@)[j].data.date == full[j]@.date by {
                        if j < done {
                            assert(results@[j] == res0[j]);
                            assert(rets_view(res0)[j] == res0[j]@);
                        } else {
                            assert(results@[j]@ == retv);
                        }
                    }
                }
            },
            None => {
                return Err(PipelineError::ScriptFailure);
            },
        }
    }
    let ghost rv = rets_view(results@);
    proof {
        assert forall|k: int| 0 <= k < n implies #[trigger] has_idx(rv, k) by {
            assert(rv[k].idx == k);
        }
        assert(results_valid(rv, n as int));
    }
    match collect_results(results, n) {
        Some(out) => {
            proof {
                assert forall|i: int| 0 <= i < out@.len() implies msgs_view(out@)[i].date
                    == full[i]@.date by {
                    assert(rv[i].idx == i);
                    assert(msgs_view(out@)[rv[i].idx] == rv[i].data);
                }
            }
            Ok(out)
        },
        None => {
            proof {
                assert(false);
            }
            vstd::pervasive::unreached()
        },
    }
}

/// Dispatch order law: for any batch of size `n`, whatever order the
/// workers answered in, if each result carries the transformation of the
/// message at its own index, reassembly by index returns exactly the
/// transformed batch in submission order.
pub proof fn lemma_dispatch_order(
    rs: Seq<SpecRet>,
    transformed: Seq<SpecMessage>,
    out: Seq<SpecMessage>,
    n: int,
)
    requires
        results_valid(rs, n),
        transformed.len() == n,
        out.len() == n,
        forall|j: int| 0 <= j < n ==> (#[trigger] rs[j]).data == transformed[rs[j].idx],
        forall|j: int| 0 <= j < n ==> out[(#[trigger] rs[j]).idx] == rs[j].data,
    ensures
        out == transformed,
{
    assert forall|k: int| 0 <= k < n implies out[k] == transformed[k] by {
        assert(has_idx(rs, k));
        let j = choose|j: int| 0 <= j < rs.len() && #[trigger] rs[j].idx == k;
        assert(out[k] == rs[j].data);
    }
    assert(out =~= transformed);
}

} // verus!
