//! Batches of jobs for the network.

use vstd::prelude::*;

verus! {

/// How many jobs a job channel holds, so that every generator can go on:
/// four times as many as search batches fit into the largest batch.
pub fn channel_capacity(max_batch_size: usize, search_batch_size: usize) -> (r: usize)
    requires
        search_batch_size > 0,
        4 * (max_batch_size / search_batch_size) <= usize::MAX,
    ensures
        r == 4 * (max_batch_size / search_batch_size),
{
    4 * (max_batch_size / search_batch_size)
}

/// How many games a device plays at once: a batch of expansions for each
/// of its threads and one more, and two batches of roots.
pub fn concurrent_games(gpu_threads: usize, gpu_batch_size: usize, gpu_batch_size_root: usize) -> (r:
    usize)
    requires
        gpu_threads < usize::MAX,
        (gpu_threads + 1) * gpu_batch_size + 2 * gpu_batch_size_root <= usize::MAX,
    ensures
        r == (gpu_threads + 1) * gpu_batch_size + 2 * gpu_batch_size_root,
{
    assert((gpu_threads + 1) * gpu_batch_size >= 0) by (nonlinear_arith);
    (gpu_threads + 1) * gpu_batch_size + 2 * gpu_batch_size_root
}

/// The input of a batch of `batch_size` jobs of `item_size` numbers each:
/// the inputs of the jobs that are there, one after the other, and `filler`
/// in the places of the jobs that are missing.
pub open spec fn padded<T>(inputs: Seq<T>, batch_len: nat, filler: T) -> Seq<T> {
    Seq::new(
        batch_len,
        |i: int|
            if i < inputs.len() {
                inputs[i]
            } else {
                filler
            },
    )
}

/// Fills the input of a batch up to its full size.
pub fn pad_batch<T: Copy>(inputs: &mut Vec<T>, item_size: usize, batch_size: usize, filler: T)
    requires
        item_size * batch_size <= usize::MAX,
        old(inputs)@.len() <= item_size * batch_size,
    ensures
        final(inputs)@ == padded(old(inputs)@, (item_size * batch_size) as nat, filler),
{
    let ghost before = inputs@;
    let full = item_size * batch_size;
    while inputs.len() < full
        invariant
            full == item_size * batch_size,
            before.len() <= inputs@.len() <= full,
            forall|i: int| 0 <= i < before.len() ==> inputs@[i] == before[i],
            forall|i: int| before.len() <= i < inputs@.len() ==> inputs@[i] == filler,
        decreases full - inputs@.len(),
    {
        inputs.push(filler);
    }
    assert(inputs@ =~= padded(before, full as nat, filler));
}

/// The output of job `job` of a batch, where each job has `item_size`
/// numbers of output.
pub open spec fn job_output<T>(outputs: Seq<T>, item_size: nat, job: int) -> Seq<T> {
    outputs.subrange(job * item_size, (job + 1) * item_size)
}

/// Cuts the output of a batch into the outputs of the `count` jobs that
/// were there; the output of the filler is dropped.
pub fn split_outputs<T: Copy>(outputs: &Vec<T>, item_size: usize, count: usize) -> (r: Vec<Vec<T>>)
    requires
        item_size * count <= outputs@.len(),
    ensures
        r@.len() == count,
        forall|job: int|
            0 <= job < count ==> (#[trigger] r@[job])@ == job_output(outputs@, item_size as nat, job),
{
    let mut result: Vec<Vec<T>> = Vec::new();
    let mut job: usize = 0;
    let total = outputs.len();
    while job < count
        invariant
            job <= count,
            total == outputs@.len(),
            item_size * count <= outputs@.len(),
            result@.len() == job,
            forall|j: int|
                0 <= j < job ==> (#[trigger] result@[j])@ == job_output(outputs@, item_size as nat, j),
        decreases count - job,
    {
        assert(0 <= job * item_size && job * item_size + item_size <= item_size * count && job
            * item_size + item_size == (job + 1) * item_size) by (nonlinear_arith)
            requires
                0 <= job < count,
                item_size >= 0,
        ;
        let start = job * item_size;
        let mut item: Vec<T> = Vec::new();
        let mut i: usize = 0;
        while i < item_size
            invariant
                i <= item_size,
                start == job * item_size,
                total == outputs@.len(),
                start + item_size <= outputs@.len(),
                item@ == outputs@.subrange(start as int, start + i),
            decreases item_size - i,
        {
            item.push(outputs[start + i]);
            i += 1;
        }
        result.push(item);
        job += 1;
    }
    result
}

/// The smallest of the batch sizes that graphs have been built for that
/// holds `count` jobs, if one does.
pub fn pick_batch_size(sizes: &Vec<usize>, count: usize) -> (r: Option<usize>)
    ensures
        match r {
            Some(size) => {
                &&& sizes@.contains(size)
                &&& size >= count
                &&& forall|i: int| 0 <= i < sizes@.len() && sizes@[i] >= count ==> size <= sizes@[i]
            },
            None => forall|i: int| 0 <= i < sizes@.len() ==> sizes@[i] < count,
        },
{
    let mut best: Option<usize> = None;
    let mut i: usize = 0;
    while i < sizes.len()
        invariant
            i <= sizes@.len(),
            match best {
                Some(size) => {
                    &&& sizes@.contains(size)
                    &&& size >= count
                    &&& forall|j: int| 0 <= j < i && sizes@[j] >= count ==> size <= sizes@[j]
                },
                None => forall|j: int| 0 <= j < i ==> sizes@[j] < count,
            },
        decreases sizes@.len() - i,
    {
        let size = sizes[i];
        if size >= count {
            match best {
                Some(known) => {
                    if size < known {
                        best = Some(size);
                    }
                },
                None => {
                    best = Some(size);
                },
            }
        }
        i += 1;
    }
    best
}

} // verus!
