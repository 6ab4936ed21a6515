//! Windows of time in which a condition holds, found sample by sample.

use vstd::prelude::*;

verus! {

/// What a sample says of the condition.
#[derive(Debug, Clone, Copy, PartialEq, Eq, Structural)]
pub enum Signal {
    /// It holds.
    Opens,
    /// It does not hold.
    Closes,
    /// The sample does not tell.
    Neither,
}

/// A closed window: it opened with sample `start`, and sample `end` closed it.
#[derive(Debug, Clone, Copy, PartialEq, Eq, Structural)]
pub struct Run {
    pub start: usize,
    pub end: usize,
}

/// The sample with which the window began that is open after `n` samples.
pub open spec fn open_run(signals: Seq<Signal>, n: int) -> Option<int>
    decreases n,
{
    if n <= 0 {
        None
    } else {
        match (open_run(signals, n - 1), signals[n - 1]) {
            (None, Signal::Opens) => Some(n - 1),
            (Some(_), Signal::Closes) => None,
            (before, _) => before,
        }
    }
}

/// The windows that the first `n` samples closed: where each began, and the
/// sample that closed it.
pub open spec fn closed_runs(signals: Seq<Signal>, n: int) -> Seq<(int, int)>
    decreases n,
{
    if n <= 0 {
        Seq::empty()
    } else {
        match (open_run(signals, n - 1), signals[n - 1]) {
            (Some(start), Signal::Closes) => closed_runs(signals, n - 1).push((start, n - 1)),
            _ => closed_runs(signals, n - 1),
        }
    }
}

/// What a list of windows says.
pub open spec fn run_list(runs: Seq<Run>) -> Seq<(int, int)> {
    Seq::new(runs.len(), |i: int| (runs[i].start as int, runs[i].end as int))
}

/// The sample lies in one of the windows.
pub open spec fn covered(signals: Seq<Signal>, n: int, i: int) -> bool {
    ||| exists|k: int|
        0 <= k < closed_runs(signals, n).len() && (#[trigger] closed_runs(signals, n)[k]).0 <= i
            && i < closed_runs(signals, n)[k].1
    ||| open_run(signals, n) matches Some(start) && start <= i
}

pub proof fn lemma_runs_in_range(signals: Seq<Signal>, n: int)
    requires
        0 <= n <= signals.len(),
    ensures
        open_run(signals, n) matches Some(start) ==> 0 <= start < n && signals[start] is Opens,
        forall|k: int|
            0 <= k < closed_runs(signals, n).len() ==> {
                let run = #[trigger] closed_runs(signals, n)[k];
                0 <= run.0 < run.1 < n && signals[run.0] is Opens && signals[run.1] is Closes
            },
    decreases n,
{
    if n > 0 {
        lemma_runs_in_range(signals, n - 1);
    }
}

/// Where every sample tells, the windows cover exactly the samples at which the
/// condition holds.
pub proof fn windows_cover_exactly(signals: Seq<Signal>, n: int, i: int)
    requires
        0 <= i < n <= signals.len(),
        forall|j: int| 0 <= j < n ==> !(#[trigger] signals[j] is Neither),
    ensures
        signals[i] is Opens <==> covered(signals, n, i),
    decreases n,
{
    lemma_runs_in_range(signals, n - 1);
    lemma_runs_in_range(signals, n);
    let before = closed_runs(signals, n - 1);
    let after = closed_runs(signals, n);
    if i < n - 1 {
        windows_cover_exactly(signals, n - 1, i);
        if signals[i] is Opens {
            if exists|k: int| 0 <= k < before.len() && (#[trigger] before[k]).0 <= i && i < before[k].1 {
                let k = choose|k: int| 0 <= k < before.len() && (#[trigger] before[k]).0 <= i && i < before[k].1;
                assert(after[k] == before[k]);
            } else {
                let start = open_run(signals, n - 1)->0;
                if signals[n - 1] is Closes {
                    assert(after[after.len() - 1] == (start, n - 1));
                }
            }
        } else {
            if exists|k: int| 0 <= k < after.len() && (#[trigger] after[k]).0 <= i && i < after[k].1 {
                let k = choose|k: int| 0 <= k < after.len() && (#[trigger] after[k]).0 <= i && i < after[k].1;
                if k < before.len() {
                    assert(before[k] == after[k]);
                }
            }
        }
    } else {
        assert(!(signals[i] is Neither));
    }
}

/// Windows stand in order of time, and a sample parts each from the next.
pub proof fn windows_are_apart(signals: Seq<Signal>, n: int)
    requires
        0 <= n <= signals.len(),
    ensures
        forall|j: int, k: int|
            0 <= j < k < closed_runs(signals, n).len() ==> (#[trigger] closed_runs(signals, n)[j]).1 < (
            #[trigger] closed_runs(signals, n)[k]).0,
        open_run(signals, n) matches Some(start) ==> forall|j: int|
            0 <= j < closed_runs(signals, n).len() ==> (#[trigger] closed_runs(signals, n)[j]).1 < start,
    decreases n,
{
    if n > 0 {
        windows_are_apart(signals, n - 1);
        lemma_runs_in_range(signals, n - 1);
    }
}

/// Finds the windows.
pub fn scan(signals: &Vec<Signal>) -> (r: (Vec<Run>, Option<usize>))
    ensures
        run_list(r.0@) == closed_runs(signals@, signals@.len() as int),
        match r.1 {
            Some(start) => open_run(signals@, signals@.len() as int) == Some(start as int),
            None => open_run(signals@, signals@.len() as int) is None,
        },
        r.1 matches Some(start) ==> start < signals@.len(),
        forall|k: int| 0 <= k < r.0@.len() ==> (#[trigger] r.0@[k]).start < r.0@[k].end < signals@.len(),
{
    let mut runs: Vec<Run> = Vec::new();
    let mut open: Option<usize> = None;
    let mut i: usize = 0;
    assert(run_list(runs@) =~= Seq::<(int, int)>::empty());
    while i < signals.len()
        invariant
            i <= signals@.len(),
            run_list(runs@) == closed_runs(signals@, i as int),
            match open {
                Some(start) => open_run(signals@, i as int) == Some(start as int) && start < i,
                None => open_run(signals@, i as int) is None,
            },
            forall|k: int| 0 <= k < runs@.len() ==> (#[trigger] runs@[k]).start < runs@[k].end < signals@.len(),
        decreases signals@.len() - i,
    {
        match (open, signals[i]) {
            (None, Signal::Opens) => {
                open = Some(i);
            },
            (Some(start), Signal::Closes) => {
                let ghost before = runs@;
                runs.push(Run { start, end: i });
                assert(run_list(runs@) =~= run_list(before).push((start as int, i as int)));
                open = None;
            },
            _ => {},
        }
        i = i + 1;
    }
    (runs, open)
}

} // verus!
