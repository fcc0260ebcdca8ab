use std::sync::{Mutex, RwLock};

use ordered_batch::accumulator::PrefixAccumulator;
use ordered_batch::collector::conclude;
use ordered_batch::dispatcher::Dispatcher;
use ordered_batch::worker::{complete, decide, Decision, Outcome};
use rayon::iter::{IntoParallelIterator, ParallelIterator};

/// The lines of the job at `position`: `count` of them, each naming the
/// position and its own place.
fn job_lines(position: usize, count: usize) -> Vec<String> {
    (0..count).map(|line| format!("{position}:{line}")).collect()
}

/// A job that fails where its line count is `None`.
fn execute(position: usize, counts: &[Option<usize>]) -> Result<Vec<String>, String> {
    match counts[position] {
        Some(count) => Ok(job_lines(position, count)),
        None => Err(format!("job {position}: no such file")),
    }
}

/// One worker after the other: claim, observe, decide, run, record.
fn run_in_turn(
    counts: &[Option<usize>],
    threshold: usize,
) -> (Result<Vec<String>, String>, usize, Vec<usize>) {
    let mut dispatcher = Dispatcher::new(counts.len());
    let mut acc = PrefixAccumulator::new(counts.len());
    let mut results = Vec::new();
    let mut skipped = Vec::new();
    for _ in 0..counts.len() {
        let position = dispatcher.next_position().unwrap();
        let result = match decide(acc.current_total(), threshold) {
            Decision::Skip => {
                skipped.push(position);
                Ok(Outcome::skipped(position))
            }
            Decision::Execute => execute(position, counts)
                .map(|lines| complete(&mut acc, position, lines).unwrap()),
        };
        results.push(result);
    }
    assert_eq!(dispatcher.next_position(), None);
    (conclude(results), acc.current_total(), skipped)
}

#[test]
fn limit_that_is_not_reached_in_time_skips_nothing() {
    let counts = [Some(3), Some(3), Some(3), Some(3)];
    let (lines, total, skipped) = run_in_turn(&counts, 10);
    let lines = lines.unwrap();
    assert_eq!(total, 12);
    assert_eq!(skipped, Vec::<usize>::new());
    assert_eq!(lines.len(), 12);
    let expected: Vec<String> = (0..4).flat_map(|position| job_lines(position, 3)).collect();
    assert_eq!(lines, expected);
}

#[test]
fn limit_reached_after_two_jobs_skips_the_rest() {
    let counts = [Some(3), Some(3), Some(3), Some(3)];
    let (lines, total, skipped) = run_in_turn(&counts, 5);
    assert_eq!(total, 6);
    assert_eq!(skipped, vec![2, 3]);
    assert_eq!(lines, Ok(vec![
        "0:0".to_string(),
        "0:1".to_string(),
        "0:2".to_string(),
        "1:0".to_string(),
        "1:1".to_string(),
        "1:2".to_string(),
    ]));
}

#[test]
fn limit_of_zero_runs_no_job() {
    let counts = [Some(3), None, Some(3)];
    let (lines, total, skipped) = run_in_turn(&counts, 0);
    assert_eq!(lines, Ok(Vec::new()));
    assert_eq!(total, 0);
    assert_eq!(skipped, vec![0, 1, 2]);
}

#[test]
fn failed_job_fails_the_batch() {
    let counts = [Some(3), None, Some(3), Some(3)];
    let (lines, total, skipped) = run_in_turn(&counts, 100);
    assert_eq!(lines, Err("job 1: no such file".to_string()));
    assert_eq!(total, 3);
    assert_eq!(skipped, Vec::<usize>::new());
}

#[test]
fn job_that_would_fail_is_harmless_when_skipped() {
    let counts = [Some(4), Some(4), None];
    let (lines, total, skipped) = run_in_turn(&counts, 8);
    assert_eq!(total, 8);
    assert_eq!(skipped, vec![2]);
    assert_eq!(lines.map(|lines| lines.len()), Ok(8));
}

#[test]
fn batch_without_jobs_gives_no_items() {
    let (lines, total, skipped) = run_in_turn(&[], 10);
    assert_eq!(lines, Ok(Vec::new()));
    assert_eq!(total, 0);
    assert_eq!(skipped, Vec::<usize>::new());
}

#[test]
fn workers_in_parallel_keep_the_order_of_positions() {
    let counts: Vec<usize> = (0..64).map(|position| 1 + position % 5).collect();
    let threshold = 60;
    let dispatcher = Mutex::new(Dispatcher::new(counts.len()));
    let acc = RwLock::new(PrefixAccumulator::new(counts.len()));
    let pool = rayon::ThreadPoolBuilder::new().num_threads(4).build().unwrap();
    let results: Vec<Result<Outcome, String>> = pool.install(|| {
        (0..counts.len())
            .into_par_iter()
            .map(|_| {
                let position = dispatcher.lock().unwrap().next_position().unwrap();
                let observed = acc.read().unwrap().current_total();
                match decide(observed, threshold) {
                    Decision::Skip => Ok(Outcome::skipped(position)),
                    Decision::Execute => {
                        let lines = job_lines(position, counts[position]);
                        let mut acc = acc.write().unwrap();
                        Ok(complete(&mut acc, position, lines).unwrap())
                    }
                }
            })
            .collect()
    });

    // Which positions ran depends on the timing; these hold whatever it was.
    let mut ran = vec![false; counts.len()];
    let mut seen = vec![false; counts.len()];
    for result in &results {
        let outcome = result.as_ref().unwrap();
        assert!(!seen[outcome.position]);
        seen[outcome.position] = true;
        if outcome.items.is_empty() {
            continue;
        }
        assert_eq!(outcome.items, job_lines(outcome.position, counts[outcome.position]));
        ran[outcome.position] = true;
    }
    assert!(seen.iter().all(|&seen| seen));

    // A position whose predecessors cost less than the threshold is never skipped.
    let mut before = 0;
    for position in 0..counts.len() {
        if before < threshold {
            assert!(ran[position]);
        }
        before += counts[position];
    }

    let expected: Vec<String> = (0..counts.len())
        .filter(|&position| ran[position])
        .flat_map(|position| job_lines(position, counts[position]))
        .collect();
    assert_eq!(conclude(results), Ok(expected));

    let acc = acc.into_inner().unwrap();
    assert!(acc.current_total() >= threshold);
    assert!(acc.current_total() <= acc.written_total().unwrap());
}
