use distribiuted_matrix_multiplication::coordinator::{assemble, place_result, Coordinator, Dispatch};
use distribiuted_matrix_multiplication::error::MatrixError;
use distribiuted_matrix_multiplication::matrix::Matrix;
use distribiuted_matrix_multiplication::partition::{assignment_for, rows_per_worker, WorkAssignment};
use distribiuted_matrix_multiplication::worker::{Worker, WorkerAction, WorkerEvent, WorkerState};

fn madd(acc: f64, x: f64, y: f64) -> f64 {
    acc + x * y
}

fn seq_matrix(rows: usize, cols: usize) -> Matrix<f64> {
    Matrix::from_vec((1..=rows * cols).map(|x| x as f64).collect(), rows, cols).unwrap()
}

/// Runs every worker of a plan through its state machine and assembles the
/// results, as the coordinator does.
fn run_plan(plan: &Vec<Dispatch<f64>>, a: &Matrix<f64>, b: &Matrix<f64>) -> Matrix<f64> {
    let mut results: Vec<Option<Matrix<f64>>> = Vec::new();
    for d in plan {
        let mut w: Worker<f64> = Worker::new(d.dest as i32);
        let action = w.step(WorkerEvent::Assignment(d.assignment), 0.0, &madd);
        match &d.band {
            None => {
                assert!(matches!(action, WorkerAction::Finish));
                results.push(None);
            }
            Some(band) => {
                assert!(matches!(action, WorkerAction::ReceiveMatrix));
                let action = w.step(WorkerEvent::Matrix(band.clone()), 0.0, &madd);
                assert!(matches!(action, WorkerAction::ReceiveMatrix));
                match w.step(WorkerEvent::Matrix(b.clone()), 0.0, &madd) {
                    WorkerAction::SendResult(c) => results.push(Some(c)),
                    other => panic!("unexpected action {:?}", other),
                }
            }
        }
    }
    assemble(a.rows, b.cols, plan, &results)
}

#[test]
fn rows_per_worker_is_the_ceiling() {
    assert_eq!(rows_per_worker(10, 3), 4);
    assert_eq!(rows_per_worker(9, 3), 3);
    assert_eq!(rows_per_worker(2, 5), 1);
    assert_eq!(rows_per_worker(0, 4), 0);
    assert_eq!(rows_per_worker(usize::MAX, 1), usize::MAX);
    assert_eq!(rows_per_worker(usize::MAX, 2), usize::MAX / 2 + 1);
}

#[test]
fn assignments_are_contiguous_bands() {
    let bands: Vec<WorkAssignment> = (0..3).map(|k| assignment_for(k, 10, 7, 3)).collect();
    assert_eq!(
        bands,
        vec![
            WorkAssignment { row_start: 0, row_end: 4, col_start: 0, col_end: 7 },
            WorkAssignment { row_start: 4, row_end: 8, col_start: 0, col_end: 7 },
            WorkAssignment { row_start: 8, row_end: 10, col_start: 0, col_end: 7 },
        ]
    );
}

#[test]
fn workers_past_the_last_row_are_idle() {
    assert_eq!(assignment_for(3, 3, 2, 5), WorkAssignment::idle());
    assert_eq!(assignment_for(4, 3, 2, 5), WorkAssignment::idle());
    assert_eq!(
        assignment_for(2, 3, 2, 5),
        WorkAssignment { row_start: 2, row_end: 3, col_start: 0, col_end: 2 }
    );
    assert!(!WorkAssignment::idle().has_work());
    assert_eq!(assignment_for(usize::MAX, 10, 1, usize::MAX), WorkAssignment::idle());
}

#[test]
fn worker_count_excludes_the_coordinator() {
    assert_eq!(Coordinator::new(4).worker_count(), 3);
    assert_eq!(Coordinator::new(1).worker_count(), 0);
    assert_eq!(Coordinator::new(0).worker_count(), 0);
}

#[test]
fn dimension_mismatch_comes_before_any_partition() {
    let a = seq_matrix(2, 3);
    let b = seq_matrix(2, 2);
    assert_eq!(
        Coordinator::new(3).multiply_matrices(&a, &b).unwrap_err(),
        MatrixError::DimensionMismatch
    );
    assert_eq!(
        Coordinator::new(1).multiply_matrices(&a, &b).unwrap_err(),
        MatrixError::DimensionMismatch
    );
}

#[test]
fn a_group_without_workers_is_refused() {
    let a = seq_matrix(2, 2);
    let b = seq_matrix(2, 2);
    assert_eq!(
        Coordinator::new(1).multiply_matrices(&a, &b).unwrap_err(),
        MatrixError::NoWorkers
    );
}

#[test]
fn plan_sends_bands_in_rank_order() {
    let a = seq_matrix(4, 3);
    let b = seq_matrix(3, 2);
    let plan = Coordinator::new(3).multiply_matrices(&a, &b).unwrap();
    assert_eq!(plan.len(), 2);
    assert_eq!(plan[0].dest, 1);
    assert_eq!(plan[1].dest, 2);
    assert_eq!(
        plan[1].assignment,
        WorkAssignment { row_start: 2, row_end: 4, col_start: 0, col_end: 2 }
    );
    let band = plan[1].band.as_ref().unwrap();
    assert_eq!((band.rows, band.cols), (2, 3));
    assert_eq!(band.data, vec![7.0, 8.0, 9.0, 10.0, 11.0, 12.0]);
}

#[test]
fn distributed_product_matches_the_sequential_one() {
    let a = seq_matrix(5, 3);
    let b = seq_matrix(3, 4);
    let expected = a.multiply(&b, 0.0, &madd).unwrap();
    for group in 2..9 {
        let plan = Coordinator::new(group).multiply_matrices(&a, &b).unwrap();
        let c = run_plan(&plan, &a, &b);
        assert_eq!((c.rows, c.cols), (5, 4));
        assert_eq!(c.data, expected.data, "group of {}", group);
    }
}

#[test]
fn surplus_workers_get_no_band() {
    let a = seq_matrix(2, 2);
    let b = seq_matrix(2, 2);
    let plan = Coordinator::new(6).multiply_matrices(&a, &b).unwrap();
    assert_eq!(plan.len(), 5);
    for d in &plan[2..] {
        assert_eq!(d.assignment, WorkAssignment::idle());
        assert!(d.band.is_none());
    }
    let few = run_plan(&Coordinator::new(3).multiply_matrices(&a, &b).unwrap(), &a, &b);
    let many = run_plan(&plan, &a, &b);
    assert_eq!(few.data, many.data);
    assert_eq!(many.data, vec![7.0, 10.0, 15.0, 22.0]);
}

#[test]
fn place_result_copies_what_fits() {
    let mut result: Matrix<f64> = Matrix::new(3, 2);
    let chunk = seq_matrix(2, 3);
    place_result(&mut result, 2, &chunk);
    assert_eq!(result.data, vec![0.0, 0.0, 0.0, 0.0, 1.0, 2.0]);
    place_result(&mut result, 7, &chunk);
    assert_eq!(result.data, vec![0.0, 0.0, 0.0, 0.0, 1.0, 2.0]);
}

#[test]
fn test_coordinator_worker_communication() {
    let matrix_a = Matrix::from_vec(vec![1.0, 2.0, 3.0, 4.0, 5.0, 6.0], 2, 3).unwrap();
    let matrix_b = Matrix::from_vec(vec![7.0, 8.0, 9.0, 10.0, 11.0, 12.0], 3, 2).unwrap();

    let mut worker: Worker<f64> = Worker::new(1);
    let assignment = WorkAssignment { row_start: 0, row_end: 2, col_start: 0, col_end: 2 };
    assert!(matches!(
        worker.step(WorkerEvent::Assignment(assignment), 0.0, &madd),
        WorkerAction::ReceiveMatrix
    ));
    let row_chunk = matrix_a.get_row_chunk(0, 2).unwrap();
    assert!(matches!(
        worker.step(WorkerEvent::Matrix(row_chunk), 0.0, &madd),
        WorkerAction::ReceiveMatrix
    ));
    let col_chunk = matrix_b.get_col_chunk(0, 2).unwrap();
    assert_eq!(col_chunk.rows, 3, "Column chunk should have 3 rows");
    assert_eq!(col_chunk.cols, 2, "Column chunk should have 2 columns");
    let result = match worker.step(WorkerEvent::Matrix(col_chunk), 0.0, &madd) {
        WorkerAction::SendResult(c) => c,
        other => panic!("unexpected action {:?}", other),
    };
    assert!(matches!(worker.state(), WorkerState::Done));

    assert_eq!(result.rows, 2, "Result should have 2 rows");
    assert_eq!(result.cols, 2, "Result should have 2 columns");
    let expected = matrix_a.multiply(&matrix_b, 0.0, &madd).unwrap();
    assert_eq!(result.data, expected.data);
    assert_eq!(result.data, vec![58.0, 64.0, 139.0, 154.0]);
}

#[test]
fn test_worker_with_no_work() {
    let mut worker: Worker<f64> = Worker::new(1);
    let assignment = WorkAssignment { row_start: 5, row_end: 5, col_start: 5, col_end: 5 };
    assert!(matches!(
        worker.step(WorkerEvent::Assignment(assignment), 0.0, &madd),
        WorkerAction::Finish
    ));
    assert!(matches!(worker.state(), WorkerState::Done));
    assert_eq!(worker.rank(), 1);
}

#[test]
fn worker_reports_a_kernel_mismatch() {
    let mut worker: Worker<f64> = Worker::new(2);
    let assignment = WorkAssignment { row_start: 0, row_end: 1, col_start: 0, col_end: 1 };
    worker.step(WorkerEvent::Assignment(assignment), 0.0, &madd);
    worker.step(WorkerEvent::Matrix(seq_matrix(1, 2)), 0.0, &madd);
    assert!(matches!(
        worker.step(WorkerEvent::Matrix(seq_matrix(3, 1)), 0.0, &madd),
        WorkerAction::Fail(MatrixError::DimensionMismatch)
    ));
}

#[test]
fn worker_refuses_unexpected_messages() {
    let mut worker: Worker<f64> = Worker::new(1);
    assert!(matches!(
        worker.step(WorkerEvent::Matrix(seq_matrix(1, 1)), 0.0, &madd),
        WorkerAction::Fail(MatrixError::ProtocolViolation)
    ));
    let assignment = WorkAssignment { row_start: 0, row_end: 1, col_start: 0, col_end: 1 };
    assert!(matches!(
        worker.step(WorkerEvent::Assignment(assignment), 0.0, &madd),
        WorkerAction::Fail(MatrixError::ProtocolViolation)
    ));
}
