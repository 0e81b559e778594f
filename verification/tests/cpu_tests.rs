use linuxpulse::cpu::{
    cpu_sample_from_stat, cpu_usage_deltas, parse_cpu_line, CpuLineFault, CpuSample,
    CpuStatError,
};

const STAT: &str = "cpu  4705 356 584 3699176 23060 0 277 0 0 0\n\
cpu0 1393 280 290 925448 8060 0 233 0 0 0\n\
intr 114930548 113199788 3 0 5\n\
ctxt 1990473\n";

#[test]
fn reads_valid_cpu_sample() {
    let sample = cpu_sample_from_stat(STAT).unwrap();

    assert!(sample.total > 0);
    assert!(sample.idle <= sample.total);
}

#[test]
fn cpu_line_sums_ticks() {
    let sample = parse_cpu_line("cpu  4705 356 584 3699176 23060 0 277 0 0 0");
    assert_eq!(sample.idle, 3699176 + 23060);
    assert_eq!(sample.total, 4705 + 356 + 584 + 3699176 + 23060 + 277);
    assert_eq!(cpu_sample_from_stat(STAT).unwrap(), sample);
}

#[test]
fn first_cpu_line_counts() {
    let text = "intr 1\ncpu0 9 9 9 9 9\ncpu 1 2 3 4 5\ncpu 10 20 30 40 50\n";
    assert_eq!(cpu_sample_from_stat(text), Ok(CpuSample { total: 15, idle: 9 }));
}

#[test]
fn stat_errors() {
    assert_eq!(cpu_sample_from_stat("cpu0 1 2 3 4 5\n"), Err(CpuStatError::MissingCpuLine));
    assert_eq!(
        cpu_sample_from_stat("cpu 1 2 x 4 5\n"),
        Err(CpuStatError::BadCpuLine(CpuLineFault::InvalidValue))
    );
    assert_eq!(
        cpu_sample_from_stat("cpu 1 2 3 4\n"),
        Err(CpuStatError::BadCpuLine(CpuLineFault::MissingIdleFields))
    );
    assert_eq!(
        cpu_sample_from_stat("cpu 1 2 3 18446744073709551615 1\n"),
        Err(CpuStatError::BadCpuLine(CpuLineFault::Overflow))
    );
    assert_eq!(
        cpu_sample_from_stat("cpu 18446744073709551615 2 3 4 5\n"),
        Err(CpuStatError::BadCpuLine(CpuLineFault::Overflow))
    );
}

#[test]
fn cpu_usage_from_deltas() {
    let previous = CpuSample {
        total: 100,
        idle: 40,
    };
    let current = CpuSample {
        total: 200,
        idle: 80,
    };

    let (idle_delta, total_delta) = cpu_usage_deltas(previous, current);
    assert_eq!((idle_delta, total_delta), (40, 100));
    let usage = (1.0 - (idle_delta as f64 / total_delta as f64)) * 100.0;

    assert!((usage - 60.0).abs() < f64::EPSILON);
}

#[test]
fn equal_samples_give_zero_deltas() {
    let sample = CpuSample {
        total: 100,
        idle: 40,
    };

    assert_eq!(cpu_usage_deltas(sample, sample), (0, 0));
}

#[test]
fn cpu_line_ignores_label_and_spacing() {
    let a = parse_cpu_line("cpu 1 2 3 4 5 6");
    let b = parse_cpu_line("total\t\t1   2 3\t4  5 6  ");
    assert_eq!(a, b);
    assert_eq!(a, CpuSample { total: 21, idle: 9 });
}
