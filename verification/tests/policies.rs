use readers_writers::reports::log_line;
use readers_writers::Action;
use readers_writers::FairService;
use readers_writers::ProtocolError;
use readers_writers::ReadPreferring;
use readers_writers::Reporter;
use readers_writers::ReporterConfig;
use readers_writers::WritePreferring;

/// The concrete two-operator scenario under read-preferring: the reader
/// holds `[0.0, 1.0]` and the writer, requesting at `0.2`, starts no
/// earlier than `1.0`.
#[test]
fn read_preferring_writer_waits_out_the_reader() {
    let mut sched = ReadPreferring::new();
    let mut reporter = Reporter::new(ReporterConfig { tab: 0 });

    reporter.record(1, Action::Create, 0).unwrap();
    reporter.record(2, Action::Create, 0).unwrap();

    reporter.record(1, Action::RequestRead, 0).unwrap();
    assert!(sched.try_start_read(1));
    reporter.record(1, Action::StartRead, 0).unwrap();

    reporter.record(2, Action::RequestWrite, 200).unwrap();
    assert!(!sched.try_start_write(2));

    reporter.record(1, Action::EndRead, 1000).unwrap();
    sched.end_read(1);

    let writer_start_at: u64 = 1000;
    assert!(sched.try_start_write(2));
    assert!(writer_start_at >= 1000);
    reporter.record(2, Action::StartWrite, writer_start_at).unwrap();
    reporter.record(2, Action::EndWrite, 1500).unwrap();
    sched.end_write(2);

    let rows = reporter.draw();
    assert!(rows.contains(&"👀: 00.000, 01.000".to_string()));
    assert!(rows.contains(&"📝: 01.000, 01.500".to_string()));
}

/// Reader concurrency: two reader intervals legitimately overlap, under
/// read-preferring and under fair service.
#[test]
fn readers_overlap() {
    let mut sched = ReadPreferring::new();
    assert!(sched.try_start_read(1));
    assert!(sched.try_start_read(2));
    sched.end_read(2);
    sched.end_read(1);

    let mut fair = FairService::new();
    fair.request(1);
    fair.request(2);
    assert!(fair.reader_try_start(1));
    assert!(fair.reader_try_start(2));
    fair.end_read(1);
    fair.end_read(2);
}

/// Starvation under read-preferring: while overlapping readers keep the
/// reader count positive, a waiting writer is never admitted; its start
/// comes only after the last reader's end.
#[test]
fn read_preferring_starves_the_writer() {
    let mut sched = ReadPreferring::new();
    assert!(sched.try_start_read(1));
    assert!(!sched.try_start_write(100));
    for fresh in 2..40u32 {
        assert!(sched.try_start_read(fresh));
        sched.end_read(fresh - 1);
        assert!(!sched.try_start_write(100));
    }
    sched.end_read(39);
    assert!(sched.try_start_write(100));
    sched.end_write(100);
}

/// The dual starvation under write-preferring: while writers keep
/// arriving, a waiting reader is never admitted.
#[test]
fn write_preferring_starves_the_reader() {
    let mut sched = WritePreferring::new();
    assert!(sched.writer_request());
    assert!(sched.writer_try_start(100));
    assert!(!sched.reader_try_start(1));
    for fresh in 101..120u32 {
        assert!(!sched.writer_request());
        sched.end_write(fresh - 1);
        assert!(!sched.writer_leave());
        assert!(!sched.reader_try_start(1));
        assert!(sched.writer_try_start(fresh));
        assert!(!sched.reader_try_start(1));
    }
    sched.end_write(119);
    assert!(sched.writer_leave());
    assert!(sched.reader_try_start(1));
    sched.end_read(1);
}

/// Write-preferring closes the reader gate to new readers the moment a
/// writer is waiting, even though a reader group is still active.
#[test]
fn write_preferring_blocks_new_readers_behind_a_waiting_writer() {
    let mut sched = WritePreferring::new();
    assert!(sched.reader_try_start(1));
    assert!(sched.writer_request());
    assert!(!sched.writer_try_start(100));
    assert!(!sched.reader_try_start(2));
    sched.end_read(1);
    assert!(sched.writer_try_start(100));
    sched.end_write(100);
    assert!(sched.writer_leave());
    assert!(sched.reader_try_start(2));
    sched.end_read(2);
}

/// Fairness under fair service: nobody queued later is admitted before
/// one queued earlier — a reader behind a queued writer waits, although
/// read-preferring would have admitted it at once.
#[test]
fn fair_service_admits_in_request_order() {
    let mut fair = FairService::new();
    assert!(fair.reader_try_start(1) == false);
    fair.request(1);
    assert!(fair.reader_try_start(1));

    fair.request(2);
    fair.request(3);
    assert!(!fair.writer_try_start(2));
    assert!(!fair.reader_try_start(3));
    fair.end_read(1);
    assert!(!fair.reader_try_start(3));
    assert!(fair.writer_try_start(2));
    fair.end_write(2);
    assert!(fair.reader_try_start(3));
    fair.end_read(3);
}

/// Interval pairing at the reporter: an operator may not start twice nor
/// end without a start.
#[test]
fn reporter_rejects_protocol_violations() {
    let mut reporter = Reporter::new(ReporterConfig { tab: 0 });
    assert_eq!(reporter.record(1, Action::EndRead, 5), Err(ProtocolError::EndedWithoutStart));
    reporter.record(1, Action::StartRead, 10).unwrap();
    assert_eq!(reporter.record(1, Action::StartRead, 20), Err(ProtocolError::StartedTwice));
    reporter.record(1, Action::EndRead, 30).unwrap();
    assert_eq!(reporter.record(1, Action::EndWrite, 40), Err(ProtocolError::EndedWithoutStart));
}

/// The printed event log: elapsed time, separator, indentation, operator
/// and action.
#[test]
fn log_line_formats_the_event() {
    assert_eq!(log_line(1, Action::Create, 1234, 0), " 1.234 s | #1：🚀创建。");
    assert_eq!(log_line(3, Action::StartRead, 12000, 2), "12.000 s |      #3：🏁👀开始读取。");
}
