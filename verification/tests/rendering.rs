use readers_writers::gantt::format_time;
use readers_writers::gantt::Gantt;

#[test]
fn drawing_gantt() {
    let mut gantt = Gantt::new();
    gantt.push_task("1", "task".to_string(), 0, 1000);
    gantt.push_milestone("2", "task".to_string(), 2000);

    assert_eq!(
        gantt.to_md(),
        [
            "gantt",
            "dateFormat ss.SSS",
            "axisFormat %S.%L s",
            "",
            "section 1",
            "task: 00.000, 01.000",
            "",
            "section 2",
            "task: milestone, 02.000, 0"
        ]
    );
}

#[test]
fn time_formatting() {
    assert_eq!(format_time(4000), "04.000");
    assert_eq!(format_time(1234), "01.234");
}

#[test]
fn time_formatting_widens_past_a_hundred_seconds() {
    assert_eq!(format_time(0), "00.000");
    assert_eq!(format_time(99999), "99.999");
    assert_eq!(format_time(100000), "100.000");
}

#[test]
fn rendering_twice_is_identical() {
    let mut gantt = Gantt::new();
    gantt.push_task("7", "a".to_string(), 100, 200);
    gantt.push_milestone("7", "b".to_string(), 300);
    gantt.push_task("3", "c".to_string(), 0, 50);
    assert_eq!(gantt.to_md(), gantt.to_md());
}

#[test]
fn sections_sort_lexicographically_not_numerically() {
    let mut gantt = Gantt::new();
    gantt.push_milestone("2", "x".to_string(), 0);
    gantt.push_milestone("10", "y".to_string(), 0);
    let rows = gantt.to_md();
    let ten = rows.iter().position(|r| r == "section 10").unwrap();
    let two = rows.iter().position(|r| r == "section 2").unwrap();
    assert!(ten < two);
}

#[test]
fn records_of_one_section_keep_insertion_order() {
    let mut gantt = Gantt::new();
    gantt.push_milestone("1", "first".to_string(), 500);
    gantt.push_task("1", "second".to_string(), 600, 700);
    assert_eq!(
        gantt.to_md(),
        [
            "gantt",
            "dateFormat ss.SSS",
            "axisFormat %S.%L s",
            "",
            "section 1",
            "first: milestone, 00.500, 0",
            "second: 00.600, 00.700"
        ]
    );
}
