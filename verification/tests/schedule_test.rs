use altena_core::schedule::{ScheduleType, Scheduler};
use altena_core::{release_span, Span};

#[test]
fn once() {
    let mut scheduler = Scheduler::<String>::new();
    let once = ScheduleType::once(5);
    scheduler.push(once, "@_@".to_string());
    (0..10).for_each(|i| {
        let v = scheduler.pop(i);
        if i != 5 {
            assert!(v.is_empty());
        } else {
            assert!(v.len() == 1);
            assert_eq!(v.get(0).unwrap(), "@_@");
        }
    });
}

#[test]
fn span() {
    let mut scheduler = Scheduler::<String>::new();
    let span = ScheduleType::span(5, 5);
    scheduler.push(span, "@_@".to_string());
    (0..15).for_each(|i| {
        let v = scheduler.pop(i);
        if 5 <= i && i < 10 {
            assert!(v.len() == 1);
            assert_eq!(v.get(0).unwrap(), "@_@");
        } else {
            assert!(v.is_empty());
        }
    });
}

#[test]
fn repeated_once() {
    let mut scheduler = Scheduler::<String>::new();
    let span = ScheduleType::repeated_once(3, 3);
    scheduler.push(span, "@_@".to_string());
    (0..15).for_each(|i| {
        let v = scheduler.pop(i);
        if i % 3 == 0 && i != 0 {
            assert!(v.len() == 1);
            assert_eq!(v.get(0).unwrap(), "@_@");
        } else {
            assert!(v.is_empty());
        }
    });
}

#[test]
fn repeated_span() {
    let mut scheduler = Scheduler::<String>::new();
    let span = ScheduleType::repeated_span(3, 3, 2);
    scheduler.push(span, "@_@".to_string());
    (0..15).for_each(|i| {
        let v = scheduler.pop(i);
        if i % 3 != 2 && i >= 3 {
            assert!(v.len() == 1);
            assert_eq!(v.get(0).unwrap(), "@_@");
        } else {
            assert!(v.is_empty(), "i: {}", i);
        }
    });
}

#[test]
fn earliest_start_comes_first_and_equal_starts_in_order_of_pushing() {
    let mut scheduler = Scheduler::<u32>::new();
    scheduler.push(ScheduleType::once(7), 70);
    scheduler.push(ScheduleType::once(3), 30);
    scheduler.push(ScheduleType::once(7), 71);
    scheduler.push(ScheduleType::once(9), 90);
    scheduler.push(ScheduleType::once(3), 31);
    scheduler.push(ScheduleType::once(0), 1);
    assert_eq!(scheduler.pop(8), vec![1, 30, 31, 70, 71]);
    assert_eq!(scheduler.pop(8), Vec::<u32>::new());
    assert_eq!(scheduler.pop(9), vec![90]);
    assert_eq!(scheduler.pop(u64::MAX - 1), Vec::<u32>::new());
}

#[test]
fn action_that_was_missed_is_handed_out_late() {
    let mut scheduler = Scheduler::<u8>::new();
    scheduler.push(ScheduleType::span(2, 3), 1);
    // due at 2, 3, 4; first asked at 10: one tick of the span at each call
    assert_eq!(scheduler.pop(10), vec![1]);
    assert_eq!(scheduler.pop(11), vec![1]);
    assert_eq!(scheduler.pop(12), vec![1]);
    assert_eq!(scheduler.pop(13), Vec::<u8>::new());
}

#[test]
fn schedule_type_starts() {
    assert_eq!(ScheduleType::once(4).start(), 4);
    assert_eq!(ScheduleType::span(4, 2).start(), 4);
    assert_eq!(ScheduleType::span(4, 2), ScheduleType::Span(Span::new(4, 5)));
    assert_eq!(ScheduleType::repeated_once(6, 2).start(), 6);
    assert_eq!(ScheduleType::repeated_span(8, 5, 3).start(), 8);
    assert_eq!(
        ScheduleType::repeated_span(8, 5, 3),
        ScheduleType::RepeatedSpan { span: 5, next: Span::new(8, 10), exec_span: 3 }
    );
}

#[test]
fn next_start_of_each_kind() {
    assert_eq!(ScheduleType::once(4).next_after(4), None);
    assert_eq!(ScheduleType::span(4, 1).next_after(4), None);
    assert_eq!(ScheduleType::span(4, 2).next_after(4), Some(ScheduleType::Span(Span::new(5, 5))));
    assert_eq!(
        ScheduleType::repeated_once(4, 10).next_after(6),
        Some(ScheduleType::RepeatedOnce { span: 10, next: 16 })
    );
    assert_eq!(
        ScheduleType::repeated_span(4, 10, 2).next_after(4),
        Some(ScheduleType::RepeatedSpan { span: 10, next: Span::new(5, 5), exec_span: 2 })
    );
    assert_eq!(
        ScheduleType::repeated_span(5, 10, 1).next_after(5),
        Some(ScheduleType::RepeatedSpan { span: 10, next: Span::new(15, 15), exec_span: 1 })
    );
    // a span that starts again at once is not put back
    assert_eq!(ScheduleType::repeated_span(5, 0, 1).next_after(5), None);
}

#[test]
fn span_length() {
    assert_eq!(Span::new(3, 3).length(), 1);
    assert_eq!(Span::new(3, 9).length(), 7);
    assert_eq!(Span::new(4, 3).length(), 0);
    assert_eq!(Span::new(0, u64::MAX - 1).length(), u64::MAX);
}

#[test]
fn released_button_was_held_since_it_was_pressed() {
    assert_eq!(release_span(Some(4), 9), Span::new(4, 9));
    assert_eq!(release_span(Some(9), 9), Span::new(9, 9));
    assert_eq!(release_span(None, 9), Span::new(6, 9));
    assert_eq!(release_span(None, 3), Span::new(0, 3));
}
