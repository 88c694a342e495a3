use std::sync::atomic::{AtomicUsize, Ordering};
use std::sync::Arc;
use std::time::Duration;
use task_scheduler::task::RecurrenceType;
use task_scheduler::scheduler::Dispatch;
use task_scheduler::{Scheduler, Task};

type Callback = Box<dyn FnMut(&Task) + Send + 'static>;

fn noop() -> Callback {
    Box::new(|_t: &Task| {})
}

fn ids(d: &[Dispatch<Callback>]) -> Vec<i32> {
    d.iter().map(|x| x.task.id).collect()
}

#[test]
fn ids_start_at_one_and_increase() {
    let mut s: Scheduler<Callback> = Scheduler::new();
    assert_eq!(s.get_last_task_id(), None);
    s.add_task("a".to_string(), noop(), Duration::from_secs(1));
    assert_eq!(s.get_last_task_id(), Some(1));
    s.add_recurring_task("b".to_string(), noop(), Duration::ZERO, RecurrenceType::Fixed(Duration::from_secs(5)));
    s.add_task("c".to_string(), noop(), Duration::ZERO);
    assert_eq!(s.get_last_task_id(), Some(3));
    let d = s.execute();
    assert_eq!(ids(&d), vec![1, 2, 3]);
    assert_eq!(d[0].task.name, "a");
    assert_eq!(d[0].task.delay, Duration::from_secs(1));
    assert_eq!(d[1].task.name, "b");
}

#[test]
fn ids_keep_increasing_after_removal() {
    let mut s: Scheduler<u32> = Scheduler::new();
    s.add_task("a".to_string(), 10, Duration::ZERO);
    s.remove_task_by_name("a");
    s.add_task("b".to_string(), 20, Duration::ZERO);
    assert_eq!(s.get_last_task_id(), Some(2));
    let d = s.execute();
    assert_eq!(d.len(), 1);
    assert_eq!(d[0].task.id, 2);
    assert_eq!(d[0].callback, 20);
}

#[test]
fn execute_drops_one_shot_tasks_and_keeps_recurring() {
    let mut s: Scheduler<u32> = Scheduler::new();
    s.add_task("once".to_string(), 1, Duration::ZERO);
    s.add_recurring_task("again".to_string(), 2, Duration::ZERO, RecurrenceType::Fixed(Duration::from_millis(10)));
    assert_eq!(s.list_tasks(), vec!["once", "again"]);
    let d = s.execute();
    assert_eq!(d.len(), 2);
    assert_eq!(d[0].callback, 1);
    assert_eq!(d[1].callback, 2);
    assert_eq!(s.list_tasks(), vec!["again"]);
}

#[test]
fn execute_twice_dispatches_nothing_new() {
    let mut s: Scheduler<u32> = Scheduler::new();
    s.add_recurring_task("r".to_string(), 7, Duration::ZERO, RecurrenceType::Fixed(Duration::from_secs(1)));
    assert_eq!(s.execute().len(), 1);
    assert_eq!(s.execute().len(), 0);
    assert_eq!(s.list_tasks(), vec!["r"]);
}

#[test]
fn remove_unknown_name_changes_nothing() {
    let mut s: Scheduler<u32> = Scheduler::new();
    s.add_task("a".to_string(), 1, Duration::ZERO);
    s.add_task("b".to_string(), 2, Duration::ZERO);
    s.remove_task_by_name("unknown");
    assert_eq!(s.list_tasks(), vec!["a", "b"]);
    assert_eq!(s.get_last_task_id(), Some(2));
    s.remove_task_by_name("a");
    assert_eq!(s.list_tasks(), vec!["b"]);
    assert_eq!(ids_u32(&s.execute()), vec![2]);
}

fn ids_u32(d: &[Dispatch<u32>]) -> Vec<i32> {
    d.iter().map(|x| x.task.id).collect()
}

#[test]
fn readding_a_name_points_it_at_the_new_task() {
    let mut s: Scheduler<u32> = Scheduler::new();
    s.add_task("a".to_string(), 1, Duration::ZERO);
    s.add_task("a".to_string(), 2, Duration::ZERO);
    s.remove_task_by_name("a");
    assert_eq!(s.list_tasks(), vec!["a"]);
    let d = s.execute();
    assert_eq!(ids_u32(&d), vec![1]);
    assert_eq!(d[0].callback, 1);
    s.remove_task_by_name("a");
    assert!(s.list_tasks().is_empty());
}

#[test]
fn remove_task_by_id() {
    let mut s: Scheduler<u32> = Scheduler::new();
    s.add_task("a".to_string(), 1, Duration::ZERO);
    s.add_task("b".to_string(), 2, Duration::ZERO);
    s.remove_task(1);
    s.remove_task(99);
    assert_eq!(s.list_tasks(), vec!["b"]);
    s.remove_task_by_name("a");
    assert_eq!(ids_u32(&s.execute()), vec![2]);
}

#[test]
fn task_and_action_rendering() {
    let t = Task::new(42, "x".to_string(), Duration::ZERO, RecurrenceType::Once);
    assert_eq!(t.describe(), "Task ID: 42");
    let n = Task::new(-7, "y".to_string(), Duration::ZERO, RecurrenceType::Once);
    assert_eq!(n.describe(), "Task ID: -7");
    let c = t.duplicate();
    assert_eq!(c.id, 42);
    assert_eq!(c.name, "x");
}

#[test]
fn stop_cancels_running_units() {
    let rt = tokio::runtime::Runtime::new().unwrap();
    rt.block_on(async {
        let count = Arc::new(AtomicUsize::new(0));
        let mut s: Scheduler<u32> = Scheduler::new();
        s.add_recurring_task("tick".to_string(), 1, Duration::ZERO, RecurrenceType::Fixed(Duration::from_millis(10)));
        let d = s.execute();
        let c = count.clone();
        let handle = tokio::spawn(async move {
            let mut iv = tokio::time::interval(Duration::from_millis(10));
            loop {
                iv.tick().await;
                c.fetch_add(1, Ordering::SeqCst);
            }
        });
        s.record_running(d[0].task.id, handle);
        tokio::time::sleep(Duration::from_millis(50)).await;
        s.stop();
        tokio::time::sleep(Duration::from_millis(20)).await;
        let seen = count.load(Ordering::SeqCst);
        assert!(seen > 0);
        tokio::time::sleep(Duration::from_millis(60)).await;
        assert_eq!(count.load(Ordering::SeqCst), seen);
        assert_eq!(s.list_tasks(), vec!["tick"]);
    });
}

fn counting_unit(count: Arc<AtomicUsize>) -> tokio::task::JoinHandle<()> {
    tokio::spawn(async move {
        let mut iv = tokio::time::interval(Duration::from_millis(10));
        loop {
            iv.tick().await;
            count.fetch_add(1, Ordering::SeqCst);
        }
    })
}

#[test]
fn record_running_replaces_and_cancels_the_old_unit() {
    let rt = tokio::runtime::Runtime::new().unwrap();
    rt.block_on(async {
        let first = Arc::new(AtomicUsize::new(0));
        let second = Arc::new(AtomicUsize::new(0));
        let mut s: Scheduler<u32> = Scheduler::new();
        s.add_recurring_task("r".to_string(), 1, Duration::ZERO, RecurrenceType::Fixed(Duration::from_millis(10)));
        let d = s.execute();
        assert_eq!(d.len(), 1);
        s.record_running(1, counting_unit(first.clone()));
        tokio::time::sleep(Duration::from_millis(40)).await;
        s.record_running(1, counting_unit(second.clone()));
        tokio::time::sleep(Duration::from_millis(20)).await;
        let first_seen = first.load(Ordering::SeqCst);
        assert!(first_seen > 0);
        tokio::time::sleep(Duration::from_millis(60)).await;
        assert_eq!(first.load(Ordering::SeqCst), first_seen);
        let second_seen = second.load(Ordering::SeqCst);
        assert!(second_seen > 0);
        s.cleanup();
        tokio::time::sleep(Duration::from_millis(20)).await;
        let after_cleanup = second.load(Ordering::SeqCst);
        tokio::time::sleep(Duration::from_millis(60)).await;
        assert_eq!(second.load(Ordering::SeqCst), after_cleanup);
    });
}

#[test]
fn cleanup_cancels_every_tracked_unit() {
    let rt = tokio::runtime::Runtime::new().unwrap();
    rt.block_on(async {
        let a = Arc::new(AtomicUsize::new(0));
        let b = Arc::new(AtomicUsize::new(0));
        let mut s: Scheduler<u32> = Scheduler::new();
        s.add_recurring_task("a".to_string(), 1, Duration::ZERO, RecurrenceType::Fixed(Duration::from_millis(10)));
        s.add_recurring_task("b".to_string(), 2, Duration::ZERO, RecurrenceType::Fixed(Duration::from_millis(10)));
        let d = s.execute();
        assert_eq!(ids_u32(&d), vec![1, 2]);
        s.record_running(1, counting_unit(a.clone()));
        s.record_running(2, counting_unit(b.clone()));
        s.cleanup();
        tokio::time::sleep(Duration::from_millis(20)).await;
        let (sa, sb) = (a.load(Ordering::SeqCst), b.load(Ordering::SeqCst));
        tokio::time::sleep(Duration::from_millis(60)).await;
        assert_eq!(a.load(Ordering::SeqCst), sa);
        assert_eq!(b.load(Ordering::SeqCst), sb);
        assert_eq!(s.list_tasks(), vec!["a", "b"]);
    });
}
