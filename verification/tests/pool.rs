use simplealbum::pool::{Pool, Step};
use simplealbum::worker::{ThumbJob, PREPASS_CONCURRENCY};

fn create(rel: &str) -> ThumbJob {
    ThumbJob::Create { rel_path: rel.to_string() }
}

fn shown(steps: &[Step]) -> Vec<String> {
    steps
        .iter()
        .map(|step| match step {
            Step::Delete(rel) => format!("delete {rel}"),
            Step::Settle(rel) => format!("settle {rel}"),
            Step::Make(rel) => format!("make {rel}"),
        })
        .collect()
}

#[test]
fn work_is_limited_to_the_places() {
    let mut pool = Pool::new(1);
    assert!(pool.is_idle());
    assert_eq!(shown(&pool.submit(create("a"))), ["settle a"]);
    assert_eq!(shown(&pool.submit(create("b"))), ["settle b"]);
    assert_eq!(shown(&pool.submit(create("c"))), ["settle c"]);
    assert_eq!(shown(&pool.settled("b".to_string(), true)), ["make b"]);
    // The only place is taken.
    assert_eq!(shown(&pool.settled("a".to_string(), true)), Vec::<String>::new());
    // A file that needs no work leaves.
    assert_eq!(shown(&pool.settled("c".to_string(), false)), Vec::<String>::new());
    assert_eq!(shown(&pool.finished()), ["make a"]);
    assert!(!pool.is_idle());
    assert_eq!(shown(&pool.finished()), Vec::<String>::new());
    assert!(pool.is_idle());
}

#[test]
fn deletions_wait_for_nothing() {
    let mut pool = Pool::new(1);
    pool.submit(create("a"));
    pool.settled("a".to_string(), true);
    let delete = ThumbJob::Delete { rel_path: "x".to_string() };
    assert_eq!(shown(&pool.submit(delete)), ["delete x"]);
}

#[test]
fn the_queue_is_held_back_when_too_many_files_wait() {
    let mut pool = Pool::new(2);
    for i in 0..PREPASS_CONCURRENCY {
        assert_eq!(pool.submit(create(&format!("{i}"))).len(), 1);
    }
    assert!(pool.accepts());
    assert_eq!(shown(&pool.submit(create("late"))), Vec::<String>::new());
    assert!(!pool.accepts());
    // A file that goes ahead makes room for the one held back.
    assert_eq!(shown(&pool.settled("7".to_string(), true)), ["make 7", "settle late"]);
    assert!(pool.accepts());
}

#[test]
fn the_longest_waiting_file_is_next() {
    let mut pool = Pool::new(1);
    for rel in ["a", "b", "c"] {
        pool.submit(create(rel));
    }
    pool.settled("a".to_string(), true);
    pool.settled("c".to_string(), true);
    pool.settled("b".to_string(), true);
    assert_eq!(shown(&pool.finished()), ["make c"]);
    assert_eq!(shown(&pool.finished()), ["make b"]);
}
