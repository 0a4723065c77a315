use soft::log::Log;

fn texts<const N: usize>(log: &Log<N>) -> Vec<String> {
    log.iter().into_iter().cloned().collect()
}

#[test]
fn new_log_is_empty() {
    let log: Log<10> = Log::new();
    assert_eq!(log.len(), 0);
    assert!(log.iter().is_empty());
}

#[test]
fn newest_message_comes_first() {
    let mut log: Log<10> = Log::new();
    log.log("one".to_string());
    log.log("two".to_string());
    log.log("three".to_string());
    assert_eq!(log.len(), 3);
    assert_eq!(texts(&log), vec!["three", "two", "one"]);
}

#[test]
fn full_log_drops_the_oldest() {
    let mut log: Log<3> = Log::new();
    for k in 0..5 {
        log.log(format!("message {}", k));
        assert_eq!(log.len(), (k + 1).min(3));
    }
    assert_eq!(texts(&log), vec!["message 4", "message 3", "message 2"]);
}

#[test]
fn log_for_one_message_keeps_the_last() {
    let mut log: Log<1> = Log::new();
    log.log("a".to_string());
    log.log("b".to_string());
    assert_eq!(texts(&log), vec!["b"]);
}

#[test]
fn log_for_no_message_grows() {
    let mut log: Log<0> = Log::new();
    log.log("a".to_string());
    log.log("b".to_string());
    assert_eq!(texts(&log), vec!["b", "a"]);
}
