use mora::context::MoraContext;

#[test]
fn context_clear_clears_context() {
    let mut context: MoraContext = Default::default();
    context.add_queue("test_queue".to_string()).unwrap();
    let queue = context.get_queue("test_queue").unwrap();
    queue.enqueue(1, "test".as_bytes().to_owned()).unwrap();
    assert_eq!(queue.len, 1);
    context.clear();
    assert!(context.get_queue("test_queue").is_none());
}

#[test]
fn context_add_queue_adds_queue() {
    let mut context: MoraContext = Default::default();
    context.add_queue("test_queue_1".to_string()).unwrap();
    context.add_queue("test_queue_2".to_string()).unwrap();
    let queue = context.get_queue("test_queue_1");
    assert!(queue.is_some());
    let queue = context.get_queue("test_queue_2");
    assert!(queue.is_some());
}

#[test]
fn context_add_queue_doesnt_add_if_queue_already_exists() {
    let mut context: MoraContext = Default::default();
    let result = context.add_queue("test_queue_1".to_string());
    assert!(result.is_ok());
    let result = context.add_queue("test_queue_1".to_string());
    assert!(result.is_err());
}

#[test]
fn lib_clear_clears_context() {
    let mut context: MoraContext = Default::default();
    context.add_queue("test_queue".to_string()).unwrap();
    let queue = context.get_queue("test_queue").unwrap();
    queue.enqueue(1, "test".as_bytes().to_owned()).unwrap();
    assert_eq!(queue.len, 1);
    context.clear();
    assert!(context.get_queue("test_queue").is_none());
}

#[test]
fn lib_add_queue_adds_queue() {
    let mut context: MoraContext = Default::default();
    context.add_queue("test_queue_1".to_string()).unwrap();
    context.add_queue("test_queue_2".to_string()).unwrap();
    let queue = context.get_queue("test_queue_1");
    assert!(queue.is_some());
    let queue = context.get_queue("test_queue_2");
    assert!(queue.is_some());
}

#[test]
fn lib_add_queue_doesnt_add_if_queue_already_exists() {
    let mut context: MoraContext = Default::default();
    let result = context.add_queue("test_queue_1".to_string());
    assert!(result.is_ok());
    let result = context.add_queue("test_queue_1".to_string());
    assert!(result.is_err());
}
