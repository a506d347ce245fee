use clap_handler::context::{Context, NotFound};

#[test]
fn insert_then_get_and_take() {
    let mut ctx: Context<i64> = Context::new();
    ctx.insert(7, 42);
    assert_eq!(ctx.get(7), Ok(&42));
    assert_eq!(ctx.get(7), Ok(&42));
    assert_eq!(ctx.take(7), Ok(42));
    assert_eq!(ctx.get(7), Err(NotFound { key: 7 }));
    assert_eq!(ctx.take(7), Err(NotFound { key: 7 }));
    assert_eq!(ctx.len(), 0);
}

#[test]
fn reinsert_overwrites() {
    let mut ctx: Context<String> = Context::new();
    ctx.insert(3, "first".to_string());
    ctx.insert(3, "second".to_string());
    assert_eq!(ctx.get(3), Ok(&"second".to_string()));
    assert_eq!(ctx.len(), 1);
    assert_eq!(ctx.keys(), vec![3]);
}

#[test]
fn get_on_empty_context_is_not_found() {
    let ctx: Context<u8> = Context::new();
    assert_eq!(ctx.get(0), Err(NotFound { key: 0 }));
    assert!(!ctx.contains(0));
}

#[test]
fn get_mut_changes_in_place() {
    let mut ctx: Context<i32> = Context::new();
    ctx.insert(1, 10);
    ctx.insert(2, 20);
    match ctx.get_mut(2) {
        Ok(v) => *v += 5,
        Err(e) => panic!("unexpected {:?}", e),
    }
    assert_eq!(ctx.get(2), Ok(&25));
    assert_eq!(ctx.get(1), Ok(&10));
    assert_eq!(ctx.keys(), vec![1, 2]);
    assert!(ctx.get_mut(9).is_err());
}

#[test]
fn keys_keep_insertion_order() {
    let mut ctx: Context<u32> = Context::new();
    ctx.insert(5, 0);
    ctx.insert(1, 0);
    ctx.insert(9, 0);
    ctx.insert(1, 4);
    assert_eq!(ctx.keys(), vec![5, 1, 9]);
    assert_eq!(ctx.take(1), Ok(4));
    assert_eq!(ctx.keys(), vec![5, 9]);
    ctx.insert(1, 2);
    assert_eq!(ctx.keys(), vec![5, 9, 1]);
    assert_eq!(ctx.len(), 3);
    assert!(ctx.contains(9));
}

#[test]
fn distinct_keys_coexist() {
    let mut ctx: Context<u64> = Context::new();
    ctx.insert(0, 1);
    ctx.insert(u64::MAX, 2);
    assert_eq!(ctx.get(0), Ok(&1));
    assert_eq!(ctx.get(u64::MAX), Ok(&2));
}
