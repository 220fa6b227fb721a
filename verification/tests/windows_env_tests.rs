use proxy_term::proxy::proxy_env_keys;
use proxy_term::windows_env::{backup_of, restore_plan};

#[test]
fn restore_without_backup_deletes_every_variable() {
    let plan = restore_plan(None);
    let keys = proxy_env_keys();
    assert_eq!(plan.len(), 8);
    for (i, (key, value)) in plan.iter().enumerate() {
        assert_eq!(key, &keys[i]);
        assert!(value.is_none());
    }
}

#[test]
fn restore_gives_back_the_backup() {
    let before = vec![
        Some("http://old:1".to_string()),
        None,
        None,
        Some("corp".to_string()),
        None,
        None,
        Some("socks5://x:2".to_string()),
        None,
    ];
    let saved = backup_of(before.clone());
    assert_eq!(saved.values(), &before);
    let plan = restore_plan(Some(&saved));
    let values: Vec<Option<String>> = plan.iter().map(|(_, v)| v.clone()).collect();
    assert_eq!(values, before);
    assert_eq!(plan[0].0, "http_proxy");
    assert_eq!(plan[7].0, "NO_PROXY");
}
